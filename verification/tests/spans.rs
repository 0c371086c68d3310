use sqlx_interp::spans::{open_groups, respan, show_args, without_spans, SpannedToken};
use sqlx_interp::tokens::{print_tokens, Delimiter, Token};

fn ident(name: &str, span: u8) -> SpannedToken<u8> {
    SpannedToken::Ident(name.to_string(), span)
}

fn punct(c: char, joint: bool, span: u8) -> SpannedToken<u8> {
    SpannedToken::Punct(c, joint, span)
}

fn group(delimiter: Delimiter, tokens: Vec<SpannedToken<u8>>, span: u8) -> SpannedToken<u8> {
    SpannedToken::Group(delimiter, tokens, span)
}

fn text(tokens: &Vec<SpannedToken<u8>>) -> String {
    let tokens: Vec<Token> = without_spans(tokens);
    print_tokens(&tokens, 0, tokens.len())
}

fn spans(tokens: &[SpannedToken<u8>]) -> Vec<u8> {
    tokens
        .iter()
        .flat_map(|t| match t {
            SpannedToken::Ident(_, s) | SpannedToken::Literal(_, s) => vec![*s],
            SpannedToken::Punct(_, _, s) => vec![*s],
            SpannedToken::Group(_, inner, s) => {
                let mut all = vec![*s];
                all.extend(spans(inner));
                all
            }
        })
        .collect()
}

#[test]
fn respan_changes_spans_and_nothing_else() {
    let tokens = vec![
        ident("f", 1),
        group(
            Delimiter::Parenthesis,
            vec![
                SpannedToken::Literal("\"a\"".to_string(), 2),
                punct(':', true, 3),
                punct(':', false, 4),
                group(Delimiter::Bracket, vec![ident("x", 5)], 6),
            ],
            7,
        ),
    ];
    let moved = respan(&tokens, 9);
    assert_eq!(spans(&moved), [9; 7]);
    assert_eq!(text(&moved), text(&tokens));
    assert_eq!(text(&moved), "f (\"a\" :: [x])");
}

#[test]
fn invisible_groups_are_opened() {
    let inner = group(Delimiter::Invisible, vec![ident("b", 2), ident("c", 3)], 4);
    let tokens = vec![
        ident("a", 1),
        group(Delimiter::Invisible, vec![inner, ident("d", 5)], 6),
        group(Delimiter::Brace, vec![group(Delimiter::Invisible, vec![ident("e", 7)], 8)], 9),
    ];
    let opened = open_groups(tokens);
    assert_eq!(opened.len(), 5);
    assert_eq!(spans(&opened), [1, 2, 3, 5, 9, 8, 7]);
}

#[test]
fn groups_that_hide_the_kind_of_an_argument_are_opened() {
    let invisible = |tokens: Vec<SpannedToken<u8>>| group(Delimiter::Invisible, tokens, 0);
    let comma = || punct(',', false, 0);
    let rest = vec![punct('.', true, 1), punct('.', false, 1), ident("r", 1)];
    let named = vec![ident("n", 2), punct('=', false, 2), ident("v", 2)];
    let equal = vec![ident("a", 3), punct('=', true, 3), punct('=', false, 3), ident("b", 3)];
    let list = vec![
        invisible(equal),
        comma(),
        invisible(named),
        comma(),
        invisible(vec![ident("m", 4)]),
        punct('=', false, 4),
        invisible(vec![punct('.', true, 5), punct('.', false, 5)]),
        comma(),
        invisible(rest),
    ];
    let tokens = show_args(vec![
        ident("args", 0),
        punct('=', false, 0),
        group(Delimiter::Bracket, list, 6),
    ]);
    match &tokens[2] {
        SpannedToken::Group(Delimiter::Bracket, list, 6) => {
            let kinds: Vec<bool> =
                list.iter().map(|t| matches!(t, SpannedToken::Group(_, _, _))).collect();
            // `a == b` stays a group, and so does what is no start of an element.
            let groups: Vec<usize> = (0..kinds.len()).filter(|i| kinds[*i]).collect();
            assert_eq!(groups, [0, 8]);
            assert_eq!(spans(list), [0, 3, 3, 3, 3, 0, 2, 2, 2, 0, 4, 4, 0, 5, 5, 0, 1, 1, 1]);
            assert_eq!(text(list), "(a == b) , n = v , m = (..) , .. r");
        }
        other => panic!("expected a list, got {other:?}"),
    }
    // Only the list of arguments is looked at.
    let other = show_args(vec![
        ident("record", 0),
        punct('=', false, 0),
        group(Delimiter::Bracket, vec![invisible(vec![ident("m", 4)]), punct('=', false, 4)], 0),
    ]);
    match &other[2] {
        SpannedToken::Group(Delimiter::Bracket, list, 0) => {
            assert!(matches!(&list[0], SpannedToken::Group(Delimiter::Invisible, _, 0)));
            assert_eq!(spans(list), [0, 4, 4]);
        }
        other => panic!("expected a list, got {other:?}"),
    }
}

#[test]
fn paths_are_written_without_parentheses() {
    let path = vec![ident("a", 1), punct(':', true, 1), punct(':', false, 1), ident("b", 1)];
    let sum = vec![ident("a", 1), punct('+', false, 1), ident("b", 1)];
    let tokens = vec![
        group(Delimiter::Invisible, path, 2),
        punct('*', false, 2),
        group(Delimiter::Invisible, sum, 2),
    ];
    assert_eq!(text(&tokens), "a :: b * (a + b)");
}
