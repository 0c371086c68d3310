use proc_macro2::{Spacing, TokenStream, TokenTree};
use sqlx_interp::expr::{
    form_expr, get_type_override, parse_expr, strip_wildcard, CastType, Expr, ExprForm, FieldAccess,
};
use sqlx_interp::input::{
    add_element, element_kind, join_literals, parse_args_list, parse_input, read_error_message, ArgsList,
    ElementKind, InputError, PartialInput, QuerySrc, RecordType, SourceFile, TokenRange,
};
use sqlx_interp::tokens::{print_tokens, Delimiter, Token};
use syn::parse::Parser;
use syn::punctuated::Punctuated;

fn convert(stream: TokenStream) -> Vec<Token> {
    stream
        .into_iter()
        .map(|tree| match tree {
            TokenTree::Ident(ident) => Token::Ident(ident.to_string()),
            TokenTree::Punct(punct) => {
                Token::Punct(punct.as_char(), punct.spacing() == Spacing::Joint)
            }
            TokenTree::Literal(literal) => Token::Literal(literal.to_string()),
            TokenTree::Group(group) => Token::Group(
                match group.delimiter() {
                    proc_macro2::Delimiter::Parenthesis => Delimiter::Parenthesis,
                    proc_macro2::Delimiter::Brace => Delimiter::Brace,
                    proc_macro2::Delimiter::Bracket => Delimiter::Bracket,
                    proc_macro2::Delimiter::None => Delimiter::Invisible,
                },
                convert(group.stream()),
            ),
        })
        .collect()
}

fn tokens(text: &str) -> Vec<Token> {
    convert(text.parse().unwrap())
}

fn parse(input: &str) -> Result<ArgsList, InputError> {
    let tokens = tokens(input);
    let mut out = ArgsList::new();
    parse_args_list(&tokens, 0, &mut out)?;
    Ok(out)
}

fn err_msg(input: &str) -> String {
    match parse(input) {
        Ok(_) => panic!("expected error parsing `{input}`"),
        Err(e) => e.message,
    }
}

#[test]
fn empty_args_list() {
    let out = parse("[]").unwrap();
    assert!(out.positional.is_empty());
    assert!(out.named.is_empty());
    assert!(out.rest.is_none());
}

#[test]
fn positional_only() {
    let out = parse("[1, 2, 3]").unwrap();
    assert_eq!(out.positional.len(), 3);
    assert!(out.named.is_empty());
}

#[test]
fn named_only() {
    let out = parse("[a = 1, b = 2]").unwrap();
    assert!(out.positional.is_empty());
    assert_eq!(out.named.len(), 2);
    assert_eq!(out.named[0].0.to_string(), "a");
    assert_eq!(out.named[1].0.to_string(), "b");
}

#[test]
fn rest_only() {
    let out = parse("[..my_struct]").unwrap();
    assert!(out.rest.is_some());
}

#[test]
fn positional_then_named_then_rest() {
    let out = parse("[1, 2, a = 3, ..rest]").unwrap();
    assert_eq!(out.positional.len(), 2);
    assert_eq!(out.named.len(), 1);
    assert!(out.rest.is_some());
}

#[test]
fn equality_in_positional_is_not_named() {
    // `a == b` is one positional expression, not `a = (=b)`.
    let out = parse("[a == b]").unwrap();
    assert_eq!(out.positional.len(), 1);
    assert!(out.named.is_empty());
}

#[test]
fn trailing_comma_accepted() {
    let out = parse("[1, 2,]").unwrap();
    assert_eq!(out.positional.len(), 2);
}

#[test]
fn rejects_positional_after_named() {
    let msg = err_msg("[a = 1, 2]");
    assert!(msg.contains("must come before"), "{msg}");
}

#[test]
fn rejects_positional_after_rest() {
    let msg = err_msg("[..rest, 1]");
    assert!(msg.contains("must come before"), "{msg}");
}

#[test]
fn rejects_double_rest() {
    let msg = err_msg("[..a, ..b]");
    assert!(msg.contains("only one"), "{msg}");
}

#[test]
fn arguments_are_taken_apart() {
    let out = parse("[1, foo, foo.bar, f.g(1, 2), x as _, x as Vec<u8>, a + b, v::<T, U>()]").unwrap();
    assert!(matches!(&out.positional[0], Expr::Lit(s) if s == "1"));
    assert!(matches!(&out.positional[1], Expr::Path(s) if s == "foo"));
    assert!(matches!(&out.positional[2], Expr::Field(FieldAccess::Written(s)) if s == "foo . bar"));
    assert!(matches!(&out.positional[3], Expr::MethodCall(s) if s == "f . g (1 , 2)"));
    assert!(matches!(&out.positional[4], Expr::Cast(s, CastType::Infer) if s == "x as _"));
    assert!(matches!(&out.positional[5], Expr::Cast(s, CastType::Given) if s == "x as Vec < u8 >"));
    assert!(matches!(&out.positional[6], Expr::Other(_)));
    // A comma in angle brackets ends no argument.
    assert!(matches!(&out.positional[7], Expr::Other(_)));
    assert_eq!(out.positional.len(), 8);
    let copy = out.positional[2].clone();
    assert!(matches!(copy, Expr::Field(FieldAccess::Written(s)) if s == "foo . bar"));
}

#[test]
fn arguments_know_where_they_are_written() {
    let tokens = tokens("args [1, a = f(2), ..r.s]");
    let mut out = ArgsList::new();
    assert_eq!(parse_args_list(&tokens, 1, &mut out).unwrap(), 2);
    assert_eq!(out.positional_at, [TokenRange { list: 1, start: 0, end: 1 }]);
    assert_eq!(out.named_at, [TokenRange { list: 1, start: 4, end: 6 }]);
    assert_eq!(out.rest_at, Some(TokenRange { list: 1, start: 9, end: 12 }));
}

#[test]
fn invisible_groups_stay_recognizable() {
    let group = |text: &str| Token::Group(Delimiter::Invisible, tokens(text));
    let comma = || Token::Punct(',', false);
    let list = vec![Token::Group(
        Delimiter::Bracket,
        vec![
            group("x as _"),
            comma(),
            Token::Group(Delimiter::Invisible, vec![group("y as u8")]),
            comma(),
            group("1 + 2"),
            Token::Punct('*', false),
            Token::Literal("3".to_string()),
        ],
    )];
    let mut out = ArgsList::new();
    parse_args_list(&list, 0, &mut out).unwrap();
    match &out.positional[0] {
        Expr::Group(inner) => assert!(matches!(&**inner, Expr::Cast(_, CastType::Infer))),
        other => panic!("expected a group, got {other:?}"),
    }
    assert!(matches!(get_type_override(&out.positional[0]), Some(CastType::Infer)));
    assert!(matches!(get_type_override(&out.positional[1]), Some(CastType::Given)));
    // A group that is only a part of an argument is one operand of it.
    assert!(matches!(&out.positional[2], Expr::Other(s) if s.contains('(')));
    assert_eq!(out.positional.len(), 3);
    // Within a group, what is left over is rejected.
    let bad = vec![Token::Group(Delimiter::Bracket, vec![group("a b")])];
    let e = parse_args_list(&bad, 0, &mut ArgsList::new()).unwrap_err();
    assert_eq!(e.message, "unexpected token");
}

#[test]
fn paths_in_invisible_groups_go_on() {
    let group = |text: &str| Token::Group(Delimiter::Invisible, tokens(text));
    let mut list = vec![group("a::T")];
    list.extend(tokens("::default(), 1 +"));
    list.push(group("a::P"));
    list.extend(tokens("{ x: 1 },"));
    list.push(group("a::m"));
    list.extend(tokens("!(1),"));
    list.push(group("a::f"));
    list.extend(tokens("(1) != 2, n = 3"));
    let list = vec![Token::Group(Delimiter::Bracket, list)];
    let mut out = ArgsList::new();
    parse_args_list(&list, 0, &mut out).unwrap();
    let texts: Vec<&str> = out
        .positional
        .iter()
        .map(|e| match e {
            Expr::Other(s) => s.as_str(),
            other => panic!("unexpected {other:?}"),
        })
        .collect();
    assert_eq!(
        texts,
        ["a :: T :: default ()", "1 + a :: P {x : 1}", "a :: m ! (1)", "a :: f (1) != 2"]
    );
    let ranges: Vec<(usize, usize)> = out.positional_at.iter().map(|r| (r.start, r.end)).collect();
    assert_eq!(ranges, [(0, 5), (6, 10), (11, 14), (15, 20)]);
    assert_eq!(out.named.len(), 1);
    // A group with another expression in it does not.
    let mut list = vec![group("a + b")];
    list.extend(tokens("::c"));
    let list = vec![Token::Group(Delimiter::Bracket, list)];
    assert!(parse_args_list(&list, 0, &mut ArgsList::new()).is_err());
}

// Writes the fragments, as invisible groups, in the place of each `$`.
fn filled(stream: TokenStream, fragments: &mut std::slice::Iter<'_, &str>) -> TokenStream {
    stream
        .into_iter()
        .map(|t| match t {
            TokenTree::Punct(p) if p.as_char() == '$' => TokenTree::Group(proc_macro2::Group::new(
                proc_macro2::Delimiter::None,
                fragments.next().unwrap().parse().unwrap(),
            )),
            TokenTree::Group(g) => TokenTree::Group(proc_macro2::Group::new(
                g.delimiter(),
                filled(g.stream(), fragments),
            )),
            t => t,
        })
        .collect()
}

#[test]
fn invisible_groups_are_looked_through() {
    let mut mismatches: Vec<(&str, &[&str], usize)> = Vec::new();
    for (text, fragments, n) in [
        ("if x $ else { y }, 1", &["{ a }"][..], 2),
        ("{ $ }, 1", &["x = 1"], 2),
        ("{ $; x }, 1", &["let x = 1"], 2),
        ("{ $ f() }", &["fn f() {}"], 1),
        ("{ $ struct S; 1 }", &["pub(crate)"], 1),
        ("{ $ struct S; 1 }", &[""], 1),
        ("{ #[$] let x = 1; x }", &["allow(unused)"], 1),
        ("{ #[$] let x = 1; x }", &["doc = \"a\""], 1),
        ("x.$, 2", &["0"], 2),
        ("|$| a, 2", &["ref a"], 2),
        ("|$| a, 2", &["A | B"], 2),
        ("match x { $(y) => y }, 2", &["Some"], 2),
        ("match x { $ => y, $ => z }, 2", &["1..=2", "-1"], 2),
        ("x as $::Item, 2", &["Vec<u8>"], 2),
        ("{ $ 1 }", &["m! { a }"], 1),
        ("$ + 1, loop $, 2", &["{ a }", "{ b }"], 3),
        ("-$ * 2, &$ * 3", &["a + b", "a + b"], 2),
        ("x as &$, 2", &["dyn A"], 2),
        ("Vec::<$>::new(), $::f::<$>(1), 3", &["Vec<u8>", "a::b", "&'static str"], 3),
        ("if $ { 1 } else { 2 }, match $ { _ => 1 }", &["a", "S { x: 1 }"], 2),
        ("$ { x: 1, ..$ }, $!(1, 2), $![1]", &["a::S", "y", "m", "a::m"], 3),
        ("$ != $, !$, $ as u8, $?, $.await", &["a", "b", "c", "d", "e", "f"], 5),
        ("$.f(1)[$], $(1), $.g.h", &["a + b", "0..1", "|x| x", "x"], 3),
        ("$..$, $ | $, 1", &["a", "b", "c", "d"], 3),
        ("[$, $], [$; $], ($,)", &["a + b", "c", "0u8", "4", "x"], 3),
        ("{ $; x }", &["let x: u8 = 1"], 0),
        ("$::c", &["a + b"], 0),
        ("a $ b", &["c"], 0),
        ("$ $", &["a", "b"], 0),
        ("{ $ $ }", &["f()", "x"], 0),
    ] {
        let elements = filled(text.parse().unwrap(), &mut fragments.iter());
        let read = Punctuated::<syn::Expr, syn::token::Comma>::parse_terminated
            .parse2(elements.clone());
        let list = vec![Token::Group(Delimiter::Bracket, convert(elements))];
        let mut out = ArgsList::new();
        let accepted = parse_args_list(&list, 0, &mut out).is_ok();
        let found = if accepted { out.positional.len() } else { 0 };
        if found != n || read.map_or(0, |read| read.len()) != n {
            mismatches.push((text, fragments, found));
        }
    }
    assert!(mismatches.is_empty(), "{mismatches:?}");
}

#[test]
fn wildcard_casts_are_stripped() {
    let out = parse("[x as _, x as i32, x]").unwrap();
    let mut exprs = out.positional.into_iter();
    assert!(matches!(strip_wildcard(exprs.next().unwrap()), Expr::Operand(s) if s == "x as _"));
    assert!(matches!(strip_wildcard(exprs.next().unwrap()), Expr::Cast(_, CastType::Given)));
    assert!(matches!(strip_wildcard(exprs.next().unwrap()), Expr::Path(s) if s == "x"));
    let grouped = Expr::Group(Box::new(Expr::Cast("y as _".to_string(), CastType::Infer)));
    match strip_wildcard(grouped) {
        Expr::Group(inner) => assert!(matches!(*inner, Expr::Operand(s) if s == "y as _")),
        other => panic!("expected a group, got {other:?}"),
    }
}

#[test]
fn forms_are_told_apart() {
    let form = |form: ExprForm| form_expr("e".to_string(), form);
    assert!(matches!(form(ExprForm::Lit), Expr::Lit(_)));
    assert!(matches!(form(ExprForm::Path), Expr::Path(_)));
    assert!(matches!(form(ExprForm::MethodCall), Expr::MethodCall(_)));
    assert!(matches!(form(ExprForm::Field), Expr::Field(FieldAccess::Written(_))));
    assert!(matches!(form(ExprForm::Cast(CastType::Infer)), Expr::Cast(_, CastType::Infer)));
    assert!(matches!(form(ExprForm::Block), Expr::Other(s) if s == "e"));
    assert!(matches!(form(ExprForm::Macro), Expr::Other(s) if s == "e"));
    assert!(matches!(form(ExprForm::Other), Expr::Other(s) if s == "e"));
    assert!(matches!(parse_expr("a::b::<C>").unwrap(), Expr::Path(s) if s == "a::b::<C>"));
    assert!(matches!(parse_expr("(a)").unwrap(), Expr::Other(_)));
    assert!(matches!(parse_expr("-1").unwrap(), Expr::Other(_)));
    assert!(matches!(parse_expr("x.0").unwrap(), Expr::Field(_)));
    assert_eq!(parse_expr("a b").unwrap_err(), "unexpected token");
    assert_eq!(parse_expr("\"").unwrap_err(), "cannot parse string into token stream");
}

#[test]
fn list_errors_are_exact() {
    for (input, message, arg_at) in [
        ("[a = 1, 2]", "positional arguments must come before named arguments and `..rest`", 4),
        ("[..a, ..b]", "only one `..rest` argument is allowed", 4),
        ("[1 2]", "expected `,`", 1),
    ] {
        let e = parse(input).unwrap_err();
        assert_eq!(e.message, message);
        assert_eq!((e.at, e.arg_at), (0, Some(arg_at)), "{input}");
    }
    let e = parse("[1, +]").unwrap_err();
    assert_eq!(e.message, "expected an expression");
    let e = parse("[a =]").unwrap_err();
    assert!(e.message.starts_with("unexpected end of input"), "{}", e.message);
    let e = parse("(1)").unwrap_err();
    assert_eq!((e.message.as_str(), e.at, e.arg_at), ("expected square brackets", 0, None));
    let e = parse("").unwrap_err();
    assert_eq!(e.message, "unexpected end of input, expected square brackets");
}

#[test]
fn keywords_are_no_names() {
    // `self = x` is an assignment, and so a positional expression.
    assert!(matches!(element_kind(&tokens("self = x"), 0), ElementKind::Positional));
    assert!(matches!(element_kind(&tokens("type = x"), 0), ElementKind::Positional));
    assert!(matches!(element_kind(&tokens("r#type = x"), 0), ElementKind::Named(s) if s == "r#type"));
    assert!(matches!(element_kind(&tokens("a = x"), 0), ElementKind::Named(s) if s == "a"));
    assert!(matches!(element_kind(&tokens("..x"), 0), ElementKind::Rest));
    assert!(matches!(element_kind(&tokens(". .x"), 0), ElementKind::Positional));
}

#[test]
fn elements_are_added_in_their_place() {
    let at = |start: usize| TokenRange { list: 0, start, end: start + 1 };
    let e = |s: &str| Expr::Other(s.to_string());
    let mut args = ArgsList::new();
    add_element(&mut args, ElementKind::Positional, e("p"), at(0)).unwrap();
    add_element(&mut args, ElementKind::Rest, e("r"), at(2)).unwrap();
    add_element(&mut args, ElementKind::Named("n".to_string()), e("v"), at(4)).unwrap();
    let err = add_element(&mut args, ElementKind::Rest, e("s"), at(6)).unwrap_err();
    assert_eq!((err.message.as_str(), err.at), ("only one `..rest` argument is allowed", 6));
    let err = add_element(&mut args, ElementKind::Positional, e("q"), at(8)).unwrap_err();
    assert_eq!(err.at, 8);
    assert_eq!(args.positional.len(), 1);
    assert_eq!(args.named.len(), 1);
    assert!(matches!(&args.rest, Some(Expr::Other(s)) if s == "r"));
}

fn input(text: &str) -> PartialInput {
    parse_input(&tokens(text)).unwrap()
}

fn input_err(text: &str) -> (String, usize, Option<usize>) {
    let e = parse_input(&tokens(text)).unwrap_err();
    (e.message, e.at, e.arg_at)
}

#[test]
fn a_single_literal_is_the_source() {
    let input = input(r#"source = "SELECT {x}\n", args = [x = 1], checked = false"#);
    assert!(!input.checked);
    assert_eq!(input.args.named.len(), 1);
    assert!(input.source_file().is_none());
    let source = input.source.as_ref().unwrap();
    assert_eq!((source.at, source.token), (2, Some(2)));
    let input = input.resolve(None);
    assert_eq!(input.sql, "SELECT {x}\n");
    assert_eq!(input.sql_token, Some(2));
    assert_eq!(input.subspan(7..10), Some(8..11));
    assert!(input.file_path.is_none());
    assert!(matches!(input.record_type, RecordType::Generated));
}

#[test]
fn literals_are_joined() {
    let input = input(r##"args = [], source = "a" + r"\b" + r#"""#"##).resolve(None);
    assert_eq!(input.sql, "a\\b\"");
    assert_eq!(input.src_at, 6);
    assert_eq!(input.sql_token, None);
    assert_eq!(input.subspan(0..1), None);
    assert!(input.checked);
}

#[test]
fn joined_literals_are_one_text() {
    let values = |texts: &[&str]| texts.iter().map(|t| t.to_string()).collect::<Vec<String>>();
    let one = join_literals(&values(&["a"]), 5);
    assert!(matches!(&one.src, QuerySrc::String(s) if s == "a"));
    assert_eq!((one.at, one.token), (5, Some(5)));
    let two = join_literals(&values(&["a", "", "b"]), 5);
    assert!(matches!(&two.src, QuerySrc::String(s) if s == "ab"));
    assert_eq!((two.at, two.token), (5, None));
}

#[test]
fn a_type_ends_where_the_next_entry_begins() {
    let input = input("record = Map<K, [V; 2]>, checked = false, source = \"\"");
    assert!(matches!(&input.record_type, RecordType::Given(ty) if ty == "Map < K , [V ; 2] >"));
    assert!(!input.checked);
}

#[test]
fn a_file_may_be_the_source() {
    let input = input(r#"source_file = "q.sql", record = Vec<u8>"#);
    assert_eq!(input.source_file(), Some("q.sql"));
    assert!(matches!(&input.source.as_ref().unwrap().src, QuerySrc::File(f) if f == "q.sql"));
    assert!(matches!(&input.record_type, RecordType::Given(ty) if ty == "Vec < u8 >"));
    let input = input.resolve(Some(SourceFile {
        sql: "SELECT 1".to_string(),
        path: "/tmp/q.sql".to_string(),
    }));
    assert_eq!(input.sql, "SELECT 1");
    assert_eq!(input.file_path.as_deref(), Some("/tmp/q.sql"));
    assert_eq!(
        read_error_message("/tmp/q.sql", "not found"),
        "failed to read query file at /tmp/q.sql: not found"
    );
}

#[test]
fn later_entries_count() {
    let input = input(
        r#"source = "a", args = [1], source = "b", args = [2, n = 3], checked = false, checked = true,
           scalar = _"#,
    );
    assert_eq!(input.args.positional.len(), 2);
    assert_eq!(input.args.positional_at[1].list, 14);
    assert!(input.checked);
    assert!(matches!(input.record_type, RecordType::Scalar));
    assert_eq!(input.resolve(None).sql, "b");
}

#[test]
fn input_errors_are_exact() {
    let end = "unexpected end of input, ";
    for (text, message, at) in [
        ("", format!("{end}expected `source` or `source_file` key"), 0),
        ("checked = true", format!("{end}expected `source` or `source_file` key"), 3),
        ("source \"a\"", "expected `=`".to_string(), 1),
        ("source = 1", "expected string literal".to_string(), 2),
        ("source =", format!("{end}expected string literal"), 2),
        ("source = \"a\" +", format!("{end}expected string literal"), 4),
        ("source_file = b\"a\"", "expected string literal".to_string(), 2),
        ("source = \"a\" checked = true", "expected `,`".to_string(), 3),
        ("source = \"a\",", format!("{end}expected identifier"), 4),
        ("\"a\"", "expected identifier".to_string(), 0),
        ("fn = 1", "expected identifier, found keyword `fn`".to_string(), 0),
        ("bogus = 1", "unexpected input key: bogus".to_string(), 0),
        ("checked = 1", "expected boolean literal".to_string(), 2),
        ("checked =", format!("{end}expected boolean literal"), 2),
        ("scalar = x", "expected `_`".to_string(), 2),
        ("scalar = _, record = T", "colliding `scalar` or `record` key".to_string(), 6),
        ("record = T, scalar = _", "colliding `scalar` or `record` key".to_string(), 6),
        ("record = T, record =", format!("{end}colliding `scalar` or `record` key"), 6),
        ("args = 1", "expected square brackets".to_string(), 2),
    ] {
        assert_eq!(input_err(text), (message, at, None), "{text}");
    }
    assert_eq!(
        input_err("args = [1 2]"),
        ("expected `,`".to_string(), 2, Some(1))
    );
    let (message, at, _) = input_err("record = +");
    assert!(message.starts_with("expected one of"), "{message}");
    assert_eq!(at, 2);
}

fn print_all(tokens: &Vec<Token>) -> String {
    print_tokens(tokens, 0, tokens.len())
}

#[test]
fn tokens_are_written_so_that_they_are_read_again() {
    for text in ["a == b && c", "'a: loop { x.y[0]; }", "f::<'_, T>(r#type, b'x', 1.0)", "&mut *x"] {
        let printed = print_all(&tokens(text));
        let again: TokenStream = printed.parse().unwrap();
        let stream: TokenStream = text.parse().unwrap();
        assert_eq!(again.to_string(), stream.to_string());
        assert_eq!(print_all(&convert(again)), printed);
    }
    assert_eq!(print_tokens(&tokens("a == {b} [c, d]"), 1, 4), "== {b}");
    assert_eq!(print_tokens(&tokens("a"), 1, 1), "");
}
