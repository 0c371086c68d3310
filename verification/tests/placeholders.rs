use sqlx_interp::placeholders::{
    error_context, parse_body, parse_placeholder, parse_query, Fragment, Ident, Kleene, ParsedQuery,
};

fn parse(sql: &str) -> ParsedQuery<'_> {
    parse_query(sql).unwrap()
}

fn placeholders(sql: &str) -> Vec<(Ident<'_>, Option<Kleene>)> {
    parse(sql)
        .fragments
        .into_iter()
        .filter_map(|f| match f {
            Fragment::Placeholder(p) => Some((p.ident, p.kleene)),
            _ => None,
        })
        .collect()
}

fn expect_named(p: &(Ident<'_>, Option<Kleene>), name: &str, kleene: Option<Kleene>) {
    match p {
        (Ident::Named(n), k) if &**n == name && *k == kleene => {}
        other => panic!("expected named({name}, {kleene:?}), got {other:?}"),
    }
}

fn literal<'p>(p: &'p ParsedQuery<'_>, i: usize) -> &'p str {
    match &p.fragments[i] {
        Fragment::Literal(s) => s,
        other => panic!("expected a literal, got {other:?}"),
    }
}

#[test]
fn empty_input() {
    let p = parse("");
    assert!(!p.had_placeholder);
    assert!(p.fragments.is_empty());
}

#[test]
fn legacy_passthrough() {
    // SQL with no `{` is one literal fragment, `had_placeholder == false`.
    let p = parse("SELECT $1, ? FROM t WHERE x = 'foo'");
    assert!(!p.had_placeholder);
    assert_eq!(p.fragments.len(), 1);
    match &p.fragments[0] {
        Fragment::Literal(s) => assert_eq!(s, "SELECT $1, ? FROM t WHERE x = 'foo'"),
        _ => panic!(),
    }
}

#[test]
fn placeholder_kinds() {
    let ps = placeholders("SELECT {0}, {id}, {ids*}, {jds+}, {(foo.bar)}");
    assert!(matches!(ps[0].0, Ident::Positional(0)));
    expect_named(&ps[1], "id", None);
    expect_named(&ps[2], "ids", Some(Kleene::Star));
    expect_named(&ps[3], "jds", Some(Kleene::Plus));
    match &ps[4].0 {
        Ident::Expr(e) => assert_eq!(&**e, "foo.bar"),
        _ => panic!(),
    }
}

#[test]
fn positional_with_kleene() {
    // Positional placeholders with `*` / `+` markers.
    let ps = placeholders("SELECT {0*}, {1+}");
    assert!(matches!(ps[0], (Ident::Positional(0), Some(Kleene::Star))));
    assert!(matches!(ps[1], (Ident::Positional(1), Some(Kleene::Plus))));
}

#[test]
fn expr_with_kleene() {
    // `{(expr)}` combined with `*` / `+`.
    let ps = placeholders("SELECT {(items.iter())*}, {(rest.ids)+}");
    match &ps[0] {
        (Ident::Expr(e), Some(Kleene::Star)) => assert_eq!(&**e, "items.iter()"),
        other => panic!("expected expr+star, got {other:?}"),
    }
    match &ps[1] {
        (Ident::Expr(e), Some(Kleene::Plus)) => assert_eq!(&**e, "rest.ids"),
        other => panic!("expected expr+plus, got {other:?}"),
    }
}

#[test]
fn body_whitespace_tolerated() {
    // Whitespace inside the `{...}` body is trimmed before resolving.
    let ps = placeholders("SELECT { 0 }, { id }, { ids * }");
    assert!(matches!(ps[0].0, Ident::Positional(0)));
    expect_named(&ps[1], "id", None);
    expect_named(&ps[2], "ids", Some(Kleene::Star));
}

#[test]
fn brace_escapes_collapse_outside_strings() {
    // `{{` outside a SQL string becomes a literal `{` at lex time.
    let p = parse("SELECT {{ a }}");
    assert!(!p.had_placeholder);
    match &p.fragments[0] {
        Fragment::Literal(s) => assert_eq!(s, "SELECT { a }"),
        _ => panic!(),
    }
}

#[test]
fn braces_inside_skipped_regions_are_not_placeholders() {
    for sql in [
        "SELECT '{not_a_placeholder}'",
        r#"SELECT 1 AS "weird{name}""#,
        "SELECT 1 -- {not_a_placeholder}\nFROM t",
        "SELECT /* outer /* {nope} */ */ 1 FROM t",
        "SELECT $tag$ {not} $tag$ FROM t",
        "SELECT $$ {not} $$ FROM t",
        "SELECT $1 FROM t", // bare `$1` is not a dollar-quote
    ] {
        assert!(!parse(sql).had_placeholder, "should not parse: {sql}");
    }
}

#[test]
fn errors() {
    for (sql, expect) in [
        ("SELECT {}", "empty placeholder"),
        ("SELECT {foo", "unterminated"),
        ("SELECT } FROM t", "unmatched"),
        ("SELECT {123abc}", "invalid placeholder body"),
        ("SELECT {(", "unterminated"),
        ("SELECT {99999999}", "is not a valid integer"),
    ] {
        let err = parse_query(sql).unwrap_err();
        assert!(err.message.contains(expect), "{sql}: {}", err.to_string());
    }
}

#[test]
fn paren_depth_finds_matching_close() {
    // The `}` inside `foo(1, 2)` must not terminate the placeholder.
    let p = parse("SELECT {(foo(1, 2).bar)}");
    match &p.fragments[1] {
        Fragment::Placeholder(p) => match &p.ident {
            Ident::Expr(e) => assert_eq!(&**e, "foo(1, 2).bar"),
            _ => panic!(),
        },
        _ => panic!(),
    }
}

#[test]
fn token_byte_range() {
    let p = parse("SELECT {id}");
    match &p.fragments[1] {
        Fragment::Placeholder(p) => assert_eq!(p.token, 7..11),
        _ => panic!(),
    }
}

#[test]
fn utf8_preserved_in_literals() {
    let p = parse("SELECT 'héllo' AS x, {id}");
    match &p.fragments[0] {
        Fragment::Literal(s) => assert_eq!(s, "SELECT 'héllo' AS x, "),
        _ => panic!(),
    }
}

#[test]
fn error_includes_context_snippet() {
    let err = parse_query("SELECT a, b, } FROM t WHERE x = 1").unwrap_err();
    // The unmatched `}` is at byte 13; we want a few words on either side.
    assert!(err.context.contains('}'), "{}", err.context);
    // The text includes the context.
    let display = err.to_string();
    assert!(display.contains("near `"), "{display}");
}

#[test]
fn error_context_handles_short_input() {
    // Position past end of input falls back to the last available word(s).
    assert_eq!(error_context("SELECT", 100), "SELECT");
    // Empty input yields an empty snippet.
    assert_eq!(error_context("", 0), "");
    // Entirely-whitespace input also yields empty.
    assert_eq!(error_context("   \n  ", 2), "");
}

#[test]
fn error_context_collapses_whitespace() {
    // Multi-space and newline runs collapse to single spaces.
    let snippet = error_context("a   b\n\nc   d   e   f   g", 8);
    // Whitespace between words is exactly one space, regardless of original spacing.
    assert!(!snippet.contains("  "), "{snippet}");
    assert!(snippet.contains(" "));
}

#[test]
fn error_context_centers_on_position() {
    // 7 single-letter words; positioning at word index 3 (`d`) should give
    // 3 words on either side.
    let sql = "a b c d e f g";
    let snippet = error_context(sql, 6); // points at `d`
    assert_eq!(snippet, "a b c d e f g");
    // Positioning earlier should drop trailing words.
    let snippet = error_context(sql, 0); // points at `a`
    assert_eq!(snippet, "a b c d");
}

#[test]
fn every_error_message_and_position() {
    for (sql, position, message) in [
        (
            "SELECT {}",
            8,
            "empty placeholder `{}`; expected an index, name, or `(expr)`",
        ),
        (
            "SELECT {  }",
            8,
            "empty placeholder `{}`; expected an index, name, or `(expr)`",
        ),
        ("SELECT {foo", 7, "unterminated `{` in SQL; expected `}`"),
        ("SELECT {(a}", 7, "unterminated `{` in SQL; expected `}`"),
        (
            "SELECT } FROM t",
            7,
            "unmatched `}` in SQL; use `}}` for a literal `}`",
        ),
        (
            "SELECT {*}",
            8,
            "Kleene marker `*`/`+` requires an expression before it",
        ),
        (
            "SELECT { + }",
            8,
            "Kleene marker `*`/`+` requires an expression before it",
        ),
        (
            "SELECT {123abc}",
            8,
            "invalid placeholder body `123abc`; expected an integer, identifier, or `(expr)`",
        ),
        (
            "SELECT {a-b*}",
            8,
            "invalid placeholder body `a-b`; expected an integer, identifier, or `(expr)`",
        ),
        (
            "SELECT {é}",
            8,
            "invalid placeholder body `é`; expected an integer, identifier, or `(expr)`",
        ),
        (
            "SELECT {65536}",
            8,
            "positional placeholder index `65536` is not a valid integer",
        ),
        (
            "SELECT {(a) b}",
            8,
            "mismatched `(` in placeholder; expected `(...)`",
        ),
    ] {
        let err = parse_query(sql).unwrap_err();
        assert_eq!(err.message, message, "{sql}");
        assert_eq!(err.byte_position, position, "{sql}");
    }
}

#[test]
fn error_text_is_exact() {
    let err = parse_query("SELECT a, b, } FROM t WHERE x = 1").unwrap_err();
    assert_eq!(err.byte_position, 13);
    assert_eq!(err.context, "SELECT a, b, } FROM t WHERE");
    assert_eq!(
        err.to_string(),
        "error parsing placeholders at byte 13: unmatched `}` in SQL; use `}}` for a literal `}` \
         (near `SELECT a, b, } FROM t WHERE`)"
    );
    let copy = err.clone();
    assert_eq!(copy.byte_position, 13);
    assert_eq!(copy.to_string(), err.to_string());
}

#[test]
fn largest_index_and_leading_zeros() {
    let ps = placeholders("{65535} {007}");
    assert!(matches!(ps[0].0, Ident::Positional(65535)));
    assert!(matches!(ps[1].0, Ident::Positional(7)));
}

#[test]
fn literals_stand_between_placeholders() {
    let p = parse("a{{b{x}{y}}}c");
    assert!(p.had_placeholder);
    assert_eq!(p.fragments.len(), 4);
    assert_eq!(literal(&p, 0), "a{b");
    assert_eq!(literal(&p, 3), "}c");
    let copy = p.clone();
    assert_eq!(copy.fragments.len(), 4);
    assert_eq!(literal(&copy, 3), "}c");
    assert!(copy.had_placeholder);
}

#[test]
fn expression_bodies_may_hold_braces_in_parentheses() {
    let ps = placeholders("SELECT {(v.map(|x| { x }))}, {( a )}");
    match &ps[0].0 {
        Ident::Expr(e) => assert_eq!(&**e, "v.map(|x| { x })"),
        _ => panic!(),
    }
    match &ps[1].0 {
        Ident::Expr(e) => assert_eq!(&**e, "a"),
        _ => panic!(),
    }
}

#[test]
fn string_literals_in_a_body_are_not_skipped() {
    let err = parse_query("{(foo(\"a}b\"))}").unwrap_err();
    assert_eq!(err.message, "mismatched `(` in placeholder; expected `(...)`");
    assert_eq!(err.byte_position, 1);
    let mut i: usize = 0;
    assert!(parse_placeholder("{(foo(\"a}b\"))}", &mut i).is_err());
    assert_eq!(i, 9);
    let ps = placeholders("{(foo(\"a\", { b }))}");
    match &ps[0].0 {
        Ident::Expr(e) => assert_eq!(&**e, "foo(\"a\", { b })"),
        _ => panic!(),
    }
}

#[test]
fn only_string_literals_end_a_body_in_parentheses() {
    // No `}` in these stands in a string literal.
    for body in [
        r#"f('"', {1})"#,
        r#"f('\"', {1})"#,
        r#"f("\"", {1})"#,
        r#"f("\\", {1})"#,
        r#"f(b'"', {1}, '}')"#,
        r#"f('é','"', {1})"#,
        r#"f::<'a>('"', {1})"#,
        r#"f(r"\", {1})"#,
        r##"f(r#"""#, {1})"##,
        r#"f(/* " /* " */ */ {1})"#,
        "f( // \"\n {1})",
        r#"f("a", {1}, "b")"#,
        r#"f(" {1})"#,
    ] {
        let sql = format!("{{({body})}}");
        let ps = placeholders(&sql);
        assert_eq!(ps.len(), 1, "{sql}");
        assert!(matches!(&ps[0].0, Ident::Expr(e) if &**e == body), "{sql}");
    }
    // In these one does.
    for body in [
        r#"f("\"}")"#,
        r#"f(r"\}")"#,
        r##"f(r#"a"}"#)"##,
        r#"f('"', "}")"#,
        r#"f(b"}")"#,
        r#"f("{1}")"#,
    ] {
        let sql = format!("{{({body})}}");
        let mut i: usize = 0;
        assert!(parse_placeholder(&sql, &mut i).is_err(), "{sql}");
        assert_eq!(i, sql.find('}').unwrap() + 1, "{sql}");
    }
}

#[test]
fn a_placeholder_is_left_behind_its_brace() {
    for (sql, start, end) in [
        ("a {b} c", 2, 5),
        ("a {} c", 2, 4),
        ("a {(b} c", 2, 8),
        ("a {b", 2, 4),
    ] {
        let mut i: usize = start;
        let read = parse_placeholder(sql, &mut i);
        assert_eq!(read.is_ok(), sql == "a {b} c", "{sql}");
        assert_eq!(i, end, "{sql}");
    }
}

#[test]
fn white_space_in_a_body_does_not_matter() {
    for body in ["ids*", " ids *", "ids\t* ", "ids   *"] {
        match parse_body(body, body, 0) {
            Ok((Ident::Named(name), Some(Kleene::Star))) => assert_eq!(name, "ids"),
            _ => panic!("{body:?}"),
        }
    }
    assert!(parse_body("i ds*", "i ds*", 0).is_err());
}

#[test]
fn errors_lie_at_the_byte_at_fault() {
    for (sql, at) in [("é } é", 3), ("é {é", 3), ("é {é} é", 4), ("{}", 1), ("}", 0)] {
        let err = parse_query(sql).unwrap_err();
        assert_eq!(err.byte_position, at, "{sql}");
        assert!(sql.is_char_boundary(at));
    }
}

#[test]
fn unterminated_regions_reach_the_end() {
    for sql in [
        "SELECT 'a {b}",
        "SELECT \"a {b}",
        "SELECT 1 -- {b}",
        "SELECT /* a /* {b} */",
        "SELECT $t$ {b} $u$",
    ] {
        let p = parse(sql);
        assert!(!p.had_placeholder, "{sql}");
        assert_eq!(literal(&p, 0), sql);
    }
}

#[test]
fn doubled_quotes_stay_inside() {
    let p = parse("'it''s {a}' {b} \"x\"\"{c}\"");
    assert_eq!(p.fragments.len(), 3);
    assert_eq!(literal(&p, 0), "'it''s {a}' ");
    assert_eq!(literal(&p, 2), " \"x\"\"{c}\"");
}

#[test]
fn placeholders_follow_regions() {
    // A comment ends with its line, a dollar-quoted block with its own tag.
    let p = parse("-- {a}\n{b} $t$ $u$ {c} $t$ {d} a - b / c");
    let ps = placeholders("-- {a}\n{b} $t$ $u$ {c} $t$ {d} a - b / c");
    assert_eq!(ps.len(), 2);
    expect_named(&ps[0], "b", None);
    expect_named(&ps[1], "d", None);
    assert_eq!(literal(&p, 0), "-- {a}\n");
    assert_eq!(literal(&p, 2), " $t$ $u$ {c} $t$ ");
    assert_eq!(literal(&p, 4), " a - b / c");
}

#[test]
fn any_quoted_text_passes_through() {
    for text in ["", "{", "}", "{a}", "é{x}'", "\"{{\"", "-- {", "$$ {"] {
        for quote in ["'", "\""] {
            let doubled = text.replace(quote, &format!("{quote}{quote}"));
            let sql = format!("{quote}{doubled}{quote}");
            let p = parse(&sql);
            assert_eq!(p.fragments.len(), 1, "{sql}");
            assert_eq!(literal(&p, 0), sql);
        }
    }
}

#[test]
fn any_plain_text_survives_escaping() {
    for text in ["a", "{", "}}{", "é {ü} 漢", "a - b / c * d {0}", "{}{}"] {
        let sql = text.replace('{', "{{").replace('}', "}}");
        let p = parse(&sql);
        assert!(!p.had_placeholder, "{sql}");
        assert_eq!(p.fragments.len(), 1);
        assert_eq!(literal(&p, 0), text);
    }
}

#[test]
fn nested_comments_and_tagged_blocks_pass_through() {
    for sql in [
        "/*/*/* {a} */*/*/",
        "/* {a} */",
        "$$ {a} $$",
        "$_tag1$ {a} }} $_tag1$",
        "-- {a} }",
    ] {
        let p = parse(sql);
        assert_eq!(p.fragments.len(), 1);
        assert_eq!(literal(&p, 0), sql);
    }
}

#[test]
fn white_space_is_that_of_unicode() {
    // Every character with the White_Space property around a body is trimmed.
    for c in [
        '\u{9}', '\u{a}', '\u{b}', '\u{c}', '\u{d}', '\u{20}', '\u{85}', '\u{a0}', '\u{1680}',
        '\u{2000}', '\u{2001}', '\u{2002}', '\u{2003}', '\u{2004}', '\u{2005}', '\u{2006}',
        '\u{2007}', '\u{2008}', '\u{2009}', '\u{200a}', '\u{2028}', '\u{2029}', '\u{202f}',
        '\u{205f}', '\u{3000}',
    ] {
        let sql = format!("{{{c}id{c}+{c}}}");
        let ps = placeholders(&sql);
        expect_named(&ps[0], "id", Some(Kleene::Plus));
        // In an error context it is one space.
        assert_eq!(error_context(&format!("a{c}{c}b"), 0), "a b");
    }
    // Others are not: a zero width space is no white space.
    let err = parse_query("{\u{200b}id}").unwrap_err();
    assert!(err.message.contains("invalid placeholder body"));
    assert_eq!(error_context("a\u{200b}b", 0), "a\u{200b}b");
}

#[test]
fn white_space_property_is_complete() {
    // Exactly the listed characters are white space to `char::is_whitespace`.
    let listed = |c: char| {
        ('\u{9}'..='\u{d}').contains(&c)
            || ('\u{2000}'..='\u{200a}').contains(&c)
            || [
                '\u{20}', '\u{85}', '\u{a0}', '\u{1680}', '\u{2028}', '\u{2029}', '\u{202f}',
                '\u{205f}', '\u{3000}',
            ]
            .contains(&c)
    };
    for c in '\0'..=char::MAX {
        assert_eq!(c.is_whitespace(), listed(c), "{c:?}");
    }
}

#[test]
fn context_shows_three_words_on_each_side() {
    let sql = "a b c d e f g h i";
    assert_eq!(error_context(sql, 8), "b c d e f g h");
    assert_eq!(error_context(sql, 16), "f g h i");
    assert_eq!(error_context("  x", 0), "x");
}
