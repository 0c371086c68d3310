use sqlx_interp::database::ParamIndexing;
use sqlx_interp::expr::{parse_expr, CastType, Expr, FieldAccess};
use sqlx_interp::placeholders::{parse_query, Fragment, Kleene};
use sqlx_interp::rewrite::{
    can_rewrite, resolve_inline, rewrite, try_rewrite, Binding, BindingRefKind, Origin,
    RewriteError, RewriteOutput, RuntimeTemplate,
};

fn quoted(text: &str) -> Expr {
    parse_expr(text).unwrap()
}

fn named(name: &str, text: &str) -> (String, Expr) {
    (name.to_string(), quoted(text))
}

fn run(
    sql: &str,
    positional: Vec<Expr>,
    named: Vec<(String, Expr)>,
    rest: Option<&Expr>,
    placeholder_char: char,
    indexing: ParamIndexing,
) -> Result<RewriteOutput, RewriteError> {
    let parsed = parse_query(sql).unwrap();
    assert!(can_rewrite(&parsed, &positional, &named, rest));
    rewrite(&parsed, &positional, &named, rest, placeholder_char, indexing)
}

fn run_pg(
    sql: &str,
    positional: Vec<Expr>,
    named: Vec<(String, Expr)>,
) -> Result<RewriteOutput, RewriteError> {
    run(sql, positional, named, None, '$', ParamIndexing::OneIndexed)
}

fn run_anon(
    sql: &str,
    positional: Vec<Expr>,
    named: Vec<(String, Expr)>,
) -> Result<RewriteOutput, RewriteError> {
    run(sql, positional, named, None, '?', ParamIndexing::Implicit)
}

fn ok(r: Result<RewriteOutput, RewriteError>) -> RewriteOutput {
    r.unwrap_or_else(|e| panic!("rewrite failed: {}", e.to_string()))
}

fn err_msg(r: Result<RewriteOutput, RewriteError>) -> String {
    match r {
        Ok(_) => panic!("expected error"),
        Err(e) => e.message,
    }
}

#[test]
fn legacy_passthrough_no_placeholders() {
    let out = ok(run_pg("SELECT $1, $2", vec![], vec![]));
    assert_eq!(out.describe_sql, "SELECT $1, $2");
    assert_eq!(out.bindings.len(), 0);
}

#[test]
fn positional_pg() {
    let out = ok(run_pg(
        "SELECT {0}, {1}",
        vec![quoted("10"), quoted("\"hi\"")],
        vec![],
    ));
    assert_eq!(out.describe_sql, "SELECT $1, $2");
    assert!(matches!(
        out.runtime_template,
        RuntimeTemplate::Static(ref s) if s == "SELECT $1, $2"
    ));
}

#[test]
fn positional_anon_format() {
    let out = ok(run_anon(
        "SELECT {0}, {1}",
        vec![quoted("10"), quoted("\"hi\"")],
        vec![],
    ));
    assert_eq!(out.describe_sql, "SELECT ?, ?");
}

#[test]
fn named_pg() {
    let out = ok(run_pg("SELECT {id}", vec![], vec![named("id", "10")]));
    assert_eq!(out.describe_sql, "SELECT $1");
    assert_eq!(out.bindings.len(), 1);
}

#[test]
fn inline_capture_synthesizes_path_expr() {
    let out = ok(run_pg("SELECT {foo}", vec![], vec![]));
    match &out.bindings[0] {
        Binding::Single(Expr::Path(ident)) => {
            // A raw identifier is prefixed with `r#` in the textual form;
            // semantically `r#foo` and `foo` resolve to the same name.
            assert_eq!(ident.trim_start_matches("r#"), "foo");
            assert_eq!(ident, "r#foo");
        }
        _ => panic!(),
    }
}

#[test]
fn inline_capture_handles_reserved_keyword() {
    // Reserved Rust keywords (`type`, `match`, etc.) used as placeholder
    // names produce raw idents that resolve to a user's `let r#type = ...`.
    let out = ok(run_pg("SELECT {type}", vec![], vec![]));
    assert_eq!(out.bindings.len(), 1);
}

#[test]
fn rest_handles_reserved_keyword_field() {
    // `..rest` field-access path also makes raw idents.
    let rest: Expr = quoted("my_struct");
    let out = ok(run(
        "SELECT {match}",
        vec![],
        vec![],
        Some(&rest),
        '$',
        ParamIndexing::OneIndexed,
    ));
    assert!(matches!(&out.bindings[0], Binding::Single(Expr::Field(FieldAccess::Of(_, m))) if m == "r#match"));
}

#[test]
fn spread_collapses_to_one_describe_placeholder() {
    let out = ok(run_pg(
        "SELECT * FROM t WHERE id IN ({ids*})",
        vec![],
        vec![named("ids", "vec![1, 2, 3]")],
    ));
    assert_eq!(out.describe_sql, "SELECT * FROM t WHERE id IN ($1)");
    match &out.runtime_template {
        RuntimeTemplate::Pieces { literals, bindings } => {
            assert_eq!(literals, &["SELECT * FROM t WHERE id IN (", ")"]);
            assert!(matches!(
                bindings[0].kind,
                BindingRefKind::Spread(Kleene::Star)
            ));
        }
        _ => panic!(),
    }
}

#[test]
fn spread_with_singles_keeps_literals_pure_sql() {
    // With any spread present, runtime literals must NOT contain $N: placeholders
    // are emitted at runtime in lockstep with `add` so spread expansion shifts
    // subsequent placeholder numbers correctly.
    let out = ok(run_pg(
        "SELECT {foo}, * FROM t WHERE id IN ({ids*}) AND y = {bar}",
        vec![],
        vec![named("foo", "7"), named("ids", "vec![1, 2]"), named("bar", "8")],
    ));
    assert_eq!(
        out.describe_sql,
        "SELECT $1, * FROM t WHERE id IN ($2) AND y = $3"
    );
    match &out.runtime_template {
        RuntimeTemplate::Pieces { literals, bindings } => {
            assert_eq!(
                literals,
                &["SELECT ", ", * FROM t WHERE id IN (", ") AND y = ", ""]
            );
            assert_eq!(bindings.len(), 3);
        }
        _ => panic!(),
    }
}

#[test]
fn question_mark_in_string_is_not_misread_as_native() {
    // The lexer doesn't interpret `?` inside a string literal as a placeholder,
    // and the rewriter doesn't reject the query for "mixing" styles.
    let out = ok(run_anon(
        "SELECT 'a?b' WHERE id = {x}",
        vec![],
        vec![named("x", "1")],
    ));
    assert_eq!(out.describe_sql, "SELECT 'a?b' WHERE id = ?");
}

#[test]
fn dollar_n_in_string_is_not_misread_as_native() {
    let out = ok(run_pg(
        "SELECT '$1 cost' WHERE id = {x}",
        vec![],
        vec![named("x", "1")],
    ));
    assert_eq!(out.describe_sql, "SELECT '$1 cost' WHERE id = $1");
}

#[test]
fn out_of_range_positional() {
    let msg = err_msg(run_pg("SELECT {3}", vec![], vec![]));
    assert!(msg.contains("out of range"), "{msg}");
}

#[test]
fn paren_expr_field_and_method() {
    let out = ok(run_pg("SELECT {(foo.bar)}", vec![], vec![]));
    assert!(matches!(out.bindings[0], Binding::Single(Expr::Field(_))));
    let out = ok(run_pg("SELECT {(foo.bar())}", vec![], vec![]));
    assert!(matches!(
        out.bindings[0],
        Binding::Single(Expr::MethodCall(_))
    ));
}

#[test]
fn paren_expr_invalid_syntax() {
    let msg = err_msg(run_pg("SELECT {(foo +)}", vec![], vec![]));
    assert!(msg.contains("failed to parse expression"), "{msg}");
}

#[test]
fn rest_resolves_unmatched_named_to_field_access() {
    let rest: Expr = quoted("my_struct");
    let out = ok(run(
        "INSERT INTO t (a, b) VALUES ({a}, {b})",
        vec![],
        vec![],
        Some(&rest),
        '$',
        ParamIndexing::OneIndexed,
    ));
    for b in &out.bindings {
        assert!(matches!(b, Binding::Single(Expr::Field(_))));
    }
}

#[test]
fn rest_does_not_override_explicit_named() {
    let rest: Expr = quoted("my_struct");
    let out = ok(run(
        "INSERT INTO t (id, b) VALUES ({id}, {b})",
        vec![],
        vec![named("id", "99i32")],
        Some(&rest),
        '$',
        ParamIndexing::OneIndexed,
    ));
    // `{id}` → 99i32 (explicit), `{b}` → my_struct.b (rest).
    assert!(matches!(out.bindings[0], Binding::Single(Expr::Lit(_))));
    assert!(matches!(out.bindings[1], Binding::Single(Expr::Field(_))));
}

#[test]
fn mixing_native_and_braces_produces_clashing_describe_sql() {
    // The rewriter does not reject queries that contain both native
    // placeholders and `{...}` interpolation: the database surfaces the
    // conflict at describe time. This test pins that the rewriter's
    // describe_sql contains both: the user's literal `$1` and the
    // rewriter's `$1` for `{foo}`. Postgres reports "there is no
    // parameter $2" against the resulting two-arg prepared statement.
    let out = ok(run_pg(
        "SELECT $1, {foo}",
        vec![],
        vec![named("foo", "7")],
    ));
    assert_eq!(out.describe_sql, "SELECT $1, $1");
}

#[test]
fn repeated_placeholder_clones_binding() {
    // `{x}` referenced twice: each reference clones the bound expression.
    // Like `format!`, repeated references re-evaluate at runtime if the
    // expression has side effects.
    let out = ok(run_pg("SELECT {x} + {x}", vec![], vec![named("x", "5i32")]));
    assert_eq!(out.bindings.len(), 2);
    assert!(matches!(out.bindings[0], Binding::Single(Expr::Lit(_))));
    assert!(matches!(out.bindings[1], Binding::Single(Expr::Lit(_))));
}

#[test]
fn native_queries_keep_their_arguments() {
    let out = ok(run_pg("SELECT $1, $2", vec![quoted("a"), quoted("b")], vec![]));
    assert!(matches!(&out.bindings[0], Binding::Single(Expr::Path(s)) if s == "a"));
    assert!(matches!(&out.bindings[1], Binding::Single(Expr::Path(s)) if s == "b"));
    assert_eq!(out.origins, [Origin::Positional(0), Origin::Positional(1)]);
    assert!(!out.has_spread());
    assert!(matches!(&out.runtime_template, RuntimeTemplate::Static(s) if s == "SELECT $1, $2"));
}

#[test]
fn native_queries_take_no_names() {
    let message = "named or `..rest` arguments were provided but the SQL contains no `{...}` \
                   placeholders";
    let e = run_pg("SELECT 1", vec![], vec![named("x", "1")]).unwrap_err();
    assert_eq!(e.message, message);
    assert_eq!(e.byte_range, 0..0);
    let rest = quoted("r");
    let e = run("SELECT 1", vec![], vec![], Some(&rest), '?', ParamIndexing::Implicit).unwrap_err();
    assert_eq!(e.to_string(), message);
}

#[test]
fn escaped_braces_collapse() {
    let out = ok(run_pg("SELECT {{ 'a {{' }}", vec![], vec![]));
    assert_eq!(out.describe_sql, "SELECT { 'a {{' }");
    let out = ok(run_pg("{{{0}}}", vec![quoted("1")], vec![]));
    assert_eq!(out.describe_sql, "{$1}");
}

#[test]
fn errors_are_exact() {
    let e = run_pg("SELECT {3}", vec![quoted("1")], vec![]).unwrap_err();
    assert_eq!(
        e.message,
        "positional placeholder `{3}` is out of range; only 1 positional argument(s) provided"
    );
    assert_eq!(e.byte_range, 7..10);
    let e = run_pg("SELECT {(a b)}", vec![], vec![]).unwrap_err();
    assert_eq!(e.message, "failed to parse expression `a b`: unexpected token");
    assert_eq!(e.byte_range, 7..14);
    let e = run_pg("SELECT {()}", vec![], vec![]).unwrap_err();
    assert!(e.message.starts_with("failed to parse expression ``: unexpected end of input"));
}

#[test]
fn the_last_named_argument_counts() {
    let out = ok(run_pg("{x}", vec![], vec![named("x", "a"), named("y", "b"), named("x", "c")]));
    assert!(matches!(&out.bindings[0], Binding::Single(Expr::Path(s)) if s == "c"));
    assert_eq!(out.origins, [Origin::Named(2)]);
}

#[test]
fn origins_tell_where_expressions_come_from() {
    let rest = quoted("my.rest");
    let out = ok(run(
        "{0} {n} {f} {(a + b)*}",
        vec![quoted("1")],
        vec![named("n", "x as _")],
        Some(&rest),
        '$',
        ParamIndexing::OneIndexed,
    ));
    assert_eq!(
        out.origins,
        [Origin::Positional(0), Origin::Named(0), Origin::Rest(8, 11), Origin::Placeholder(12, 22)]
    );
    assert!(matches!(&out.bindings[1], Binding::Single(Expr::Cast(_, CastType::Infer))));
    match &out.bindings[2] {
        Binding::Single(Expr::Field(FieldAccess::Of(base, member))) => {
            assert!(matches!(&**base, Expr::Field(FieldAccess::Written(s)) if s == "my.rest"));
            assert_eq!(member, "r#f");
        }
        other => panic!("expected a field access, got {other:?}"),
    }
    assert!(matches!(&out.bindings[3], Binding::Spread(Expr::Other(s)) if s == "a + b"));
    assert!(out.has_spread());
    let copy = out.bindings[3].clone();
    assert!(matches!(copy, Binding::Spread(_)));
}

#[test]
fn references_follow_the_bindings() {
    let out = ok(run_anon("{0}{1+}{2*}", vec![quoted("a"), quoted("b"), quoted("c")], vec![]));
    match &out.runtime_template {
        RuntimeTemplate::Pieces { literals, bindings } => {
            assert_eq!(literals, &["", "", "", ""]);
            let refs: Vec<usize> = bindings.iter().map(|b| b.binding_index).collect();
            assert_eq!(refs, [0, 1, 2]);
            assert_eq!(bindings[0].kind, BindingRefKind::Single);
            assert_eq!(bindings[1].kind, BindingRefKind::Spread(Kleene::Plus));
            assert_eq!(bindings[2].kind, BindingRefKind::Spread(Kleene::Star));
        }
        _ => panic!(),
    }
    assert_eq!(out.describe_sql, "???");
}

#[test]
fn names_without_raw_identifiers_are_found_out() {
    for name in ["self", "Self", "super", "crate", "_"] {
        let sql = format!("SELECT {{{name}}}");
        let parsed = parse_query(&sql).unwrap();
        let none = try_rewrite(&parsed, &[], &[], None, '?', ParamIndexing::Implicit);
        assert!(none.is_none(), "{name}");
        // With an argument of that name there is nothing to make up.
        let given = [(name.to_string(), quoted("1"))];
        let some = try_rewrite(&parsed, &[], &given, None, '?', ParamIndexing::Implicit);
        assert!(some.unwrap().is_ok(), "{name}");
    }
    // An error before the name comes first.
    let parsed = parse_query("{0} {self}").unwrap();
    let r = try_rewrite(&parsed, &[], &[], None, '?', ParamIndexing::Implicit);
    assert!(r.unwrap().is_err());
}

#[test]
fn inline_expressions_are_resolved_as_read() {
    let parsed = parse_query("x {(a)}").unwrap();
    match &parsed.fragments[1] {
        Fragment::Placeholder(p) => {
            let (e, origin) = resolve_inline(p, "a", Ok(quoted("a"))).unwrap();
            assert!(matches!(e, Expr::Path(s) if s == "a"));
            assert_eq!(origin, Origin::Placeholder(2, 7));
            let e = resolve_inline(p, "a", Err("no".to_string())).unwrap_err();
            assert_eq!(e.message, "failed to parse expression `a`: no");
            assert_eq!(e.byte_range, 2..7);
        }
        _ => panic!(),
    }
}
