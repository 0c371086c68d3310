use sqlx_interp::database::{MySql, Postgres, Sqlite, Value};
use sqlx_interp::query_interp::{query_interp, InterpQuery, Query};
use std::borrow::Cow;

fn err_msg(q: InterpQuery<'_, Sqlite>) -> String {
    match q.build() {
        Ok(_) => panic!("expected build to fail"),
        Err(e) => e.message().to_string(),
    }
}

fn ints(values: &[Value<'_>]) -> Vec<i64> {
    values
        .iter()
        .map(|v| match v {
            Value::Int(n) => *n,
            other => panic!("expected an integer, got {other:?}"),
        })
        .collect()
}

fn built_pg(q: InterpQuery<'_, Postgres>) -> (String, Vec<i64>) {
    let query: Query<'_, Postgres> = q.build().unwrap();
    (query.sql().to_string(), ints(&query.arguments().values))
}

#[test]
fn interp_named_missing_bind_errors() {
    let msg = err_msg(query_interp::<Sqlite>("SELECT {missing}"));
    assert!(msg.contains("missing"), "{msg}");
    assert_eq!(
        msg,
        "named placeholder `{missing}` referenced but no matching bind_named/bind_iter_named \
         was called"
    );
}

#[test]
fn interp_positional_out_of_range_errors() {
    let msg = err_msg(query_interp::<Sqlite>("SELECT {3}").bind(1i32));
    assert!(msg.contains("only"), "{msg}");
    assert_eq!(
        msg,
        "positional placeholder `{3}` referenced but only 1 positional argument(s) were bound"
    );
}

#[test]
fn interp_bindings_without_placeholders_errors() {
    let msg = err_msg(query_interp::<Sqlite>("SELECT 1").bind_named("x", 5i32));
    assert!(msg.contains("no `{...}` placeholders"), "{msg}");
    let positional = err_msg(query_interp::<Sqlite>("SELECT 1").bind(5i32));
    assert_eq!(msg, positional);
    assert_eq!(
        msg,
        "bindings provided but the SQL contains no `{...}` placeholders; use `sqlx::query()` for \
         SQL with native `?` / `$N` placeholders"
    );
}

#[test]
fn interp_spread_bound_to_single_placeholder_errors() {
    let msg = err_msg(query_interp::<Sqlite>("SELECT {ids}").bind_iter_named("ids", vec![1i32, 2]));
    assert!(msg.contains("spread"), "{msg}");
    assert_eq!(
        msg,
        "placeholder `{ids}` was bound as a spread iterable but the SQL marker is not `*` or `+`"
    );
}

#[test]
fn interp_single_bound_to_spread_placeholder_errors() {
    let msg = err_msg(
        query_interp::<Sqlite>("SELECT count(*) FROM (SELECT 1 AS x) WHERE x IN ({ids*})")
            .bind_named("ids", 1i32),
    );
    assert!(msg.contains("spread"), "{msg}");
    assert_eq!(
        msg,
        "placeholder `{ids*}` requires a spread bind (use `bind_iter` / `bind_iter_named`)"
    );
}

#[test]
fn interp_single_bound_to_plus_spread_uses_plus_marker() {
    // Spread/single mismatch errors include the SQL marker (`+` or `*`)
    // from the placeholder, not a hardcoded value.
    let msg = err_msg(
        query_interp::<Sqlite>("SELECT count(*) FROM (SELECT 1 AS x) WHERE x IN ({ids+})")
            .bind_named("ids", 1i32),
    );
    assert!(msg.contains("{ids+}"), "{msg}");
}

#[test]
fn interp_complex_expression_rejected() {
    // `{(expr)}` is macro-only: the runtime cannot evaluate Rust expressions.
    let msg = err_msg(query_interp::<Sqlite>("SELECT {(foo.bar)}"));
    assert!(msg.contains("complex-expression"), "{msg}");
}

#[test]
fn interp_repeated_named_placeholder_errors() {
    // The runtime consumes each binding on first reference.
    let msg = err_msg(query_interp::<Sqlite>("SELECT {x} + {x}").bind_named("x", 5i32));
    assert!(msg.contains("no matching"), "{msg}");
}

#[test]
fn repeated_positional_placeholder_errors() {
    let msg = err_msg(query_interp::<Sqlite>("SELECT {0} + {0}").bind(5i32));
    assert_eq!(msg, "positional placeholder `{0}` referenced more than once");
}

#[test]
fn parse_errors_are_handed_on() {
    let msg = err_msg(query_interp::<Sqlite>("SELECT {"));
    assert_eq!(
        msg,
        "error parsing placeholders at byte 7: unterminated `{` in SQL; expected `}` \
         (near `SELECT {`)"
    );
}

#[test]
fn positional_and_named_values_are_numbered_in_text_order() {
    let (sql, values) = built_pg(
        query_interp::<Postgres>("SELECT {b}, {1}, {a}, {0}")
            .bind(10i32)
            .bind_named("a", 20i32)
            .bind(30i64)
            .bind_named("b", 40i32),
    );
    assert_eq!(sql, "SELECT $1, $2, $3, $4");
    assert_eq!(values, [40, 30, 20, 10]);
}

#[test]
fn numbering_goes_on_behind_a_spread() {
    let (sql, values) = built_pg(
        query_interp::<Postgres>(
            "SELECT count(*)::int8 FROM (VALUES (10::int4), (20), (30), (40)) v(x) \
             WHERE x = ANY(ARRAY[{ids*}]::int4[]) AND x <= {max}::int4",
        )
        .bind_iter_named("ids", vec![10i32, 20, 30])
        .bind_named("max", 25i32),
    );
    assert_eq!(
        sql,
        "SELECT count(*)::int8 FROM (VALUES (10::int4), (20), (30), (40)) v(x) \
         WHERE x = ANY(ARRAY[$1, $2, $3]::int4[]) AND x <= $4::int4"
    );
    assert_eq!(values, [10, 20, 30, 25]);
}

#[test]
fn numbers_grow_beyond_one_digit() {
    let (sql, values) = built_pg(
        query_interp::<Postgres>("({0+}) {1}")
            .bind_iter((1..=11).collect::<Vec<i64>>())
            .bind(0i32),
    );
    assert_eq!(sql, "($1, $2, $3, $4, $5, $6, $7, $8, $9, $10, $11) $12");
    assert_eq!(values.len(), 12);
}

#[test]
fn anonymous_placeholders_carry_no_numbers() {
    let query = query_interp::<MySql>("{0} {ids*} {x}")
        .bind(true)
        .bind_iter_named("ids", vec![1i32, 2])
        .bind_named("x", Option::<i32>::None)
        .build()
        .unwrap();
    assert_eq!(query.sql(), "? ?, ? ?");
    let values = &query.arguments().values;
    assert!(matches!(values[0], Value::Bool(true)));
    assert!(matches!(values[1], Value::Int(1)));
    assert!(matches!(values[2], Value::Int(2)));
    assert!(matches!(values[3], Value::Null));
}

#[test]
fn empty_spreads() {
    let (sql, values) = built_pg(
        query_interp::<Postgres>("a IN ({0+}) b IN ({1*}) c = {2}")
            .bind_iter(Vec::<i32>::new())
            .bind_iter(Vec::<i32>::new())
            .bind(7i32),
    );
    assert_eq!(sql, "a IN (NULL) b IN () c = $1");
    assert_eq!(values, [7]);
}

#[test]
fn text_values_may_be_borrowed() {
    let name = String::from("alice");
    let query = query_interp::<Postgres>("SELECT {n}::text, {m}")
        .bind_named("n", name.as_str())
        .bind_named("m", String::from("bob"))
        .build()
        .unwrap();
    assert_eq!(query.sql(), "SELECT $1::text, $2");
    assert!(matches!(&query.arguments().values[0], Value::Text(Cow::Borrowed("alice"))));
    assert!(matches!(&query.arguments().values[1], Value::Text(Cow::Owned(s)) if s == "bob"));
}

#[test]
fn sql_without_placeholders_is_handed_on_as_it_is() {
    for sql in [
        "SELECT 1",
        "",
        "SELECT '{not_a_placeholder}'",
        "SELECT $tag${not_a_placeholder}$tag$::text",
    ] {
        let query = query_interp::<Postgres>(sql).build().unwrap();
        assert_eq!(query.sql(), sql);
        assert!(query.arguments().values.is_empty());
    }
}

#[test]
fn escapes_collapse_without_placeholders() {
    let query = query_interp::<Postgres>("SELECT '{{' || {{ a }}").build().unwrap();
    assert_eq!(query.sql(), "SELECT '{{' || { a }");
    assert!(query.arguments().values.is_empty());
    assert!(query_interp::<Postgres>("SELECT {{ a }}").bind(1i32).build().is_err());
}

#[test]
fn room_is_made_for_all_bindings() {
    let query = query_interp::<Postgres>("SELECT {0}")
        .bind(1i32)
        .bind_iter(vec![2i32; 20])
        .bind_named("a", 3i32)
        .build()
        .unwrap();
    assert_eq!(query.arguments().values.len(), 1);
    assert!(query.arguments().values.capacity() >= 22);
}

#[test]
fn unreferenced_names_are_ignored() {
    let (sql, values) = built_pg(
        query_interp::<Postgres>("SELECT {a}")
            .bind_named("unused", 7i32)
            .bind_named("a", 1i32),
    );
    assert_eq!(sql, "SELECT $1");
    assert_eq!(values, [1]);
}

#[test]
fn escapes_collapse_beside_placeholders() {
    let (sql, values) = built_pg(query_interp::<Postgres>("{{{0}}}").bind(1i32));
    assert_eq!(sql, "{$1}");
    assert_eq!(values, [1]);
}

#[test]
fn the_last_binding_of_a_name_counts() {
    let (sql, values) = built_pg(
        query_interp::<Postgres>("{a} {b}")
            .bind_named("a", 1i32)
            .bind_named("b", 2i32)
            .bind_named("a", 3i32),
    );
    assert_eq!(sql, "$1 $2");
    assert_eq!(values, [3, 2]);
}

#[test]
fn unreferenced_bindings_are_left_out() {
    let (sql, values) = built_pg(
        query_interp::<Postgres>("{1}")
            .bind(1i32)
            .bind(2i32)
            .bind_named("x", 3i32),
    );
    assert_eq!(sql, "$1");
    assert_eq!(values, [2]);
}

#[test]
fn all_ways_to_build_agree() {
    let q = || query_interp::<Postgres>("{0} {x+}").bind(1i32).bind_iter_named("x", vec![2i32]);
    let query = q().build().unwrap();
    let query_as = q().build_as::<String>().unwrap();
    let query_scalar = q().build_scalar::<i32>().unwrap();
    assert_eq!(query.sql(), "$1 $2");
    assert_eq!(query_as.query.sql(), query.sql());
    assert_eq!(query_scalar.query.sql(), query.sql());
    assert_eq!(ints(&query_as.query.arguments().values), [1, 2]);
    assert_eq!(ints(&query_scalar.query.arguments().values), [1, 2]);
    let bad = || query_interp::<Postgres>("{0}");
    let message = bad().build().err().unwrap().message().to_string();
    assert_eq!(bad().build_as::<String>().err().unwrap().message(), message);
    assert_eq!(bad().build_scalar::<i32>().err().unwrap().message(), message);
}
