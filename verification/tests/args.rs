use sqlx_interp::args::{
    bind_locals, describe_param_types, empty_filler, get_param_type, param_type_text, plan_query,
    quote_args_and_sql, ParamInfo, Params, PieceStep, Setup, SqlExpr, TypeCheck, TypeCheckError,
    Warnings,
};
use sqlx_interp::database::{ParamIndexing, Postgres, Value};
use sqlx_interp::expr::{parse_expr, Expr};
use sqlx_interp::input::{ArgsList, QueryMacroInput, RecordType};
use sqlx_interp::placeholders::{parse_query, Kleene};
use sqlx_interp::query_interp::query_interp;
use sqlx_interp::rewrite::{rewrite, Binding, Origin, RewriteOutput};

const NONE: Warnings = Warnings { ambiguous_datetime: false, ambiguous_numeric: false };

fn param(mapping: Result<&str, TypeCheckError>) -> ParamInfo {
    ParamInfo {
        sql_type: "INT4".to_string(),
        type_override: None,
        mapping: mapping.map(|ty| ty.to_string()),
        feature_gate: None,
    }
}

fn message(param: &ParamInfo, i: usize) -> String {
    param_type_text(param, &mut NONE.clone(), i).unwrap_err()
}

fn input(sql: &str, file_path: Option<&str>, checked: bool) -> QueryMacroInput {
    QueryMacroInput {
        sql: sql.to_string(),
        src_at: 0,
        sql_token: None,
        record_type: RecordType::Generated,
        args: ArgsList::new(),
        checked,
        file_path: file_path.map(|p| p.to_string()),
    }
}

fn rewritten(sql: &str, exprs: &[&str]) -> RewriteOutput {
    let parsed = parse_query(sql).unwrap();
    let exprs: Vec<Expr> = exprs.iter().map(|e| parse_expr(e).unwrap()).collect();
    rewrite(&parsed, &exprs, &[], None, '$', ParamIndexing::OneIndexed).unwrap()
}

#[test]
fn types_come_from_overrides_and_mappings() {
    let mut warnings = NONE;
    let mut p = param(Ok("i32"));
    assert_eq!(get_param_type(&p, &mut warnings, 0).unwrap(), "i32");
    p.type_override = Some("my::Type<u8>".to_string());
    assert_eq!(get_param_type(&p, &mut warnings, 0).unwrap(), "my::Type<u8>");
    p.mapping = Err(TypeCheckError::AmbiguousNumericType { fallback: "x".to_string() });
    assert!(get_param_type(&p, &mut warnings, 0).is_ok());
    assert_eq!(warnings, NONE);
}

#[test]
fn types_must_lex() {
    let mut warnings = NONE;
    let p = param(Ok("Vec<\"u8>"));
    assert_eq!(param_type_text(&p, &mut warnings, 0).unwrap(), "Vec<\"u8>");
    let e = get_param_type(&p, &mut warnings, 0).unwrap_err();
    assert_eq!(e, "cannot parse string into token stream");
}

#[test]
fn missing_mappings_are_reported() {
    let mut p = param(Err(TypeCheckError::NoMappingFound));
    assert_eq!(
        message(&p, 0),
        "no built-in mapping for type INT4 of param #1; a type override may be required, see \
         documentation for details"
    );
    p.feature_gate = Some("uuid".to_string());
    assert_eq!(
        message(&p, 9),
        "optional sqlx feature `uuid` required for type INT4 of param #10"
    );
    let p = param(Err(TypeCheckError::DateTimeCrateFeatureNotEnabled {
        crate_name: "chrono".to_string(),
    }));
    assert_eq!(
        message(&p, 1),
        "SQLx feature `chrono` required for type INT4 of param #2 (configured by \
         `macros.preferred-crates.date-time` in sqlx.toml)"
    );
    let p = param(Err(TypeCheckError::NumericCrateFeatureNotEnabled {
        crate_name: "bigdecimal".to_string(),
    }));
    assert_eq!(
        message(&p, 1),
        "SQLx feature `bigdecimal` required for type INT4 of param #2 (configured by \
         `macros.preferred-crates.numeric` in sqlx.toml)"
    );
}

#[test]
fn fallbacks_come_with_a_warning() {
    let mut warnings = NONE;
    let p = param(Err(TypeCheckError::AmbiguousDateTimeType { fallback: "A".to_string() }));
    assert_eq!(get_param_type(&p, &mut warnings, 0).unwrap(), "A");
    assert_eq!(warnings, Warnings { ambiguous_datetime: true, ambiguous_numeric: false });
    let p = param(Err(TypeCheckError::AmbiguousNumericType { fallback: "B".to_string() }));
    assert_eq!(get_param_type(&p, &mut warnings, 0).unwrap(), "B");
    assert_eq!(warnings, Warnings { ambiguous_datetime: true, ambiguous_numeric: true });
}

#[test]
fn types_are_described_where_they_are_known_and_wanted() {
    let mut warnings = NONE;
    assert!(describe_param_types(&Params::Unknown, true, &mut warnings).unwrap().is_none());
    assert!(describe_param_types(&Params::Count(2), true, &mut warnings).unwrap().is_none());
    let types = || {
        Params::Types(vec![
            param(Ok("i32")),
            param(Err(TypeCheckError::AmbiguousNumericType { fallback: "N".to_string() })),
        ])
    };
    assert!(describe_param_types(&types(), false, &mut warnings).unwrap().is_none());
    assert_eq!(warnings, NONE);
    let described = describe_param_types(&types(), true, &mut warnings).unwrap().unwrap();
    assert_eq!(described, ["i32", "N"]);
    assert!(warnings.ambiguous_numeric);
    // The first error ends it: what is behind it warns of nothing.
    let mut warnings = NONE;
    let bad = Params::Types(vec![
        param(Ok("i32")),
        param(Err(TypeCheckError::NoMappingFound)),
        param(Err(TypeCheckError::AmbiguousDateTimeType { fallback: "D".to_string() })),
    ]);
    let e = describe_param_types(&bad, true, &mut warnings).unwrap_err();
    assert!(e.contains("param #2"), "{e}");
    assert_eq!(warnings, NONE);
}

#[test]
fn locals_are_named_checked_and_stripped() {
    let single = |e: &str| Binding::Single(parse_expr(e).unwrap());
    let bindings = vec![
        single("a"),
        single("b as _"),
        single("c as i64"),
        Binding::Spread(parse_expr("d as _").unwrap()),
        single("e"),
    ];
    let types = Some(vec!["T0", "T1", "T2", "T3"].into_iter().map(String::from).collect());
    let locals = bind_locals(&bindings, &types);
    let names: Vec<&str> = locals.iter().map(|l| l.name.as_str()).collect();
    assert_eq!(names, ["__sqlx_arg0", "__sqlx_arg1", "__sqlx_arg2", "__sqlx_arg3", "__sqlx_arg4"]);
    assert!(matches!(&locals[0].check, TypeCheck::Single(ty) if ty == "T0"));
    // A cast enforces the type of a single value by itself.
    assert!(matches!(&locals[1].check, TypeCheck::Unchecked));
    assert!(matches!(&locals[1].expr, Expr::Operand(s) if s == "b as _"));
    assert!(matches!(&locals[2].check, TypeCheck::Unchecked));
    assert!(matches!(&locals[2].expr, Expr::Cast(_, _)));
    assert!(matches!(&locals[3].check, TypeCheck::Spread(ty) if ty == "T3"));
    assert!(matches!(&locals[3].expr, Expr::Operand(s) if s == "d as _"));
    // There may be fewer types than bindings.
    assert!(matches!(&locals[4].check, TypeCheck::Unchecked));
    let locals = bind_locals(&bindings, &None);
    assert!(locals.iter().all(|l| matches!(l.check, TypeCheck::Unchecked)));
}

#[test]
fn no_bindings_take_the_file_if_it_is_unchanged() {
    let plan = |sql: &str, path: Option<&str>| {
        let parsed = parse_query(sql).unwrap();
        let out = rewrite(&parsed, &[], &[], None, '?', ParamIndexing::Implicit).unwrap();
        plan_query(&input(sql, path, true), &out, None)
    };
    let p = plan("SELECT 1", Some("/q.sql"));
    assert!(matches!(p.setup, Setup::NoArgs));
    assert!(matches!(p.sql, SqlExpr::IncludeFile(s) if s == "/q.sql"));
    assert!(matches!(plan("SELECT 1", None).sql, SqlExpr::Literal(s) if s == "SELECT 1"));
    assert!(matches!(plan("{{", Some("/q.sql")).sql, SqlExpr::Literal(s) if s == "{"));
}

#[test]
fn without_spreads_the_text_is_static() {
    let out = rewritten("SELECT {0}, {1}", &["a", "b"]);
    let plan = plan_query(&input("SELECT {0}, {1}", Some("/q.sql"), true), &out, None);
    match plan.setup {
        Setup::Static(locals) => assert_eq!(locals.len(), 2),
        other => panic!("expected a static setup, got {other:?}"),
    }
    assert!(matches!(plan.sql, SqlExpr::Literal(s) if s == "SELECT $1, $2"));
}

#[test]
fn with_spreads_the_text_is_pieced_together() {
    let out = rewritten("é {0} IN ({1+}, {2*})", &["a", "b", "c"]);
    let plan = plan_query(&input("", None, true), &out, None);
    assert!(matches!(plan.sql, SqlExpr::Built));
    match plan.setup {
        Setup::Pieces { locals, capacity, steps } => {
            assert_eq!(locals.len(), 3);
            // Bytes of the literals, and room for placeholders.
            assert_eq!(capacity, 3 + 5 + 2 + 1 + 16);
            assert_eq!(steps.len(), 7);
            assert!(matches!(&steps[0], PieceStep::Text(s) if s == "é "));
            assert!(matches!(&steps[1], PieceStep::One(n) if n == "__sqlx_arg0"));
            assert!(matches!(&steps[2], PieceStep::Text(s) if s == " IN ("));
            assert!(matches!(&steps[3], PieceStep::Many(n, Kleene::Plus) if n == "__sqlx_arg1"));
            assert!(matches!(&steps[4], PieceStep::Text(s) if s == ", "));
            assert!(matches!(&steps[5], PieceStep::Many(n, Kleene::Star) if n == "__sqlx_arg2"));
            assert!(matches!(&steps[6], PieceStep::Text(s) if s == ")"));
        }
        other => panic!("expected pieces, got {other:?}"),
    }
    assert_eq!(empty_filler(Kleene::Plus), "NULL");
    assert_eq!(empty_filler(Kleene::Star), "");
}

#[test]
fn types_come_before_everything_else() {
    let mut warnings = NONE;
    let out = rewritten("SELECT 1", &[]);
    let bad = || Params::Types(vec![param(Err(TypeCheckError::NoMappingFound))]);
    assert!(quote_args_and_sql(&input("SELECT 1", None, true), &out, &mut warnings, &bad()).is_err());
    assert!(quote_args_and_sql(&input("SELECT 1", None, false), &out, &mut warnings, &bad()).is_ok());
    let out = rewritten("SELECT {0}", &["a"]);
    let good = Params::Types(vec![param(Ok("i32"))]);
    let plan = quote_args_and_sql(&input("", None, true), &out, &mut warnings, &good).unwrap();
    match plan.setup {
        Setup::Static(locals) => {
            assert!(matches!(&locals[0].check, TypeCheck::Single(ty) if ty == "i32"))
        }
        other => panic!("expected a static setup, got {other:?}"),
    }
}

/// Takes the steps of a plan for values that are lists of numbers.
fn run(steps: &[PieceStep], values: &[Vec<i64>]) -> (String, Vec<i64>) {
    let mut sql = String::new();
    let mut args: Vec<i64> = Vec::new();
    let value = |name: &str| {
        let i: usize = name.strip_prefix("__sqlx_arg").unwrap().parse().unwrap();
        values[i].clone()
    };
    for step in steps {
        match step {
            PieceStep::Text(text) => sql.push_str(text),
            PieceStep::One(name) => {
                args.push(value(name)[0]);
                sql.push_str(&format!("${}", args.len()));
            }
            PieceStep::Many(name, kleene) => {
                let items = value(name);
                for (i, item) in items.iter().enumerate() {
                    if i > 0 {
                        sql.push_str(", ");
                    }
                    args.push(*item);
                    sql.push_str(&format!("${}", args.len()));
                }
                if items.is_empty() {
                    sql.push_str(empty_filler(*kleene));
                }
            }
        }
    }
    (sql, args)
}

#[test]
fn macro_and_builder_agree() {
    for (sql, values) in [
        ("a {0} b {1} c", vec![vec![1], vec![2]]),
        ("{1}{{{0}}}", vec![vec![1], vec![2]]),
        ("{0*} {1} {2+}", vec![vec![1, 2, 3], vec![4], vec![]]),
        ("{2+} {1} {0*} x", vec![vec![], vec![4], vec![5, 6]]),
    ] {
        let spread = |i: usize| sql.contains(&format!("{{{i}*}}")) || sql.contains(&format!("{{{i}+}}"));
        let mut query = query_interp::<Postgres>(sql);
        for (i, items) in values.iter().enumerate() {
            query = if spread(i) { query.bind_iter(items.clone()) } else { query.bind(items[0]) };
        }
        let built = query.build().unwrap();
        let built_values: Vec<i64> = built
            .arguments()
            .values
            .iter()
            .map(|v| match v {
                Value::Int(n) => *n,
                other => panic!("expected an integer, got {other:?}"),
            })
            .collect();
        let names: Vec<String> = (0..values.len()).map(|i| format!("v{i}")).collect();
        let names: Vec<&str> = names.iter().map(|n| n.as_str()).collect();
        let out = rewritten(sql, &names);
        let plan = plan_query(&input(sql, None, true), &out, None);
        // Values in the order of the bindings.
        let bound: Vec<Vec<i64>> = out
            .origins
            .iter()
            .map(|origin| match origin {
                Origin::Positional(i) => values[*i].clone(),
                other => panic!("expected a positional argument, got {other:?}"),
            })
            .collect();
        match (plan.setup, plan.sql) {
            (Setup::Static(_), SqlExpr::Literal(text)) => {
                assert_eq!(text, built.sql());
                assert_eq!(bound.concat(), built_values);
            }
            (Setup::Pieces { steps, .. }, SqlExpr::Built) => {
                assert_eq!(run(&steps, &bound), (built.sql().to_string(), built_values));
            }
            other => panic!("unexpected plan {other:?}"),
        }
    }
}
