//! What it means that a macro binds the arguments of a query and checks their
//! types, told argument by argument.
use crate::args;
use crate::args::{
    LocalView, ParamInfo, Params, PieceStepView, QueryPlanView, SetupView, SqlExprView,
    TypeCheckError, TypeCheckView, Warnings,
};
use crate::expr;
use crate::expr::{CastType, ExprView};
use crate::input::QueryMacroInputView;
use crate::placeholders::Kleene;
use crate::rewrite::{BindingRef, BindingRefKind, BindingView, RewriteView, TemplateView};
use crate::text;
use vstd::prelude::*;
use vstd::utf8::*;

verus! {

// -- Types of parameters --------------------------------------------------

/// Is `ty` the Rust type of the parameter: that of the configuration, or else the
/// one that its type maps to, or else the one to fall back on?
pub open spec fn is_named_for(param: ParamInfo, ty: Seq<char>) -> bool {
    match param.type_override {
        Some(set) => ty == set@,
        None => match param.mapping {
            Ok(mapped) => ty == mapped@,
            Err(TypeCheckError::AmbiguousDateTimeType { fallback }) => ty == fallback@,
            Err(TypeCheckError::AmbiguousNumericType { fallback }) => ty == fallback@,
            Err(_) => false,
        },
    }
}

/// Is `ty` the Rust type of the parameter, and made of tokens?
pub open spec fn is_type_of(param: ParamInfo, ty: Seq<char>) -> bool {
    is_named_for(param, ty) && args::lex_error(ty) is None
}

/// Does the message say why the `i`-th parameter has no Rust type?
pub open spec fn is_without_type(param: ParamInfo, i: int, message: Seq<char>) -> bool {
    let number = text::decimal((i + 1) as nat);
    let asked = " required for type "@ + param.sql_type@ + " of param #"@ + number;
    ||| exists|ty: Seq<char>| #[trigger]
        is_named_for(param, ty) && args::lex_error(ty) == Some(message)
    ||| param.type_override is None && match param.mapping {
        Err(TypeCheckError::NoMappingFound) => match param.feature_gate {
            Some(feature) => message == "optional sqlx feature `"@ + feature@ + "`"@ + asked,
            None => message == "no built-in mapping for type "@ + param.sql_type@ + " of param #"@
                + number + "; a type override may be required, see documentation for details"@,
        },
        Err(TypeCheckError::DateTimeCrateFeatureNotEnabled { crate_name }) => message
            == "SQLx feature `"@ + crate_name@ + "`"@ + asked
            + " (configured by `macros.preferred-crates.date-time` in sqlx.toml)"@,
        Err(TypeCheckError::NumericCrateFeatureNotEnabled { crate_name }) => message
            == "SQLx feature `"@ + crate_name@ + "`"@ + asked
            + " (configured by `macros.preferred-crates.numeric` in sqlx.toml)"@,
        _ => false,
    }
}

/// The type that is named for a parameter is found, before it is looked at
/// whether it is made of tokens, and the user is warned if it was ambiguous.
pub proof fn law_type_text(param: ParamInfo, i: int, warnings: Warnings)
    ensures
        args::type_text(param, i) matches Ok(ty) ==> is_named_for(param, ty),
        args::type_text(param, i) is Err ==> forall|ty: Seq<char>| !#[trigger] is_named_for(
            param,
            ty,
        ),
        args::type_text(param, i) matches Err(message) ==> is_without_type(param, i, message),
        args::warned(warnings, param).ambiguous_datetime <==> warnings.ambiguous_datetime
            || is_ambiguous_datetime(param),
        args::warned(warnings, param).ambiguous_numeric <==> warnings.ambiguous_numeric
            || is_ambiguous_numeric(param),
{
}

/// A parameter has the Rust type that the configuration sets, or else the one
/// that its type maps to; there is an error, which names the parameter, if there
/// is neither.
pub proof fn law_param_type(param: ParamInfo, i: int)
    ensures
        match args::param_type(param, i) {
            Ok(ty) => is_type_of(param, ty),
            Err(message) => is_without_type(param, i, message),
        },
{
    if let Ok(ty) = args::type_text(param, i) {
        assert(is_named_for(param, ty));
    }
}

/// Has the parameter a Rust type?
pub open spec fn has_type(param: ParamInfo) -> bool {
    exists|ty: Seq<char>| #[trigger] is_type_of(param, ty)
}

/// Are the types those of the parameters, one for each?
pub open spec fn are_types_of(params: Seq<ParamInfo>, types: Seq<Seq<char>>) -> bool {
    &&& types.len() == params.len()
    &&& forall|i: int| 0 <= i < params.len() ==> is_type_of(params[i], #[trigger] types[i])
}

/// Is the `i`-th parameter the first without a type, and does the message say
/// why?
pub open spec fn is_first_without(params: Seq<ParamInfo>, i: int, message: Seq<char>) -> bool {
    &&& 0 <= i < params.len()
    &&& is_without_type(params[i], i, message)
    &&& forall|j: int| 0 <= j < i ==> has_type(#[trigger] params[j])
}

pub open spec fn is_refused(params: Seq<ParamInfo>, message: Seq<char>) -> bool {
    exists|i: int| #[trigger] is_first_without(params, i, message)
}

/// Is it a parameter with more than one Rust type to take, and none set?
pub open spec fn is_ambiguous_datetime(param: ParamInfo) -> bool {
    param.type_override is None && (param.mapping matches Err(
        TypeCheckError::AmbiguousDateTimeType { .. },
    ))
}

pub open spec fn is_ambiguous_numeric(param: ParamInfo) -> bool {
    param.type_override is None && (param.mapping matches Err(
        TypeCheckError::AmbiguousNumericType { .. },
    ))
}

/// Were the warnings given that the first `n` parameters ask for, and no others?
pub open spec fn are_warned(
    before: Warnings,
    after: Warnings,
    params: Seq<ParamInfo>,
    n: int,
) -> bool {
    &&& after.ambiguous_datetime <==> before.ambiguous_datetime || exists|i: int|
        0 <= i < n && is_ambiguous_datetime(#[trigger] params[i])
    &&& after.ambiguous_numeric <==> before.ambiguous_numeric || exists|i: int|
        0 <= i < n && is_ambiguous_numeric(#[trigger] params[i])
}

proof fn lemma_types(params: Seq<ParamInfo>, n: nat)
    requires
        n <= params.len(),
    ensures
        match args::types_of(params, n) {
            Ok(types) => are_types_of(params.take(n as int), types),
            Err(message) => is_refused(params, message),
        },
    decreases n,
{
    if n > 0 {
        let m = (n - 1) as nat;
        lemma_types(params, m);
        law_param_type(params[n - 1], n - 1);
        if let Ok(types) = args::types_of(params, m) {
            match args::param_type(params[n - 1], n - 1) {
                Ok(ty) => {
                    let all = types.push(ty);
                    assert forall|i: int| 0 <= i < n implies is_type_of(
                        params.take(n as int)[i],
                        #[trigger] all[i],
                    ) by {
                        if i < m {
                            assert(all[i] == types[i]);
                            assert(params.take(m as int)[i] == params[i]);
                        }
                    }
                },
                Err(message) => {
                    assert forall|j: int| 0 <= j < n - 1 implies has_type(#[trigger] params[j]) by {
                        assert(params.take(m as int)[j] == params[j]);
                        assert(is_type_of(params[j], types[j]));
                    }
                    assert(is_first_without(params, n - 1, message));
                },
            }
        }
    }
}

proof fn lemma_warned(warnings: Warnings, params: Seq<ParamInfo>, n: nat)
    requires
        n <= params.len(),
        n > 0 ==> args::types_of(params, (n - 1) as nat) is Ok,
    ensures
        are_warned(warnings, args::warned_by(warnings, params, n), params, n as int),
    decreases n,
{
    if n > 0 {
        let m = (n - 1) as nat;
        lemma_warned(warnings, params, m);
        let before = args::warned_by(warnings, params, m);
        let after = args::warned_by(warnings, params, n);
        if after.ambiguous_datetime && !before.ambiguous_datetime {
            assert(is_ambiguous_datetime(params[n - 1]));
        }
        if after.ambiguous_numeric && !before.ambiguous_numeric {
            assert(is_ambiguous_numeric(params[n - 1]));
        }
        if exists|i: int| 0 <= i < n && is_ambiguous_datetime(#[trigger] params[i]) {
            let i = choose|i: int| 0 <= i < n && is_ambiguous_datetime(#[trigger] params[i]);
            assert(i < m || after.ambiguous_datetime);
        }
        if exists|i: int| 0 <= i < n && is_ambiguous_numeric(#[trigger] params[i]) {
            let i = choose|i: int| 0 <= i < n && is_ambiguous_numeric(#[trigger] params[i]);
            assert(i < m || after.ambiguous_numeric);
        }
    }
}

/// Do the types belong to the parameters? There are none where the database
/// reports none, or none are wanted.
pub open spec fn has_types(params: Params, checked: bool, types: Option<Seq<Seq<char>>>) -> bool {
    match params {
        Params::Types(list) if checked => types is Some && are_types_of(list@, types->0),
        _ => types is None,
    }
}

/// The parameters have the types that the database reports, or the first without
/// one is the error.
pub proof fn law_types(params: Params, checked: bool)
    ensures
        match args::types_meaning(params, checked) {
            Ok(types) => has_types(params, checked, types),
            Err(message) => checked && params is Types && is_refused(params->Types_0@, message),
        },
{
    if let Params::Types(list) = params {
        if checked {
            lemma_types(list@, list@.len());
            assert(list@.take(list@.len() as int) =~= list@);
        }
    }
}

/// The user is warned of each parameter whose type is ambiguous, and of nothing
/// else.
pub proof fn law_warnings(warnings: Warnings, params: Params, checked: bool)
    requires
        args::types_meaning(params, checked) is Ok,
    ensures
        match params {
            Params::Types(list) if checked => are_warned(
                warnings,
                args::warned_meaning(warnings, params, checked),
                list@,
                list@.len() as int,
            ),
            _ => args::warned_meaning(warnings, params, checked) == warnings,
        },
{
    if let Params::Types(list) = params {
        if checked {
            let n = list@.len();
            if n > 0 {
                assert(args::types_of(list@, n) is Ok);
                assert(args::types_of(list@, (n - 1) as nat) is Ok);
            }
            lemma_warned(warnings, list@, n);
        }
    }
}

proof fn lemma_warned_to(warnings: Warnings, params: Seq<ParamInfo>, n: nat) -> (i: int)
    requires
        n <= params.len(),
        args::types_of(params, n) is Err,
    ensures
        0 <= i < n,
        is_first_without(params, i, args::types_of(params, n)->Err_0),
        are_warned(warnings, args::warned_by(warnings, params, n), params, i + 1),
    decreases n,
{
    let m = (n - 1) as nat;
    match args::types_of(params, m) {
        Err(_) => lemma_warned_to(warnings, params, m),
        Ok(types) => {
            lemma_warned(warnings, params, n);
            law_param_type(params[n - 1], n - 1);
            lemma_types(params, m);
            assert forall|j: int| 0 <= j < n - 1 implies has_type(#[trigger] params[j]) by {
                assert(params.take(m as int)[j] == params[j]);
                assert(is_type_of(params[j], types[j]));
            }
            n - 1
        },
    }
}

/// Where a parameter has no type, the user is warned of those up to it, and of
/// none behind it.
pub proof fn law_warnings_up_to_an_error(warnings: Warnings, params: Seq<ParamInfo>)
    requires
        args::types_of(params, params.len()) is Err,
    ensures
        exists|i: int| #[trigger]
            is_first_without(params, i, args::types_of(params, params.len())->Err_0) && are_warned(
                warnings,
                args::warned_by(warnings, params, params.len()),
                params,
                i + 1,
            ),
{
    let i = lemma_warned_to(warnings, params, params.len());
    assert(is_first_without(params, i, args::types_of(params, params.len())->Err_0));
}

// -- Locals ---------------------------------------------------------------

/// The type of a cast is the one that is cast to, in a group too, and a cast to
/// `_` is all that is taken off.
pub proof fn law_casts(e: ExprView)
    ensures
        is_uncast(e, expr::without_wildcard(e)),
        match e {
            ExprView::Cast(_, ty) => expr::type_override(e) == Some(ty),
            ExprView::Group(inner) => expr::type_override(e) == expr::type_override(*inner),
            _ => expr::type_override(e) is None,
        },
{
    lemma_cast(e);
}

/// Is the expression a cast, perhaps in a group?
pub open spec fn is_cast(e: ExprView) -> bool
    decreases e,
{
    match e {
        ExprView::Cast(_, _) => true,
        ExprView::Group(inner) => is_cast(*inner),
        _ => false,
    }
}

/// Is `r` the expression, but for a cast to `_`, of which only the operand is
/// left?
pub open spec fn is_uncast(e: ExprView, r: ExprView) -> bool
    decreases e,
{
    match e {
        ExprView::Cast(s, CastType::Infer) => r == ExprView::Operand(s),
        ExprView::Group(inner) => r is Group && is_uncast(*inner, *(r->Group_0)),
        _ => r == e,
    }
}

proof fn lemma_cast(e: ExprView)
    ensures
        expr::type_override(e) is Some <==> is_cast(e),
        is_uncast(e, expr::without_wildcard(e)),
    decreases e,
{
    if let ExprView::Group(inner) = e {
        lemma_cast(*inner);
    }
}

/// Is a local as it should be, for the `i`-th binding? Where a type is reported
/// for the `i`-th parameter, the value is checked against just that type, unless
/// it is cast, and the items of a spread are; else nothing is checked.
pub open spec fn is_local_for(
    binding: BindingView,
    i: int,
    types: Option<Seq<Seq<char>>>,
    local: LocalView,
) -> bool {
    let e = match binding {
        BindingView::Single(e) => e,
        BindingView::Spread(e) => e,
    };
    &&& local.name == "__sqlx_arg"@ + text::decimal(i as nat)
    &&& is_uncast(e, local.expr)
    &&& if types is Some && i < types->0.len() {
        match binding {
            BindingView::Single(_) => if is_cast(e) {
                local.check is Unchecked
            } else {
                local.check == TypeCheckView::Single(types->0[i])
            },
            BindingView::Spread(_) => local.check == TypeCheckView::Spread(types->0[i]),
        }
    } else {
        local.check is Unchecked
    }
}

pub open spec fn are_locals_for(
    bindings: Seq<BindingView>,
    types: Option<Seq<Seq<char>>>,
    locals: Seq<LocalView>,
) -> bool {
    &&& locals.len() == bindings.len()
    &&& forall|i: int|
        0 <= i < bindings.len() ==> is_local_for(bindings[i], i, types, #[trigger] locals[i])
}

/// The local of the `i`-th binding holds its expression and is checked against
/// the type that is reported for the `i`-th parameter, for every `i`.
pub proof fn law_locals(bindings: Seq<BindingView>, types: Option<Seq<Seq<char>>>)
    ensures
        are_locals_for(bindings, types, args::locals_of(bindings, types)),
{
    let locals = args::locals_of(bindings, types);
    assert forall|i: int| 0 <= i < bindings.len() implies is_local_for(
        bindings[i],
        i,
        types,
        #[trigger] locals[i],
    ) by {
        lemma_cast(
            match bindings[i] {
                BindingView::Single(e) => e,
                BindingView::Spread(e) => e,
            },
        );
    }
}

// -- Steps ----------------------------------------------------------------

/// All texts, one after the other.
pub open spec fn all_text(texts: Seq<Seq<char>>) -> Seq<char>
    decreases texts.len(),
{
    if texts.len() == 0 {
        seq![]
    } else {
        all_text(texts.drop_last()) + texts.last()
    }
}

/// Do the steps write the literals, and between each two the binding that the
/// reference there is to?
pub open spec fn are_steps_of(
    literals: Seq<Seq<char>>,
    refs: Seq<BindingRef>,
    locals: Seq<LocalView>,
    steps: Seq<PieceStepView>,
) -> bool {
    &&& steps.len() == literals.len() + refs.len()
    &&& forall|i: int|
        0 <= i < literals.len() ==> steps[2 * i] == PieceStepView::Text(#[trigger] literals[i])
    &&& forall|i: int|
        0 <= i < refs.len() ==> {
            let name = locals[(#[trigger] refs[i]).binding_index as int].name;
            steps[2 * i + 1] == match refs[i].kind {
                BindingRefKind::Single => PieceStepView::One(name),
                BindingRefKind::Spread(kleene) => PieceStepView::Many(name, kleene),
            }
        }
}

/// Where the step for the `i`-th literal stands, behind one for each literal and
/// each reference before it.
pub open spec fn step_at(refs: Seq<BindingRef>, i: int) -> int {
    if i <= refs.len() {
        2 * i
    } else {
        i + refs.len()
    }
}

/// The steps write each literal, and behind it the binding that the reference
/// with its index is to, if there is one.
pub proof fn law_steps(
    literals: Seq<Seq<char>>,
    refs: Seq<BindingRef>,
    names: Seq<Seq<char>>,
    n: nat,
)
    requires
        n <= literals.len(),
    ensures
        ({
            let steps = args::steps_of(literals, refs, names, n);
            &&& steps.len() == step_at(refs, n as int)
            &&& forall|i: int|
                0 <= i < n ==> steps[step_at(refs, i)] == PieceStepView::Text(
                    #[trigger] literals[i],
                )
            &&& forall|i: int|
                0 <= i < n && i < refs.len() ==> steps[2 * i + 1] == match (
                #[trigger] refs[i]).kind {
                    BindingRefKind::Single => PieceStepView::One(
                        names[refs[i].binding_index as int],
                    ),
                    BindingRefKind::Spread(kleene) => PieceStepView::Many(
                        names[refs[i].binding_index as int],
                        kleene,
                    ),
                }
        }),
    decreases n,
{
    if n > 0 {
        law_steps(literals, refs, names, (n - 1) as nat);
    }
}

/// The text that is built is given room for the bytes of its literals and a few
/// more.
pub proof fn law_capacity(literals: Seq<Seq<char>>)
    ensures
        args::capacity_of(literals) == text::capped(encode_utf8(all_text(literals)).len() + 16),
{
    lemma_bytes(literals, literals.len());
    assert(literals.take(literals.len() as int) =~= literals);
}

/// The text of a query without bindings is taken from its file only if that holds
/// just the text.
pub proof fn law_static_sql(input: QueryMacroInputView, sql: Seq<char>)
    ensures
        is_source_of(input, sql, args::static_sql(input, sql)),
{
}

proof fn lemma_bytes(texts: Seq<Seq<char>>, n: nat)
    requires
        n <= texts.len(),
    ensures
        args::bytes_of(texts, n) == encode_utf8(all_text(texts.take(n as int))).len(),
    decreases n,
{
    if n > 0 {
        lemma_bytes(texts, (n - 1) as nat);
        let some = texts.take(n as int);
        assert(some.drop_last() =~= texts.take(n - 1));
        text::lemma_encode_concat(all_text(some.drop_last()), some.last());
    } else {
        assert(texts.take(0) =~= seq![]);
        assert(encode_utf8(Seq::<char>::empty()) =~= seq![]);
    }
}

// -- The whole expansion --------------------------------------------------

/// The SQL text of a query without bindings: its file only if that holds just
/// the text.
pub open spec fn is_source_of(
    input: QueryMacroInputView,
    sql: Seq<char>,
    source: SqlExprView,
) -> bool {
    match source {
        SqlExprView::IncludeFile(path) => input.file_path == Some(path) && sql == input.sql,
        SqlExprView::Literal(s) => s == sql && (input.file_path is None || sql != input.sql),
        SqlExprView::Built => false,
    }
}

/// Is the query expanded as it should be, where the parameters have the given
/// types?
pub open spec fn is_expanded(
    input: QueryMacroInputView,
    out: RewriteView,
    types: Option<Seq<Seq<char>>>,
    plan: QueryPlanView,
) -> bool {
    if out.bindings.len() == 0 {
        plan.setup is NoArgs && is_source_of(input, out.runtime_template->Static_0, plan.sql)
    } else {
        match (out.runtime_template, plan.setup) {
            (TemplateView::Static(sql), SetupView::Static(locals)) => plan.sql
                == SqlExprView::Literal(sql) && are_locals_for(out.bindings, types, locals),
            (
                TemplateView::Pieces { literals, bindings },
                SetupView::Pieces { locals, capacity, steps },
            ) => {
                &&& plan.sql is Built
                &&& are_locals_for(out.bindings, types, locals)
                &&& are_steps_of(literals, bindings, locals, steps)
                &&& capacity == text::capped(encode_utf8(all_text(literals)).len() + 16)
            },
            _ => false,
        }
    }
}

/// Is the query expanded, with the types that the parameters have?
pub open spec fn is_expanded_for(
    input: QueryMacroInputView,
    out: RewriteView,
    params: Params,
    plan: QueryPlanView,
) -> bool {
    exists|types: Option<Seq<Seq<char>>>| #[trigger]
        has_types(params, input.checked, types) && is_expanded(input, out, types, plan)
}

/// A query is expanded to locals for its bindings, each with its own type check,
/// and to what writes its text and binds them in their order; or it is rejected
/// for the first parameter without a type.
pub proof fn law_expansion(input: QueryMacroInputView, out: RewriteView, params: Params)
    requires
        out.bindings.len() == 0 ==> out.runtime_template is Static,
        out.runtime_template matches TemplateView::Pieces { literals, bindings } ==> literals.len()
            == bindings.len() + 1 && forall|i: int|
            0 <= i < bindings.len() ==> (#[trigger] bindings[i]).binding_index < out.bindings.len(),
    ensures
        match args::expansion_meaning(input, out, params) {
            Ok(plan) => is_expanded_for(input, out, params, plan),
            Err(message) => input.checked && params is Types && is_refused(
                params->Types_0@,
                message,
            ),
        },
{
    law_types(params, input.checked);
    if let Ok(types) = args::types_meaning(params, input.checked) {
        let plan = args::plan_of(input, out, types);
        let locals = args::locals_of(out.bindings, types);
        law_locals(out.bindings, types);
        if let TemplateView::Pieces { literals, bindings } = out.runtime_template {
            let names = args::local_names(locals);
            law_steps(literals, bindings, names, literals.len());
            law_capacity(literals);
            assert forall|i: int| 0 <= i < bindings.len() implies names[(
            #[trigger] bindings[i]).binding_index as int]
                == locals[bindings[i].binding_index as int].name by {}
        }
        assert(has_types(params, input.checked, types));
        assert(is_expanded(input, out, types, plan));
    }
}

/// An empty `+` spread is filled with `NULL`, and an empty `*` spread with
/// nothing.
pub proof fn law_empty_filler()
    ensures
        args::empty_filler_text(Kleene::Plus) == seq!['N', 'U', 'L', 'L'],
        args::empty_filler_text(Kleene::Star) == Seq::<char>::empty(),
{
    reveal_strlit("NULL");
    assert("NULL"@ =~= seq!['N', 'U', 'L', 'L']);
}

} // verus!
