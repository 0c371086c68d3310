//! How the arguments of a query are bound, and where its SQL comes from.
//!
//! What the `query!()` macros expand to is laid out here as a [`QueryPlan`]:
//! which locals are introduced and how they are type-checked, in which order
//! arguments are added, and what the SQL expression is.
use crate::expr;
use crate::expr::{get_type_override, strip_wildcard, Expr, ExprView};
use crate::input::QueryMacroInput;
use crate::input::QueryMacroInputView;
use crate::placeholders::Kleene;
use crate::rewrite;
use crate::rewrite::{
    Binding, BindingRef, BindingRefKind, BindingView, RewriteOutput, RewriteView, RuntimeTemplate,
    TemplateView,
};
use crate::text;
use crate::text::{push_decimal, same_text};
use std::str::FromStr;
use vstd::prelude::*;
use vstd::string::*;
use vstd::utf8::*;

verus! {

// -- The types of parameters ----------------------------------------------

/// What was met that the user should be warned of.
#[derive(Debug, Clone, Copy, PartialEq, Eq, Structural)]
pub struct Warnings {
    pub ambiguous_datetime: bool,
    pub ambiguous_numeric: bool,
}

/// Why a parameter type has no Rust type by itself.
#[derive(Debug)]
pub enum TypeCheckError {
    NoMappingFound,
    /// The preferred date and time crate needs a feature of its name.
    DateTimeCrateFeatureNotEnabled { crate_name: String },
    /// The preferred numeric crate needs a feature of its name.
    NumericCrateFeatureNotEnabled { crate_name: String },
    AmbiguousDateTimeType { fallback: String },
    AmbiguousNumericType { fallback: String },
}

/// A parameter as the database describes it.
#[derive(Debug)]
pub struct ParamInfo {
    /// How its type is written in messages.
    pub sql_type: String,
    /// The Rust type that the configuration sets for its type.
    pub type_override: Option<String>,
    /// The Rust type that its type maps to.
    pub mapping: Result<String, TypeCheckError>,
    /// The feature without which its type has no mapping.
    pub feature_gate: Option<String>,
}

/// The Rust type of the `i`-th parameter, or why it has none.
pub open spec fn type_text(param: ParamInfo, i: int) -> Result<Seq<char>, Seq<char>> {
    let of_param = " required for type "@ + param.sql_type@ + " of param #"@ + text::decimal(
        (i + 1) as nat,
    );
    match param.type_override {
        Some(ty) => Ok(ty@),
        None => match param.mapping {
            Ok(ty) => Ok(ty@),
            Err(TypeCheckError::NoMappingFound) => match param.feature_gate {
                Some(feature) => Err("optional sqlx feature `"@ + feature@ + "`"@ + of_param),
                None => Err(
                    "no built-in mapping for type "@ + param.sql_type@ + " of param #"@
                        + text::decimal((i + 1) as nat)
                        + "; a type override may be required, see documentation for details"@,
                ),
            },
            Err(TypeCheckError::DateTimeCrateFeatureNotEnabled { crate_name }) => Err(
                "SQLx feature `"@ + crate_name@ + "`"@ + of_param
                    + " (configured by `macros.preferred-crates.date-time` in sqlx.toml)"@,
            ),
            Err(TypeCheckError::NumericCrateFeatureNotEnabled { crate_name }) => Err(
                "SQLx feature `"@ + crate_name@ + "`"@ + of_param
                    + " (configured by `macros.preferred-crates.numeric` in sqlx.toml)"@,
            ),
            Err(TypeCheckError::AmbiguousDateTimeType { fallback }) => Ok(fallback@),
            Err(TypeCheckError::AmbiguousNumericType { fallback }) => Ok(fallback@),
        },
    }
}

/// The warnings after a parameter: a fallback is taken only with one.
pub open spec fn warned(warnings: Warnings, param: ParamInfo) -> Warnings {
    if param.type_override is Some {
        warnings
    } else {
        match param.mapping {
            Err(TypeCheckError::AmbiguousDateTimeType { .. }) => Warnings {
                ambiguous_datetime: true,
                ..warnings
            },
            Err(TypeCheckError::AmbiguousNumericType { .. }) => Warnings {
                ambiguous_numeric: true,
                ..warnings
            },
            _ => warnings,
        }
    }
}

fn push_required(message: &mut String, param: &ParamInfo, i: usize)
    requires
        i < usize::MAX,
    ensures
        final(message)@ == old(message)@ + (" required for type "@ + param.sql_type@
            + " of param #"@ + text::decimal((i + 1) as nat)),
{
    message.append(" required for type ");
    message.append(param.sql_type.as_str());
    message.append(" of param #");
    push_decimal(message, i + 1);
    assert(message@ =~= old(message)@ + (" required for type "@ + param.sql_type@ + " of param #"@
        + text::decimal((i + 1) as nat)));
}

/// Finds the Rust type of the `i`-th parameter, as it is written.
pub fn param_type_text(param: &ParamInfo, warnings: &mut Warnings, i: usize) -> (r: Result<
    String,
    String,
>)
    requires
        i < usize::MAX,
    ensures
        match r {
            Ok(ty) => type_text(*param, i as int) == Ok::<Seq<char>, Seq<char>>(ty@),
            Err(message) => type_text(*param, i as int) == Err::<Seq<char>, Seq<char>>(message@),
        },
        *final(warnings) == warned(*old(warnings), *param),
{
    if let Some(ty) = &param.type_override {
        return Ok(ty.clone());
    }
    match &param.mapping {
        Ok(ty) => Ok(ty.clone()),
        Err(TypeCheckError::NoMappingFound) => {
            if let Some(feature) = &param.feature_gate {
                let mut message = "optional sqlx feature `".to_owned();
                message.append(feature.as_str());
                message.append("`");
                push_required(&mut message, param, i);
                Err(message)
            } else {
                let mut message = "no built-in mapping for type ".to_owned();
                message.append(param.sql_type.as_str());
                message.append(" of param #");
                push_decimal(&mut message, i + 1);
                message.append(
                    "; a type override may be required, see documentation for details",
                );
                Err(message)
            }
        },
        Err(TypeCheckError::DateTimeCrateFeatureNotEnabled { crate_name }) => {
            let mut message = "SQLx feature `".to_owned();
            message.append(crate_name.as_str());
            message.append("`");
            push_required(&mut message, param, i);
            message.append(
                " (configured by `macros.preferred-crates.date-time` in sqlx.toml)",
            );
            Err(message)
        },
        Err(TypeCheckError::NumericCrateFeatureNotEnabled { crate_name }) => {
            let mut message = "SQLx feature `".to_owned();
            message.append(crate_name.as_str());
            message.append("`");
            push_required(&mut message, param, i);
            message.append(" (configured by `macros.preferred-crates.numeric` in sqlx.toml)");
            Err(message)
        },
        Err(TypeCheckError::AmbiguousDateTimeType { fallback }) => {
            warnings.ambiguous_datetime = true;
            Ok(fallback.clone())
        },
        Err(TypeCheckError::AmbiguousNumericType { fallback }) => {
            warnings.ambiguous_numeric = true;
            Ok(fallback.clone())
        },
    }
}

/// Why a text cannot be cut into tokens, if it cannot.
pub uninterp spec fn lex_error(text: Seq<char>) -> Option<Seq<char>>;

/// Calls `proc_macro2::TokenStream::from_str`, which cuts a text into tokens,
/// and hands on its error. The error is named by [`lex_error`]: it depends on the
/// text and on the one lexer that a process has.
#[verifier::external_body]
fn lex(text: &str) -> (r: Result<(), String>)
    ensures
        match r {
            Ok(()) => lex_error(text@) is None,
            Err(message) => lex_error(text@) == Some(message@),
        },
{
    match proc_macro2::TokenStream::from_str(text) {
        Ok(_) => Ok(()),
        Err(e) => Err(e.to_string()),
    }
}

/// The Rust type of the `i`-th parameter, which must be made of tokens, or why
/// there is none.
pub open spec fn param_type(param: ParamInfo, i: int) -> Result<Seq<char>, Seq<char>> {
    match type_text(param, i) {
        Ok(ty) => match lex_error(ty) {
            None => Ok(ty),
            Some(message) => Err(message),
        },
        Err(message) => Err(message),
    }
}

/// Finds the Rust type of the `i`-th parameter.
pub fn get_param_type(param: &ParamInfo, warnings: &mut Warnings, i: usize) -> (r: Result<
    String,
    String,
>)
    requires
        i < usize::MAX,
    ensures
        match r {
            Ok(ty) => param_type(*param, i as int) == Ok::<Seq<char>, Seq<char>>(ty@),
            Err(message) => param_type(*param, i as int) == Err::<Seq<char>, Seq<char>>(message@),
        },
        *final(warnings) == warned(*old(warnings), *param),
{
    match param_type_text(param, warnings, i) {
        Ok(ty) => match lex(ty.as_str()) {
            Ok(()) => Ok(ty),
            Err(message) => Err(message),
        },
        Err(message) => Err(message),
    }
}

/// The parameters of a query, as the database describes them.
#[derive(Debug)]
pub enum Params {
    /// It says nothing of them.
    Unknown,
    /// It says only how many there are.
    Count(usize),
    /// It says their types.
    Types(Vec<ParamInfo>),
}

/// The Rust types of the first `n` parameters, or the first error.
pub open spec fn types_of(params: Seq<ParamInfo>, n: nat) -> Result<Seq<Seq<char>>, Seq<char>>
    decreases n,
{
    if n == 0 {
        Ok(seq![])
    } else {
        match types_of(params, (n - 1) as nat) {
            Err(message) => Err(message),
            Ok(types) => match param_type(params[n - 1], n - 1) {
                Err(message) => Err(message),
                Ok(ty) => Ok(types.push(ty)),
            },
        }
    }
}

/// The warnings after the first `n` parameters, of which none behind the first
/// error is looked at.
pub open spec fn warned_by(warnings: Warnings, params: Seq<ParamInfo>, n: nat) -> Warnings
    decreases n,
{
    if n == 0 {
        warnings
    } else {
        let before = warned_by(warnings, params, (n - 1) as nat);
        if types_of(params, (n - 1) as nat) is Ok {
            warned(before, params[n - 1])
        } else {
            before
        }
    }
}

/// The Rust types of the parameters, where they are known and wanted.
pub open spec fn types_meaning(params: Params, checked: bool) -> Result<
    Option<Seq<Seq<char>>>,
    Seq<char>,
> {
    match params {
        Params::Types(params) if checked => match types_of(params@, params@.len()) {
            Ok(types) => Ok(Some(types)),
            Err(message) => Err(message),
        },
        _ => Ok(None),
    }
}

/// The warnings after the parameters.
pub open spec fn warned_meaning(warnings: Warnings, params: Params, checked: bool) -> Warnings {
    match params {
        Params::Types(params) if checked => warned_by(warnings, params@, params@.len()),
        _ => warnings,
    }
}

/// An error in the first parameters is the error, and nothing behind it is
/// looked at.
proof fn lemma_types_error(warnings: Warnings, params: Seq<ParamInfo>, k: nat, n: nat)
    requires
        k <= n,
        types_of(params, k) is Err,
    ensures
        types_of(params, n) == types_of(params, k),
        warned_by(warnings, params, n) == warned_by(warnings, params, k),
    decreases n,
{
    if k < n {
        lemma_types_error(warnings, params, k, (n - 1) as nat);
    }
}

/// The texts, each as a sequence, if there are any.
pub open spec fn types_view(types: Option<Vec<String>>) -> Option<Seq<Seq<char>>> {
    match types {
        Some(types) => Some(rewrite::text_views(types@)),
        None => None,
    }
}

/// Resolves the parameter types that the database reported. `None` for databases
/// that report none (MySQL, SQLite) and for `*_unchecked!()` macros.
pub fn describe_param_types(params: &Params, checked: bool, warnings: &mut Warnings) -> (r: Result<
    Option<Vec<String>>,
    String,
>)
    ensures
        match r {
            Ok(types) => types_meaning(*params, checked) == Ok::<
                Option<Seq<Seq<char>>>,
                Seq<char>,
            >(types_view(types)),
            Err(message) => types_meaning(*params, checked) == Err::<
                Option<Seq<Seq<char>>>,
                Seq<char>,
            >(message@),
        },
        *final(warnings) == warned_meaning(*old(warnings), *params, checked),
{
    match params {
        Params::Types(list) => {
            if !checked {
                return Ok(None);
            }
            let n: usize = list.len();
            let mut types: Vec<String> = Vec::new();
            let mut i: usize = 0;
            assert(rewrite::text_views(types@) =~= seq![]);
            while i < n
                invariant
                    *params == Params::Types(*list),
                    checked,
                    n == list@.len(),
                    i <= n,
                    types_of(list@, i as nat) == Ok::<Seq<Seq<char>>, Seq<char>>(
                        rewrite::text_views(types@),
                    ),
                    *warnings == warned_by(*old(warnings), list@, i as nat),
                decreases n - i,
            {
                match get_param_type(&list[i], warnings, i) {
                    Ok(ty) => {
                        let ghost before = types@;
                        types.push(ty);
                        assert(rewrite::text_views(types@) =~= rewrite::text_views(before).push(
                            ty@,
                        ));
                    },
                    Err(message) => {
                        proof {
                            lemma_types_error(
                                *old(warnings),
                                list@,
                                (i + 1) as nat,
                                n as nat,
                            );
                        }
                        return Err(message);
                    },
                }
                i += 1;
            }
            Ok(Some(types))
        },
        _ => Ok(None),
    }
}

// -- Locals ---------------------------------------------------------------

/// How the type of a local is checked. The check makes the compiler reject
/// mismatches without ever running.
#[derive(Debug)]
pub enum TypeCheck {
    Unchecked,
    /// The value has this type.
    Single(String),
    /// The items of the value have this type.
    Spread(String),
}

/// A [`TypeCheck`], with its text as a sequence.
pub enum TypeCheckView {
    Unchecked,
    Single(Seq<char>),
    Spread(Seq<char>),
}

impl View for TypeCheck {
    type V = TypeCheckView;

    open spec fn view(&self) -> TypeCheckView {
        match self {
            TypeCheck::Unchecked => TypeCheckView::Unchecked,
            TypeCheck::Single(ty) => TypeCheckView::Single(ty@),
            TypeCheck::Spread(ty) => TypeCheckView::Spread(ty@),
        }
    }
}

/// A local that borrows the value of a binding: `let name = &(expr);`, and its
/// type check.
#[derive(Debug)]
pub struct Local {
    pub name: String,
    pub expr: Expr,
    pub check: TypeCheck,
}

/// A [`Local`], with its parts by their views.
pub struct LocalView {
    pub name: Seq<char>,
    pub expr: ExprView,
    pub check: TypeCheckView,
}

impl View for Local {
    type V = LocalView;

    open spec fn view(&self) -> LocalView {
        LocalView { name: self.name@, expr: self.expr@, check: self.check@ }
    }
}

/// The locals, each by its view.
pub open spec fn local_views(locals: Seq<Local>) -> Seq<LocalView> {
    Seq::new(locals.len(), |i: int| locals[i]@)
}

/// The name of the local for the `i`-th binding.
pub open spec fn arg_name(i: int) -> Seq<char> {
    "__sqlx_arg"@ + text::decimal(i as nat)
}

/// The type reported for the `i`-th binding.
pub open spec fn reported_type(types: Option<Seq<Seq<char>>>, i: int) -> Option<Seq<char>> {
    match types {
        Some(types) => if i < types.len() {
            Some(types[i])
        } else {
            None
        },
        None => None,
    }
}

/// How a binding is checked against the type reported for it. Where the user
/// wrote `expr as Ty`, the cast itself enforces the type of a single value.
pub open spec fn check_of(binding: BindingView, ty: Option<Seq<char>>) -> TypeCheckView {
    match ty {
        None => TypeCheckView::Unchecked,
        Some(ty) => match binding {
            BindingView::Single(e) => if expr::type_override(e) is Some {
                TypeCheckView::Unchecked
            } else {
                TypeCheckView::Single(ty)
            },
            BindingView::Spread(_) => TypeCheckView::Spread(ty),
        },
    }
}

/// The local for the `i`-th binding.
pub open spec fn local_of(
    binding: BindingView,
    i: int,
    types: Option<Seq<Seq<char>>>,
) -> LocalView {
    LocalView {
        name: arg_name(i),
        expr: expr::without_wildcard(rewrite::binding_expr(binding)),
        check: check_of(binding, reported_type(types, i)),
    }
}

/// One local for each binding.
pub open spec fn locals_of(
    bindings: Seq<BindingView>,
    types: Option<Seq<Seq<char>>>,
) -> Seq<LocalView> {
    Seq::new(bindings.len(), |i: int| local_of(bindings[i], i, types))
}

fn arg_name_text(i: usize) -> (r: String)
    ensures
        r@ == arg_name(i as int),
{
    let mut name = "__sqlx_arg".to_owned();
    push_decimal(&mut name, i);
    name
}

fn single_type_check(expr: &Expr, param_ty: Option<&String>) -> (r: TypeCheck)
    ensures
        r@ == check_of(
            BindingView::Single(expr@),
            match param_ty {
                Some(ty) => Some(ty@),
                None => None,
            },
        ),
{
    match param_ty {
        None => TypeCheck::Unchecked,
        Some(ty) => if get_type_override(expr).is_some() {
            // The user wrote `expr as Ty`; let the cast itself enforce the type.
            TypeCheck::Unchecked
        } else {
            TypeCheck::Single(ty.clone())
        },
    }
}

fn spread_type_check(expr: &Expr, elem_ty: Option<&String>) -> (r: TypeCheck)
    ensures
        r@ == check_of(
            BindingView::Spread(expr@),
            match elem_ty {
                Some(ty) => Some(ty@),
                None => None,
            },
        ),
{
    match elem_ty {
        None => TypeCheck::Unchecked,
        Some(ty) => TypeCheck::Spread(ty.clone()),
    }
}

/// Lays out one local for each binding, with the type check that the reported
/// parameter types ask for.
pub fn bind_locals(bindings: &Vec<Binding>, param_types: &Option<Vec<String>>) -> (r: Vec<Local>)
    ensures
        local_views(r@) == locals_of(
            rewrite::binding_views(bindings@),
            types_view(*param_types),
        ),
{
    let mut locals: Vec<Local> = Vec::new();
    let mut i: usize = 0;
    while i < bindings.len()
        invariant
            i <= bindings@.len(),
            locals@.len() == i,
            forall|j: int|
                0 <= j < i ==> (#[trigger] locals@[j])@ == local_of(
                    bindings@[j]@,
                    j,
                    types_view(*param_types),
                ),
        decreases bindings@.len() - i,
    {
        let param_ty: Option<&String> = match param_types {
            Some(types) => if i < types.len() {
                Some(&types[i])
            } else {
                None
            },
            None => None,
        };
        let (e, check) = match &bindings[i] {
            Binding::Single(e) => (e, single_type_check(e, param_ty)),
            Binding::Spread(e) => (e, spread_type_check(e, param_ty)),
        };
        let local = Local { name: arg_name_text(i), expr: strip_wildcard(e.clone()), check };
        proof {
            if let Some(types) = param_types {
                if i < types@.len() {
                    assert(rewrite::text_views(types@)[i as int] == types@[i as int]@);
                }
            }
            assert(local@ == local_of(bindings@[i as int]@, i as int, types_view(*param_types)));
        }
        locals.push(local);
        i += 1;
    }
    assert(local_views(locals@) =~= locals_of(
        rewrite::binding_views(bindings@),
        types_view(*param_types),
    ));
    locals
}

// -- Binding the arguments ------------------------------------------------

/// A step of building the SQL text and binding arguments in lockstep.
#[derive(Debug)]
pub enum PieceStep {
    /// Append this text.
    Text(String),
    /// Add the local with this name as an argument, and append its placeholder.
    One(String),
    /// Add each item of the local with this name as an argument, and append
    /// their placeholders with `, ` between each two. Where there are no items,
    /// append what the marker says.
    Many(String, Kleene),
}

/// A [`PieceStep`], with its text as a sequence.
pub enum PieceStepView {
    Text(Seq<char>),
    One(Seq<char>),
    Many(Seq<char>, Kleene),
}

impl View for PieceStep {
    type V = PieceStepView;

    open spec fn view(&self) -> PieceStepView {
        match self {
            PieceStep::Text(s) => PieceStepView::Text(s@),
            PieceStep::One(name) => PieceStepView::One(name@),
            PieceStep::Many(name, kleene) => PieceStepView::Many(name@, *kleene),
        }
    }
}

/// The steps, each by its view.
pub open spec fn step_views(steps: Seq<PieceStep>) -> Seq<PieceStepView> {
    Seq::new(steps.len(), |i: int| steps[i]@)
}

/// What is appended for a spread without items.
pub open spec fn empty_filler_text(kleene: Kleene) -> Seq<char> {
    match kleene {
        Kleene::Plus => "NULL"@,
        Kleene::Star => seq![],
    }
}

/// What is appended for a spread without items.
pub fn empty_filler(kleene: Kleene) -> (r: &'static str)
    ensures
        r@ == empty_filler_text(kleene),
{
    match kleene {
        Kleene::Plus => "NULL",
        Kleene::Star => {
            proof {
                reveal_strlit("");
                assert(""@ =~= seq![]);
            }
            ""
        },
    }
}

/// The step for a reference to a binding, where `names` are those of the locals.
pub open spec fn ref_step(bref: BindingRef, names: Seq<Seq<char>>) -> PieceStepView {
    let name = names[bref.binding_index as int];
    match bref.kind {
        BindingRefKind::Single => PieceStepView::One(name),
        BindingRefKind::Spread(kleene) => PieceStepView::Many(name, kleene),
    }
}

/// The steps for the first `n` literals, each followed by the reference with
/// its index, if there is one.
pub open spec fn steps_of(
    literals: Seq<Seq<char>>,
    refs: Seq<BindingRef>,
    names: Seq<Seq<char>>,
    n: nat,
) -> Seq<PieceStepView>
    decreases n,
{
    if n == 0 {
        seq![]
    } else {
        let before = steps_of(literals, refs, names, (n - 1) as nat).push(
            PieceStepView::Text(literals[n - 1]),
        );
        if n - 1 < refs.len() {
            before.push(ref_step(refs[n - 1], names))
        } else {
            before
        }
    }
}

/// The names of the locals.
pub open spec fn local_names(locals: Seq<LocalView>) -> Seq<Seq<char>> {
    Seq::new(locals.len(), |i: int| locals[i].name)
}

/// How many bytes the first `n` texts take.
pub open spec fn bytes_of(texts: Seq<Seq<char>>, n: nat) -> nat
    decreases n,
{
    if n == 0 {
        0
    } else {
        bytes_of(texts, (n - 1) as nat) + encode_utf8(texts[n - 1]).len()
    }
}

/// The capacity that the SQL text is given at first: room for the literals and
/// a few placeholders, as far as a `usize` can say.
pub open spec fn capacity_of(literals: Seq<Seq<char>>) -> usize {
    text::capped(bytes_of(literals, literals.len()) + 16)
}

/// How arguments come to be bound.
#[derive(Debug)]
pub enum Setup {
    /// There are none.
    NoArgs,
    /// The native placeholders are in the SQL text: introduce the locals, make
    /// room for as many arguments, and add each in order.
    Static(Vec<Local>),
    /// Introduce the locals, begin with an empty text of the given capacity, and
    /// take the steps. The first error that adding an argument meets ends them.
    Pieces { locals: Vec<Local>, capacity: usize, steps: Vec<PieceStep> },
}

/// A [`Setup`], with its parts by their views.
pub enum SetupView {
    NoArgs,
    Static(Seq<LocalView>),
    Pieces { locals: Seq<LocalView>, capacity: usize, steps: Seq<PieceStepView> },
}

impl View for Setup {
    type V = SetupView;

    open spec fn view(&self) -> SetupView {
        match self {
            Setup::NoArgs => SetupView::NoArgs,
            Setup::Static(locals) => SetupView::Static(local_views(locals@)),
            Setup::Pieces { locals, capacity, steps } => SetupView::Pieces {
                locals: local_views(locals@),
                capacity: *capacity,
                steps: step_views(steps@),
            },
        }
    }
}

/// Setup for the spread path: build SQL and bind in lockstep at run time, so that
/// each spread element advances the number of arguments, which numbered
/// placeholders are written with.
pub fn pieces_setup(
    literals: &Vec<String>,
    piece_bindings: &Vec<BindingRef>,
    locals: Vec<Local>,
) -> (r: Setup)
    requires
        forall|i: int|
            0 <= i < literals@.len() && i < piece_bindings@.len() ==> (
            #[trigger] piece_bindings@[i]).binding_index < locals@.len(),
    ensures
        r@ == (SetupView::Pieces {
            locals: local_views(locals@),
            capacity: capacity_of(rewrite::text_views(literals@)),
            steps: steps_of(
                rewrite::text_views(literals@),
                piece_bindings@,
                local_names(local_views(locals@)),
                literals@.len(),
            ),
        }),
{
    let ghost texts = rewrite::text_views(literals@);
    let ghost names = local_names(local_views(locals@));
    let mut size: usize = 0;
    let mut steps: Vec<PieceStep> = Vec::new();
    let mut i: usize = 0;
    assert(step_views(steps@) =~= seq![]);
    while i < literals.len()
        invariant
            i <= literals@.len(),
            texts == rewrite::text_views(literals@),
            size == text::capped(bytes_of(texts, i as nat)),
            names == local_names(local_views(locals@)),
            step_views(steps@) == steps_of(texts, piece_bindings@, names, i as nat),
            forall|i: int|
                0 <= i < literals@.len() && i < piece_bindings@.len() ==> (
                #[trigger] piece_bindings@[i]).binding_index < locals@.len(),
        decreases literals@.len() - i,
    {
        assert(texts[i as int] == literals@[i as int]@);
        let bytes = literals[i].as_str().as_bytes();
        size = size.saturating_add(bytes.len());
        let ghost before = steps@;
        steps.push(PieceStep::Text(literals[i].clone()));
        assert(step_views(steps@) =~= step_views(before).push(PieceStepView::Text(texts[i as int])));
        if i < piece_bindings.len() {
            let bref: BindingRef = piece_bindings[i];
            let name = locals[bref.binding_index].name.clone();
            assert(names[bref.binding_index as int] == name@);
            let step = match bref.kind {
                BindingRefKind::Single => PieceStep::One(name),
                BindingRefKind::Spread(kleene) => PieceStep::Many(name, kleene),
            };
            let ghost with_text = steps@;
            steps.push(step);
            assert(step_views(steps@) =~= step_views(with_text).push(step@));
        }
        i += 1;
    }
    Setup::Pieces { locals, capacity: size.saturating_add(16), steps }
}

// -- The SQL expression ---------------------------------------------------

/// What the SQL text is taken from.
#[derive(Debug)]
pub enum SqlExpr {
    /// The file with this path, which the compiler then tracks.
    IncludeFile(String),
    Literal(String),
    /// The text that was built at run time.
    Built,
}

/// A [`SqlExpr`], with its text as a sequence.
pub enum SqlExprView {
    IncludeFile(Seq<char>),
    Literal(Seq<char>),
    Built,
}

impl View for SqlExpr {
    type V = SqlExprView;

    open spec fn view(&self) -> SqlExprView {
        match self {
            SqlExpr::IncludeFile(path) => SqlExprView::IncludeFile(path@),
            SqlExpr::Literal(sql) => SqlExprView::Literal(sql@),
            SqlExpr::Built => SqlExprView::Built,
        }
    }
}

/// The SQL expression of a query without bindings: its file, if it has one
/// that holds exactly the text.
pub open spec fn static_sql(input: QueryMacroInputView, sql: Seq<char>) -> SqlExprView {
    if input.file_path is Some && sql == input.sql {
        SqlExprView::IncludeFile(input.file_path->0)
    } else {
        SqlExprView::Literal(sql)
    }
}

/// SQL expression for the no-binding fast path. For `query_file!` we prefer
/// the file itself so it participates in the compiler's source-tracking;
/// that's only possible when the rewriter's output is byte-identical to the
/// file content. `{{` / `}}` collapse outside skip regions modifies the text,
/// so for those queries we fall back to a string literal of the rewritten SQL.
pub fn static_sql_expr(input: &QueryMacroInput, rewrite_out: &RewriteOutput) -> (r: SqlExpr)
    requires
        rewrite_out@.runtime_template is Static,
    ensures
        r@ == static_sql(input@, rewrite_out@.runtime_template->Static_0),
{
    match &rewrite_out.runtime_template {
        RuntimeTemplate::Static(sql) => {
            if let Some(path) = &input.file_path {
                if same_text(sql.as_str(), input.sql.as_str()) {
                    return SqlExpr::IncludeFile(path.clone());
                }
            }
            SqlExpr::Literal(sql.clone())
        },
        RuntimeTemplate::Pieces { .. } => SqlExpr::Built,
    }
}

// -- The whole expansion --------------------------------------------------

/// What a macro expands to.
#[derive(Debug)]
pub struct QueryPlan {
    pub setup: Setup,
    pub sql: SqlExpr,
}

/// A [`QueryPlan`], with its parts by their views.
pub struct QueryPlanView {
    pub setup: SetupView,
    pub sql: SqlExprView,
}

impl View for QueryPlan {
    type V = QueryPlanView;

    open spec fn view(&self) -> QueryPlanView {
        QueryPlanView { setup: self.setup@, sql: self.sql@ }
    }
}

/// What a query is expanded to, given the Rust types of its parameters.
pub open spec fn plan_of(
    input: QueryMacroInputView,
    out: RewriteView,
    types: Option<Seq<Seq<char>>>,
) -> QueryPlanView {
    let locals = locals_of(out.bindings, types);
    if out.bindings.len() == 0 {
        QueryPlanView {
            setup: SetupView::NoArgs,
            sql: static_sql(input, out.runtime_template->Static_0),
        }
    } else {
        match out.runtime_template {
            TemplateView::Static(sql) => QueryPlanView {
                setup: SetupView::Static(locals),
                sql: SqlExprView::Literal(sql),
            },
            TemplateView::Pieces { literals, bindings } => QueryPlanView {
                setup: SetupView::Pieces {
                    locals,
                    capacity: capacity_of(literals),
                    steps: steps_of(literals, bindings, local_names(locals), literals.len()),
                },
                sql: SqlExprView::Built,
            },
        }
    }
}

/// Lays out what a query is expanded to, given the Rust types of its
/// parameters.
pub fn plan_query(
    input: &QueryMacroInput,
    rewrite_out: &RewriteOutput,
    param_types: Option<Vec<String>>,
) -> (r: QueryPlan)
    requires
        rewrite::refs_in_bounds(rewrite_out@),
    ensures
        r@ == plan_of(input@, rewrite_out@, types_view(param_types)),
{
    if rewrite_out.bindings.len() == 0 {
        return QueryPlan { setup: Setup::NoArgs, sql: static_sql_expr(input, rewrite_out) };
    }
    let locals = bind_locals(&rewrite_out.bindings, &param_types);
    assert(local_views(locals@).len() == rewrite_out@.bindings.len());
    match &rewrite_out.runtime_template {
        RuntimeTemplate::Static(sql) => QueryPlan {
            setup: Setup::Static(locals),
            sql: SqlExpr::Literal(sql.clone()),
        },
        RuntimeTemplate::Pieces { literals, bindings } => QueryPlan {
            setup: pieces_setup(literals, bindings, locals),
            sql: SqlExpr::Built,
        },
    }
}

/// What a query is expanded to, or why its parameters have no Rust types.
pub open spec fn expansion_meaning(
    input: QueryMacroInputView,
    out: RewriteView,
    params: Params,
) -> Result<QueryPlanView, Seq<char>> {
    match types_meaning(params, input.checked) {
        Ok(types) => Ok(plan_of(input, out, types)),
        Err(message) => Err(message),
    }
}

/// Lays out what a query is expanded to: the statements that bind its
/// arguments, and its SQL expression.
pub fn quote_args_and_sql(
    input: &QueryMacroInput,
    rewrite_out: &RewriteOutput,
    warnings: &mut Warnings,
    params: &Params,
) -> (r: Result<QueryPlan, String>)
    requires
        rewrite::refs_in_bounds(rewrite_out@),
    ensures
        match r {
            Ok(plan) => expansion_meaning(input@, rewrite_out@, *params) == Ok::<
                QueryPlanView,
                Seq<char>,
            >(plan@),
            Err(message) => expansion_meaning(input@, rewrite_out@, *params) == Err::<
                QueryPlanView,
                Seq<char>,
            >(message@),
        },
        *final(warnings) == warned_meaning(*old(warnings), *params, input@.checked),
{
    match describe_param_types(params, input.checked, warnings) {
        Ok(types) => Ok(plan_query(input, rewrite_out, types)),
        Err(message) => Err(message),
    }
}

} // verus!
