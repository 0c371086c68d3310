//! Resolves `{...}` placeholders to bind expressions and emits
//! native-placeholder SQL.
//!
//! Runs after [`crate::placeholders::parse_query`]. Produces:
//! - `describe_sql` for the compile-time database describe (one native placeholder
//!   per binding, with each spread collapsed to one).
//! - `runtime_template` for the SQL the macro should emit at runtime — either a
//!   single static string (no spreads) or alternating literal/binding pieces.
//! - The bindings, in describe order.
use crate::database;
use crate::database::{write_placeholder, ParamIndexing};
use crate::expr;
use crate::expr::{parse_expr, Expr, ExprView, FieldAccess, FieldAccessView};
use crate::grammar;
use crate::grammar::{FragmentView, IdentView, PlaceholderView};
use crate::placeholders;
use crate::placeholders::{is_ascii_ident, Fragment, Ident, Kleene, ParsedQuery, Placeholder};
use crate::text;
use crate::text::{cow_str, push_decimal, same_text};
use std::ops::Range;
use vstd::prelude::*;

verus! {

/// An expression to bind.
#[derive(Debug)]
pub enum Binding {
    /// Its value is one argument.
    Single(Expr),
    /// Each of its items is an argument.
    Spread(Expr),
}

/// A [`Binding`], with its expression by its view.
pub enum BindingView {
    Single(ExprView),
    Spread(ExprView),
}

impl View for Binding {
    type V = BindingView;

    open spec fn view(&self) -> BindingView {
        match self {
            Binding::Single(e) => BindingView::Single(e@),
            Binding::Spread(e) => BindingView::Spread(e@),
        }
    }
}

impl Clone for Binding {
    fn clone(&self) -> (r: Self)
        ensures
            r@ == self@,
    {
        match self {
            Binding::Single(e) => Binding::Single(e.clone()),
            Binding::Spread(e) => Binding::Spread(e.clone()),
        }
    }
}

/// Where the expression of a binding comes from, and so which span its tokens
/// get.
#[derive(Debug, Clone, Copy, PartialEq, Eq, Structural)]
pub enum Origin {
    /// The positional argument with this index.
    Positional(usize),
    /// The named argument with this index.
    Named(usize),
    /// A field of the `..rest` argument. The field access takes the span of the
    /// placeholder between these byte positions, so that jump-to-definition and
    /// "find references" point at `{...}` rather than at the whole SQL literal.
    Rest(usize, usize),
    /// Made up of the placeholder between these byte positions, whose span all
    /// of its tokens take. The placeholder lies within a token that the user
    /// wrote, so names in it mean what they mean to the user.
    Placeholder(usize, usize),
}

/// How the SQL comes about at run time.
///
/// `Static` is a `&'static str` (zero overhead). `Pieces` is a `String`
/// built at run time, with `literals` and `bindings` alternating: `literals[0]`,
/// then `bindings[0]` expansion, then `literals[1]`, etc. (so `literals.len()
/// == bindings.len() + 1`). Literals contain pure SQL with no native
/// placeholders; placeholders are emitted at run time in lockstep with
/// `Arguments::add` so a spread of length K advances the placeholder counter
/// by K and the next single picks up the correct number.
#[derive(Debug)]
pub enum RuntimeTemplate {
    Static(String),
    Pieces { literals: Vec<String>, bindings: Vec<BindingRef> },
}

/// What stands between two literals.
#[derive(Debug, Clone, Copy, PartialEq, Eq, Structural)]
pub struct BindingRef {
    pub binding_index: usize,
    pub kind: BindingRefKind,
}

#[derive(Debug, Clone, Copy, PartialEq, Eq, Structural)]
pub enum BindingRefKind {
    Single,
    Spread(Kleene),
}

/// A [`RuntimeTemplate`], with its texts as sequences.
pub enum TemplateView {
    Static(Seq<char>),
    Pieces { literals: Seq<Seq<char>>, bindings: Seq<BindingRef> },
}

/// The texts, each as a sequence.
pub open spec fn text_views(texts: Seq<String>) -> Seq<Seq<char>> {
    Seq::new(texts.len(), |i: int| texts[i]@)
}

impl View for RuntimeTemplate {
    type V = TemplateView;

    open spec fn view(&self) -> TemplateView {
        match self {
            RuntimeTemplate::Static(sql) => TemplateView::Static(sql@),
            RuntimeTemplate::Pieces { literals, bindings } => TemplateView::Pieces {
                literals: text_views(literals@),
                bindings: bindings@,
            },
        }
    }
}

/// What became of a parsed query and its arguments.
#[derive(Debug)]
pub struct RewriteOutput {
    pub describe_sql: String,
    pub runtime_template: RuntimeTemplate,
    pub bindings: Vec<Binding>,
    /// Where each of the bindings comes from.
    pub origins: Vec<Origin>,
}

/// A [`RewriteOutput`], with its parts by their views.
pub struct RewriteView {
    pub describe_sql: Seq<char>,
    pub runtime_template: TemplateView,
    pub bindings: Seq<BindingView>,
    pub origins: Seq<Origin>,
}

/// The bindings, each by its view.
pub open spec fn binding_views(bindings: Seq<Binding>) -> Seq<BindingView> {
    Seq::new(bindings.len(), |i: int| bindings[i]@)
}

impl View for RewriteOutput {
    type V = RewriteView;

    open spec fn view(&self) -> RewriteView {
        RewriteView {
            describe_sql: self.describe_sql@,
            runtime_template: self.runtime_template@,
            bindings: binding_views(self.bindings@),
            origins: self.origins@,
        }
    }
}

/// The references of a template are to bindings that are there.
pub open spec fn refs_in_bounds(out: RewriteView) -> bool {
    match out.runtime_template {
        TemplateView::Static(_) => true,
        TemplateView::Pieces { literals, bindings } => out.bindings.len() > 0 && forall|i: int|
            0 <= i < literals.len() && i < bindings.len() ==> (#[trigger] bindings[i]).binding_index
                < out.bindings.len(),
    }
}

/// Is one of the bindings a spread?
pub open spec fn any_spread(bindings: Seq<BindingView>) -> bool {
    exists|i: int| 0 <= i < bindings.len() && (#[trigger] bindings[i]) is Spread
}

impl RewriteOutput {
    /// Whether any binding is a spread. When true, the runtime SQL is built at
    /// call time (placeholder counters can't be baked in at macro expansion).
    pub fn has_spread(&self) -> (r: bool)
        ensures
            r == any_spread(self@.bindings),
    {
        let mut i: usize = 0;
        while i < self.bindings.len()
            invariant
                i <= self.bindings.len(),
                forall|j: int| 0 <= j < i ==> !((#[trigger] self@.bindings[j]) is Spread),
            decreases self.bindings.len() - i,
        {
            if matches!(self.bindings[i], Binding::Spread(_)) {
                assert(self@.bindings[i as int] is Spread);
                return true;
            }
            i += 1;
        }
        false
    }
}

/// Why the placeholders cannot be resolved.
#[derive(Debug)]
pub struct RewriteError {
    /// The bytes of the SQL text at fault.
    pub byte_range: Range<usize>,
    pub message: String,
}

/// A [`RewriteError`], with its text as a sequence.
pub struct RewriteErrorView {
    pub start: int,
    pub end: int,
    pub message: Seq<char>,
}

impl View for RewriteError {
    type V = RewriteErrorView;

    open spec fn view(&self) -> RewriteErrorView {
        RewriteErrorView {
            start: self.byte_range.start as int,
            end: self.byte_range.end as int,
            message: self.message@,
        }
    }
}

impl RewriteError {
    /// The error as one line of text.
    pub fn to_string(&self) -> (r: String)
        ensures
            r@ == self@.message,
    {
        self.message.clone()
    }
}

fn err(byte_range: Range<usize>, message: String) -> (r: RewriteError)
    ensures
        r@ == (RewriteErrorView {
            start: byte_range.start as int,
            end: byte_range.end as int,
            message: message@,
        }),
{
    RewriteError { byte_range, message }
}

// -- What a placeholder resolves to ---------------------------------------

/// The arguments that placeholders may refer to.
pub struct ArgsView {
    pub positional: Seq<ExprView>,
    pub named: Seq<(Seq<char>, ExprView)>,
    pub rest: Option<ExprView>,
}

/// The named arguments, each by its view.
pub open spec fn named_views(named: Seq<(String, Expr)>) -> Seq<(Seq<char>, ExprView)> {
    Seq::new(named.len(), |i: int| (named[i].0@, named[i].1@))
}

/// The arguments, each by its view.
pub open spec fn args_view(
    positional: Seq<Expr>,
    named: Seq<(String, Expr)>,
    rest: Option<&Expr>,
) -> ArgsView {
    ArgsView {
        positional: expr::expr_views(positional),
        named: named_views(named),
        rest: match rest {
            Some(e) => Some(e@),
            None => None,
        },
    }
}

/// The last of the named arguments with the given name.
pub open spec fn last_named(named: Seq<(Seq<char>, ExprView)>, name: Seq<char>) -> Option<int>
    decreases named.len(),
{
    if named.len() == 0 {
        None
    } else if named.last().0 == name {
        Some(named.len() - 1)
    } else {
        last_named(named.drop_last(), name)
    }
}

/// Can `r#name` be written?
pub open spec fn can_be_raw(name: Seq<char>) -> bool {
    &&& grammar::is_ident(name)
    &&& name != "_"@
    &&& name != "self"@
    &&& name != "Self"@
    &&& name != "super"@
    &&& name != "crate"@
}

/// Is a name that stands in for a field of `..rest` or a variable one that can
/// be written as a raw identifier?
pub open spec fn nameable(p: PlaceholderView, args: ArgsView) -> bool {
    p.ident matches IdentView::Named(name) ==> last_named(args.named, name) is None ==> can_be_raw(
        name,
    )
}

pub open spec fn error_at(p: PlaceholderView, message: Seq<char>) -> RewriteErrorView {
    RewriteErrorView { start: p.start, end: p.end, message }
}

/// What a placeholder resolves to: an index to the positional argument; a name
/// to the named argument, or else to a field of `..rest`, or else to a variable
/// in scope; an expression to itself.
pub open spec fn resolve_meaning(p: PlaceholderView, args: ArgsView) -> Result<
    (ExprView, Origin),
    RewriteErrorView,
> {
    match p.ident {
        IdentView::Positional(i) => if i < args.positional.len() {
            Ok((args.positional[i as int], Origin::Positional(i as usize)))
        } else {
            Err(
                error_at(
                    p,
                    "positional placeholder `{"@ + text::decimal(i) + "}` is out of range; only "@
                        + text::decimal(args.positional.len())
                        + " positional argument(s) provided"@,
                ),
            )
        },
        IdentView::Named(name) => match last_named(args.named, name) {
            Some(i) => Ok((args.named[i].1, Origin::Named(i as usize))),
            None => match args.rest {
                Some(rest) => Ok(
                    (
                        ExprView::Field(FieldAccessView::Of(Box::new(rest), "r#"@ + name)),
                        Origin::Rest(p.start as usize, p.end as usize),
                    ),
                ),
                None => Ok(
                    (
                        ExprView::Path("r#"@ + name),
                        Origin::Placeholder(p.start as usize, p.end as usize),
                    ),
                ),
            },
        },
        IdentView::Expr(t) => inline_meaning(p, t, expr::whole_expr(t)),
    }
}

/// What a placeholder with the expression text `t` resolves to, given what came
/// of reading the text.
pub open spec fn inline_meaning(
    p: PlaceholderView,
    t: Seq<char>,
    parsed: Result<ExprView, Seq<char>>,
) -> Result<(ExprView, Origin), RewriteErrorView> {
    match parsed {
        Ok(e) => Ok((e, Origin::Placeholder(p.start as usize, p.end as usize))),
        Err(message) => Err(error_at(p, "failed to parse expression `"@ + t + "`: "@ + message)),
    }
}

fn find_named(named: &[(String, Expr)], name: &str) -> (r: Option<usize>)
    ensures
        match r {
            Some(i) => i < named@.len() && last_named(named_views(named@), name@) == Some(i as int),
            None => last_named(named_views(named@), name@) is None,
        },
{
    let ghost views = named_views(named@);
    let mut i: usize = named.len();
    assert(views.take(i as int) =~= views);
    while i > 0
        invariant
            i <= named@.len(),
            views == named_views(named@),
            last_named(views, name@) == last_named(views.take(i as int), name@),
        decreases i,
    {
        i -= 1;
        proof {
            assert(views.take(i + 1).drop_last() =~= views.take(i as int));
            assert(views.take(i + 1).last() == (named@[i as int].0@, named@[i as int].1@));
        }
        if same_text(named[i].0.as_str(), name) {
            return Some(i);
        }
    }
    None
}

fn can_be_raw_name(name: &str) -> (r: bool)
    ensures
        r == can_be_raw(name@),
{
    is_ascii_ident(name) && !same_text(name, "_") && !same_text(name, "self") && !same_text(
        name,
        "Self",
    ) && !same_text(name, "super") && !same_text(name, "crate")
}

/// Calls `proc_macro2::Ident::new_raw`, which makes the raw identifier of a
/// name, and writes it down: `r#` and the name. Names that are no identifiers,
/// `_`, `self`, `Self`, `super` and `crate` have none.
#[verifier::external_body]
fn raw_ident(name: &str) -> (r: String)
    requires
        can_be_raw(name@),
    ensures
        r@ == "r#"@ + name@,
{
    proc_macro2::Ident::new_raw(name, proc_macro2::Span::call_site()).to_string()
}

/// Resolves a placeholder to the expression to bind.
pub fn resolve(
    p: &Placeholder<'_>,
    arg_exprs: &[Expr],
    named: &[(String, Expr)],
    rest: Option<&Expr>,
) -> (r: Result<(Expr, Origin), RewriteError>)
    requires
        nameable(p@, args_view(arg_exprs@, named@, rest)),
    ensures
        match r {
            Ok((e, origin)) => resolve_meaning(p@, args_view(arg_exprs@, named@, rest)) == Ok::<
                (ExprView, Origin),
                RewriteErrorView,
            >((e@, origin)),
            Err(e) => resolve_meaning(p@, args_view(arg_exprs@, named@, rest)) == Err::<
                (ExprView, Origin),
                RewriteErrorView,
            >(e@),
        },
{
    match &p.ident {
        Ident::Positional(i) => {
            let k: usize = *i as usize;
            if k < arg_exprs.len() {
                assert(expr::expr_views(arg_exprs@)[k as int] == arg_exprs@[k as int]@);
                Ok((arg_exprs[k].clone(), Origin::Positional(k)))
            } else {
                let mut message = "positional placeholder `{".to_owned();
                push_decimal(&mut message, k);
                message.append("}` is out of range; only ");
                push_decimal(&mut message, arg_exprs.len());
                message.append(" positional argument(s) provided");
                Err(err(p.token.start..p.token.end, message))
            }
        },
        Ident::Named(name) => {
            let name: &str = cow_str(name);
            if let Some(i) = find_named(named, name) {
                assert(named_views(named@)[i as int] == (named@[i as int].0@, named@[i as int].1@));
                return Ok((named[i].1.clone(), Origin::Named(i)));
            }
            // `..rest` takes precedence over inline capture, so that `rest.name`
            // and a scope-local `name` need no telling apart.
            if let Some(rest_expr) = rest {
                return Ok(
                    (
                        Expr::Field(
                            FieldAccess::Of(Box::new(rest_expr.clone()), raw_ident(name)),
                        ),
                        Origin::Rest(p.token.start, p.token.end),
                    ),
                );
            }
            // Inline capture. The identifier is raw, so that reserved words (`type`,
            // `match`, etc.) are names too: the user writes `let r#type = ...`.
            Ok((Expr::Path(raw_ident(name)), Origin::Placeholder(p.token.start, p.token.end)))
        },
        Ident::Expr(t) => {
            let t: &str = cow_str(t);
            resolve_inline(p, t, parse_expr(t))
        },
    }
}

/// Resolves a placeholder with the expression text `t`, given what came of
/// reading the text.
pub fn resolve_inline(p: &Placeholder<'_>, t: &str, parsed: Result<Expr, String>) -> (r: Result<
    (Expr, Origin),
    RewriteError,
>)
    ensures
        match r {
            Ok((e, origin)) => parsed is Ok && inline_meaning(
                p@,
                t@,
                Ok::<ExprView, Seq<char>>(parsed->Ok_0@),
            ) == Ok::<(ExprView, Origin), RewriteErrorView>((e@, origin)),
            Err(e) => parsed is Err && inline_meaning(
                p@,
                t@,
                Err::<ExprView, Seq<char>>(parsed->Err_0@),
            ) == Err::<(ExprView, Origin), RewriteErrorView>(e@),
        },
{
    match parsed {
        Ok(e) => Ok((e, Origin::Placeholder(p.token.start, p.token.end))),
        Err(e) => {
            let mut message = "failed to parse expression `".to_owned();
            message.append(t);
            message.append("`: ");
            message.append(e.as_str());
            Err(err(p.token.start..p.token.end, message))
        },
    }
}

// -- What a query is rewritten to -----------------------------------------

/// The placeholders among the fragments, in order.
pub open spec fn placeholders_of(fragments: Seq<FragmentView>) -> Seq<PlaceholderView>
    decreases fragments.len(),
{
    if fragments.len() == 0 {
        seq![]
    } else {
        match fragments.last() {
            FragmentView::Literal(_) => placeholders_of(fragments.drop_last()),
            FragmentView::Placeholder(p) => placeholders_of(fragments.drop_last()).push(p),
        }
    }
}

/// The literal texts before, between and behind the placeholders.
pub open spec fn literals_of(fragments: Seq<FragmentView>) -> Seq<Seq<char>>
    decreases fragments.len(),
{
    if fragments.len() == 0 {
        seq![seq![]]
    } else {
        let before = literals_of(fragments.drop_last());
        match fragments.last() {
            FragmentView::Literal(s) => before.drop_last().push(before.last() + s),
            FragmentView::Placeholder(_) => before.push(seq![]),
        }
    }
}

/// The SQL text with the native placeholder of the `n`-th argument for the
/// `n`-th placeholder.
pub open spec fn native_sql(
    fragments: Seq<FragmentView>,
    ch: char,
    indexing: ParamIndexing,
) -> Seq<char>
    decreases fragments.len(),
{
    if fragments.len() == 0 {
        seq![]
    } else {
        native_sql(fragments.drop_last(), ch, indexing) + match fragments.last() {
            FragmentView::Literal(s) => s,
            FragmentView::Placeholder(_) => database::native_placeholder(
                ch,
                indexing,
                placeholders_of(fragments).len(),
            ),
        }
    }
}

/// What the placeholders resolve to, or the first error.
pub open spec fn resolve_all(ps: Seq<PlaceholderView>, args: ArgsView) -> Result<
    Seq<(ExprView, Origin)>,
    RewriteErrorView,
>
    decreases ps.len(),
{
    if ps.len() == 0 {
        Ok(seq![])
    } else {
        match resolve_all(ps.drop_last(), args) {
            Ok(before) => match resolve_meaning(ps.last(), args) {
                Ok(resolved) => Ok(before.push(resolved)),
                Err(e) => Err(e),
            },
            Err(e) => Err(e),
        }
    }
}

/// Can every name that is reached be written as the raw identifier that it
/// stands for?
pub open spec fn all_nameable(ps: Seq<PlaceholderView>, args: ArgsView) -> bool {
    forall|k: int|
        0 <= k < ps.len() && resolve_all(#[trigger] ps.take(k), args) is Ok ==> nameable(
            ps[k],
            args,
        )
}

/// Does one of the placeholders spread its argument?
pub open spec fn spreads(ps: Seq<PlaceholderView>) -> bool {
    exists|i: int| 0 <= i < ps.len() && (#[trigger] ps[i]).kleene is Some
}

pub open spec fn binding_of(kleene: Option<Kleene>, e: ExprView) -> BindingView {
    match kleene {
        None => BindingView::Single(e),
        Some(_) => BindingView::Spread(e),
    }
}

pub open spec fn kind_of(kleene: Option<Kleene>) -> BindingRefKind {
    match kleene {
        None => BindingRefKind::Single,
        Some(k) => BindingRefKind::Spread(k),
    }
}

/// One binding for each placeholder.
pub open spec fn bindings_of(
    ps: Seq<PlaceholderView>,
    resolved: Seq<(ExprView, Origin)>,
) -> Seq<BindingView> {
    Seq::new(ps.len(), |i: int| binding_of(ps[i].kleene, resolved[i].0))
}

/// One reference for each placeholder, to the binding with its index.
pub open spec fn refs_of(ps: Seq<PlaceholderView>) -> Seq<BindingRef> {
    Seq::new(
        ps.len(),
        |i: int| BindingRef { binding_index: i as usize, kind: kind_of(ps[i].kleene) },
    )
}

/// What a query with placeholders is rewritten to.
pub open spec fn rewrite_placeholders(
    fragments: Seq<FragmentView>,
    args: ArgsView,
    ch: char,
    indexing: ParamIndexing,
) -> Result<RewriteView, RewriteErrorView> {
    let ps = placeholders_of(fragments);
    match resolve_all(ps, args) {
        Ok(resolved) => Ok(
            RewriteView {
                describe_sql: native_sql(fragments, ch, indexing),
                runtime_template: if spreads(ps) {
                    TemplateView::Pieces {
                        literals: literals_of(fragments),
                        bindings: refs_of(ps),
                    }
                } else {
                    TemplateView::Static(native_sql(fragments, ch, indexing))
                },
                bindings: bindings_of(ps, resolved),
                origins: Seq::new(ps.len(), |i: int| resolved[i].1),
            },
        ),
        Err(e) => Err(e),
    }
}

/// What a query without placeholders is rewritten to: itself, with the
/// positional arguments for its native placeholders.
pub open spec fn rewrite_plain(fragments: Seq<FragmentView>, args: ArgsView) -> Result<
    RewriteView,
    RewriteErrorView,
> {
    if args.named.len() > 0 || args.rest is Some {
        Err(
            RewriteErrorView {
                start: 0,
                end: 0,
                message: "named or `..rest` arguments were provided but the SQL contains no `{...}` placeholders"@,
            },
        )
    } else {
        Ok(
            RewriteView {
                describe_sql: literals_of(fragments)[0],
                runtime_template: TemplateView::Static(literals_of(fragments)[0]),
                bindings: Seq::new(
                    args.positional.len(),
                    |i: int| BindingView::Single(args.positional[i]),
                ),
                origins: Seq::new(args.positional.len(), |i: int| Origin::Positional(i as usize)),
            },
        )
    }
}

/// What a query is rewritten to.
pub open spec fn rewrite_meaning(
    fragments: Seq<FragmentView>,
    had_placeholder: bool,
    args: ArgsView,
    ch: char,
    indexing: ParamIndexing,
) -> Result<RewriteView, RewriteErrorView> {
    if had_placeholder {
        rewrite_placeholders(fragments, args, ch, indexing)
    } else {
        rewrite_plain(fragments, args)
    }
}

// -- Facts about prefixes -------------------------------------------------

/// One more fragment, and what it adds.
pub proof fn lemma_one_more(fragments: Seq<FragmentView>, k: int)
    requires
        0 <= k < fragments.len(),
    ensures
        fragments.take(k + 1).drop_last() == fragments.take(k),
        fragments.take(k + 1).last() == fragments[k],
{
    assert(fragments.take(k + 1).drop_last() =~= fragments.take(k));
}

/// There are at most as many placeholders as fragments.
pub proof fn lemma_placeholder_count(fragments: Seq<FragmentView>)
    ensures
        placeholders_of(fragments).len() <= fragments.len(),
        literals_of(fragments).len() == placeholders_of(fragments).len() + 1,
        (placeholders_of(fragments).len() > 0) == grammar::has_placeholder(fragments),
    decreases fragments.len(),
{
    if fragments.len() > 0 {
        lemma_placeholder_count(fragments.drop_last());
        let last = seq![fragments.last()];
        assert(fragments =~= fragments.drop_last() + last);
        grammar::lemma_has_placeholder_concat(fragments.drop_last(), last);
        assert(last[0] == fragments.last());
    }
}

/// The placeholders of the first fragments are the first placeholders.
pub proof fn lemma_placeholders_prefix(fragments: Seq<FragmentView>, k: int)
    requires
        0 <= k <= fragments.len(),
    ensures
        placeholders_of(fragments.take(k)).len() <= placeholders_of(fragments).len(),
        placeholders_of(fragments.take(k)) == placeholders_of(fragments).take(
            placeholders_of(fragments.take(k)).len() as int,
        ),
    decreases fragments.len(),
{
    let n = placeholders_of(fragments.take(k)).len() as int;
    if k == fragments.len() {
        assert(fragments.take(k) =~= fragments);
        assert(placeholders_of(fragments).take(n) =~= placeholders_of(fragments));
    } else {
        lemma_placeholders_prefix(fragments.drop_last(), k);
        assert(fragments.drop_last().take(k) =~= fragments.take(k));
        assert(placeholders_of(fragments).take(n) =~= placeholders_of(fragments.drop_last()).take(
            n,
        ));
    }
}

/// An error in the first placeholders is the error.
proof fn lemma_error_stays(ps: Seq<PlaceholderView>, k: int, args: ArgsView)
    requires
        0 <= k <= ps.len(),
        resolve_all(ps.take(k), args) is Err,
    ensures
        resolve_all(ps, args) == resolve_all(ps.take(k), args),
    decreases ps.len(),
{
    if k == ps.len() {
        assert(ps.take(k) =~= ps);
    } else {
        assert(ps.drop_last().take(k) =~= ps.take(k));
        lemma_error_stays(ps.drop_last(), k, args);
    }
}

/// With the first error at the end of the first placeholders, or none, only
/// those are reached.
proof fn lemma_nameable_up_to(ps: Seq<PlaceholderView>, k: int, args: ArgsView)
    requires
        0 <= k <= ps.len(),
        k < ps.len() ==> resolve_all(ps.take(k), args) is Err,
        forall|j: int| 0 <= j < k ==> nameable(#[trigger] ps[j], args),
    ensures
        all_nameable(ps, args),
{
    assert forall|j: int|
        0 <= j < ps.len() && resolve_all(#[trigger] ps.take(j), args) is Ok implies nameable(
        ps[j],
        args,
    ) by {
        if j >= k {
            assert(ps.take(j).take(k) =~= ps.take(k));
            lemma_error_stays(ps.take(j), k, args);
        }
    }
}

/// The expression of a binding.
pub open spec fn binding_expr(b: BindingView) -> ExprView {
    match b {
        BindingView::Single(e) => e,
        BindingView::Spread(e) => e,
    }
}

/// What a query is rewritten to refers only to bindings that it has.
pub proof fn lemma_refs_in_bounds(
    fragments: Seq<FragmentView>,
    had_placeholder: bool,
    args: ArgsView,
    ch: char,
    indexing: ParamIndexing,
)
    requires
        fragments.len() <= usize::MAX,
    ensures
        rewrite_meaning(fragments, had_placeholder, args, ch, indexing) matches Ok(out)
            ==> refs_in_bounds(out),
{
    lemma_placeholder_count(fragments);
    if let Ok(out) = rewrite_meaning(fragments, had_placeholder, args, ch, indexing) {
        if out.runtime_template is Pieces {
            let refs = refs_of(placeholders_of(fragments));
            assert forall|i: int| 0 <= i < refs.len() implies (#[trigger] refs[i]).binding_index
                < out.bindings.len() by {
                assert(refs[i].binding_index == i as usize);
            }
        }
    }
}

// -- The rewriter ---------------------------------------------------------

/// The literal text of fragments without placeholders.
pub fn concat_literals(parsed: &ParsedQuery<'_>) -> (r: String)
    requires
        !grammar::has_placeholder(parsed@),
    ensures
        r@ == literals_of(parsed@)[0],
{
    let mut sql = String::new();
    let mut k: usize = 0;
    while k < parsed.fragments.len()
        invariant
            k <= parsed.fragments.len(),
            !grammar::has_placeholder(parsed@),
            literals_of(parsed@.take(k as int)) == seq![sql@],
        decreases parsed.fragments.len() - k,
    {
        proof {
            lemma_one_more(parsed@, k as int);
            assert(parsed@[k as int] == parsed.fragments@[k as int]@);
        }
        match &parsed.fragments[k] {
            Fragment::Literal(s) => sql.append(s.as_str()),
            Fragment::Placeholder(_) => {
                assert(parsed@[k as int] is Placeholder);
            },
        }
        k += 1;
        assert(literals_of(parsed@.take(k as int)) =~= seq![sql@]);
    }
    assert(parsed@.take(k as int) =~= parsed@);
    sql
}

/// The positional arguments of a query without placeholders.
fn plain_bindings(arg_exprs: &[Expr]) -> (r: (Vec<Binding>, Vec<Origin>))
    ensures
        binding_views(r.0@) == Seq::new(
            arg_exprs@.len(),
            |i: int| BindingView::Single(arg_exprs@[i]@),
        ),
        r.1@ == Seq::new(arg_exprs@.len(), |i: int| Origin::Positional(i as usize)),
{
    let mut bindings: Vec<Binding> = Vec::new();
    let mut origins: Vec<Origin> = Vec::new();
    let mut i: usize = 0;
    while i < arg_exprs.len()
        invariant
            i <= arg_exprs@.len(),
            bindings@.len() == i,
            origins@.len() == i,
            forall|j: int|
                0 <= j < i ==> (#[trigger] bindings@[j])@ == BindingView::Single(arg_exprs@[j]@),
            forall|j: int| 0 <= j < i ==> #[trigger] origins@[j] == Origin::Positional(j as usize),
        decreases arg_exprs@.len() - i,
    {
        bindings.push(Binding::Single(arg_exprs[i].clone()));
        origins.push(Origin::Positional(i));
        i += 1;
    }
    (bindings, origins)
}

/// Whether any placeholder spreads its argument.
fn any_kleene(parsed: &ParsedQuery<'_>) -> (r: bool)
    ensures
        r == spreads(placeholders_of(parsed@)),
{
    let mut k: usize = 0;
    while k < parsed.fragments.len()
        invariant
            k <= parsed.fragments.len(),
            !spreads(placeholders_of(parsed@.take(k as int))),
        decreases parsed.fragments.len() - k,
    {
        proof {
            lemma_one_more(parsed@, k as int);
            lemma_placeholders_prefix(parsed@, k + 1);
            assert(parsed@[k as int] == parsed.fragments@[k as int]@);
        }
        let ghost before = placeholders_of(parsed@.take(k as int));
        let ghost now = placeholders_of(parsed@.take(k + 1));
        if let Fragment::Placeholder(p) = &parsed.fragments[k] {
            assert(now == before.push(p@));
            if p.kleene.is_some() {
                assert(placeholders_of(parsed@)[before.len() as int] == now[before.len() as int]);
                return true;
            }
            proof {
                if spreads(now) {
                    let i = choose|i: int| 0 <= i < now.len() && (#[trigger] now[i]).kleene is Some;
                    assert(i < before.len());
                    assert(before[i] == now[i]);
                }
            }
        }
        k += 1;
    }
    assert(parsed@.take(k as int) =~= parsed@);
    false
}

/// Rewrites a query, unless it comes to a name that cannot be written as the
/// raw identifier that it stands for.
#[verifier::rlimit(60)]
fn rewrite_nameable(
    parsed: &ParsedQuery<'_>,
    arg_exprs: &[Expr],
    named_args: &[(String, Expr)],
    rest_arg: Option<&Expr>,
    placeholder_char: char,
    indexing: ParamIndexing,
) -> (r: Option<Result<RewriteOutput, RewriteError>>)
    requires
        !parsed.had_placeholder ==> !grammar::has_placeholder(parsed@),
    ensures
        match r {
            Some(Ok(out)) => rewrite_meaning(
                parsed@,
                parsed.had_placeholder,
                args_view(arg_exprs@, named_args@, rest_arg),
                placeholder_char,
                indexing,
            ) == Ok::<RewriteView, RewriteErrorView>(out@) && refs_in_bounds(out@),
            Some(Err(e)) => rewrite_meaning(
                parsed@,
                parsed.had_placeholder,
                args_view(arg_exprs@, named_args@, rest_arg),
                placeholder_char,
                indexing,
            ) == Err::<RewriteView, RewriteErrorView>(e@),
            None => true,
        },
        r is None <==> parsed.had_placeholder && !all_nameable(
            placeholders_of(parsed@),
            args_view(arg_exprs@, named_args@, rest_arg),
        ),
{
    let ghost args = args_view(arg_exprs@, named_args@, rest_arg);
    let n: usize = parsed.fragments.len();
    proof {
        lemma_refs_in_bounds(parsed@, parsed.had_placeholder, args, placeholder_char, indexing);
    }
    if !parsed.had_placeholder {
        if named_args.len() > 0 || rest_arg.is_some() {
            return Some(
                Err(
                    err(
                        0..0,
                        "named or `..rest` arguments were provided but the SQL contains no `{...}` placeholders".to_owned(),
                    ),
                ),
            );
        }
        let sql = concat_literals(parsed);
        let (bindings, origins) = plain_bindings(arg_exprs);
        let out = RewriteOutput {
            describe_sql: sql.clone(),
            runtime_template: RuntimeTemplate::Static(sql),
            bindings,
            origins,
        };
        assert(out@.bindings =~= Seq::new(
            args.positional.len(),
            |i: int| BindingView::Single(args.positional[i]),
        ));
        return Some(Ok(out));
    }
    let has_spread: bool = any_kleene(parsed);

    let mut bindings: Vec<Binding> = Vec::new();
    let mut origins: Vec<Origin> = Vec::new();
    let mut describe_sql = String::new();
    let mut literals: Vec<String> = Vec::new();
    let mut literal = String::new();
    let mut refs: Vec<BindingRef> = Vec::new();
    let ghost ps = placeholders_of(parsed@);
    let ghost mut resolved: Seq<(ExprView, Origin)> = seq![];

    let mut k: usize = 0;
    while k < n
        invariant
            k <= n == parsed.fragments.len(),
            args == args_view(arg_exprs@, named_args@, rest_arg),
            parsed.had_placeholder,
            ps == placeholders_of(parsed@),
            resolved.len() == placeholders_of(parsed@.take(k as int)).len() <= k,
            resolved.len() <= ps.len(),
            placeholders_of(parsed@.take(k as int)) == ps.take(resolved.len() as int),
            resolve_all(ps.take(resolved.len() as int), args) == Ok::<
                Seq<(ExprView, Origin)>,
                RewriteErrorView,
            >(resolved),
            forall|j: int| 0 <= j < resolved.len() ==> nameable(#[trigger] ps[j], args),
            describe_sql@ == native_sql(parsed@.take(k as int), placeholder_char, indexing),
            literals_of(parsed@.take(k as int)) == text_views(literals@).push(literal@),
            binding_views(bindings@) == bindings_of(ps.take(resolved.len() as int), resolved),
            bindings@.len() == resolved.len(),
            origins@ == Seq::new(resolved.len(), |i: int| resolved[i].1),
            refs@ == refs_of(ps.take(resolved.len() as int)),
        decreases parsed.fragments.len() - k,
    {
        let ghost count = resolved.len() as int;
        proof {
            lemma_one_more(parsed@, k as int);
            lemma_placeholders_prefix(parsed@, k + 1);
            assert(parsed@[k as int] == parsed.fragments@[k as int]@);
        }
        match &parsed.fragments[k] {
            Fragment::Literal(s) => {
                describe_sql.append(s.as_str());
                literal.append(s.as_str());
                proof {
                    assert(literals_of(parsed@.take(k + 1)) =~= text_views(literals@).push(
                        literal@,
                    ));
                }
            },
            Fragment::Placeholder(p) => {
                proof {
                    assert(placeholders_of(parsed@.take(k + 1)) == ps.take(count).push(p@));
                    assert(ps.take(count + 1).last() == p@);
                    assert(ps[count] == p@);
                    assert(ps.take(count + 1).drop_last() =~= ps.take(count));
                }
                if let Ident::Named(name) = &p.ident {
                    if find_named(named_args, cow_str(name)).is_none() && !can_be_raw_name(
                        cow_str(name),
                    ) {
                        assert(!nameable(ps[count], args));
                        assert(!all_nameable(ps, args)) by {
                            assert(resolve_all(ps.take(count), args) is Ok);
                        }
                        return None;
                    }
                }
                assert(nameable(p@, args));
                match resolve(p, arg_exprs, named_args, rest_arg) {
                    Err(e) => {
                        proof {
                            assert(resolve_all(ps.take(count + 1), args) == Err::<
                                Seq<(ExprView, Origin)>,
                                RewriteErrorView,
                            >(e@));
                            lemma_error_stays(ps, count + 1, args);
                            lemma_nameable_up_to(ps, count + 1, args);
                        }
                        return Some(Err(e));
                    },
                    Ok((e, origin)) => {
                        write_placeholder(
                            &mut describe_sql,
                            placeholder_char,
                            indexing,
                            bindings.len() + 1,
                        );
                        let (binding, kind) = match p.kleene {
                            None => (Binding::Single(e), BindingRefKind::Single),
                            Some(kleene) => (Binding::Spread(e), BindingRefKind::Spread(kleene)),
                        };
                        let ghost before = resolved;
                        proof {
                            resolved = resolved.push((binding_expr(binding@), origin));
                        }
                        let ghost bindings_before = bindings@;
                        let ghost literals_before = literals@;
                        refs.push(BindingRef { binding_index: bindings.len(), kind });
                        literals.push(literal);
                        literal = String::new();
                        bindings.push(binding);
                        origins.push(origin);
                        proof {
                            assert(binding_views(bindings@) =~= binding_views(bindings_before).push(
                                binding@,
                            ));
                            assert(binding_views(bindings@) =~= bindings_of(
                                ps.take(count + 1),
                                resolved,
                            ));
                            assert(refs@ =~= refs_of(ps.take(count + 1)));
                            assert(origins@ =~= Seq::new(resolved.len(), |i: int| resolved[i].1));
                            assert(text_views(literals@).push(literal@) =~= text_views(
                                literals_before,
                            ).push(literals@.last()@).push(seq![]));
                            assert(native_sql(
                                parsed@.take(k + 1),
                                placeholder_char,
                                indexing,
                            ) =~= describe_sql@);
                        }
                    },
                }
            },
        }
        k += 1;
    }
    proof {
        assert(parsed@.take(k as int) =~= parsed@);
        assert(ps.take(resolved.len() as int) =~= ps);
        lemma_nameable_up_to(ps, ps.len() as int, args);
    }
    let runtime_template = if has_spread {
        let ghost literals_before = literals@;
        literals.push(literal);
        assert(text_views(literals@) =~= text_views(literals_before).push(literal@));
        RuntimeTemplate::Pieces { literals, bindings: refs }
    } else {
        // No spread: describe_sql is exactly the runtime SQL.
        RuntimeTemplate::Static(describe_sql.clone())
    };
    Some(Ok(RewriteOutput { describe_sql, runtime_template, bindings, origins }))
}

/// Resolves the placeholders of a query to bind expressions, and writes native
/// placeholders in their place.
pub fn rewrite(
    parsed: &ParsedQuery<'_>,
    arg_exprs: &[Expr],
    named_args: &[(String, Expr)],
    rest_arg: Option<&Expr>,
    placeholder_char: char,
    indexing: ParamIndexing,
) -> (r: Result<RewriteOutput, RewriteError>)
    requires
        !parsed.had_placeholder ==> !grammar::has_placeholder(parsed@),
        parsed.had_placeholder ==> all_nameable(
            placeholders_of(parsed@),
            args_view(arg_exprs@, named_args@, rest_arg),
        ),
    ensures
        match r {
            Ok(out) => rewrite_meaning(
                parsed@,
                parsed.had_placeholder,
                args_view(arg_exprs@, named_args@, rest_arg),
                placeholder_char,
                indexing,
            ) == Ok::<RewriteView, RewriteErrorView>(out@) && refs_in_bounds(out@),
            Err(e) => rewrite_meaning(
                parsed@,
                parsed.had_placeholder,
                args_view(arg_exprs@, named_args@, rest_arg),
                placeholder_char,
                indexing,
            ) == Err::<RewriteView, RewriteErrorView>(e@),
        },
{
    rewrite_nameable(
        parsed,
        arg_exprs,
        named_args,
        rest_arg,
        placeholder_char,
        indexing,
    ).unwrap()
}

/// Does [`rewrite`] come to no name that cannot be written as the raw
/// identifier that it stands for, such as `self`?
pub fn can_rewrite(
    parsed: &ParsedQuery<'_>,
    arg_exprs: &[Expr],
    named_args: &[(String, Expr)],
    rest_arg: Option<&Expr>,
) -> (r: bool)
    requires
        !parsed.had_placeholder ==> !grammar::has_placeholder(parsed@),
    ensures
        r == (parsed.had_placeholder ==> all_nameable(
            placeholders_of(parsed@),
            args_view(arg_exprs@, named_args@, rest_arg),
        )),
{
    rewrite_nameable(
        parsed,
        arg_exprs,
        named_args,
        rest_arg,
        '?',
        ParamIndexing::Implicit,
    ).is_some()
}

/// Can every name without a named argument be written as a raw identifier?
fn names_can_be_raw(
    parsed: &ParsedQuery<'_>,
    arg_exprs: &[Expr],
    named_args: &[(String, Expr)],
    rest_arg: Option<&Expr>,
) -> (r: bool)
    ensures
        r ==> all_nameable(
            placeholders_of(parsed@),
            args_view(arg_exprs@, named_args@, rest_arg),
        ),
{
    let ghost args = args_view(arg_exprs@, named_args@, rest_arg);
    let n: usize = parsed.fragments.len();
    let mut k: usize = 0;
    assert(parsed@.take(0) =~= seq![]);
    while k < n
        invariant
            k <= n == parsed.fragments@.len(),
            args.named == named_views(named_args@),
            forall|j: int|
                0 <= j < placeholders_of(parsed@.take(k as int)).len() ==> nameable(
                    #[trigger] placeholders_of(parsed@.take(k as int))[j],
                    args,
                ),
        decreases n - k,
    {
        proof {
            lemma_one_more(parsed@, k as int);
        }
        let ghost before = placeholders_of(parsed@.take(k as int));
        if let Fragment::Placeholder(p) = &parsed.fragments[k] {
            assert(placeholders_of(parsed@.take(k + 1)) == before.push(p@));
            if let Ident::Named(name) = &p.ident {
                let name: &str = cow_str(name);
                if find_named(named_args, name).is_none() && !can_be_raw_name(name) {
                    return false;
                }
            }
        }
        k += 1;
    }
    proof {
        assert(parsed@.take(k as int) =~= parsed@);
        lemma_nameable_up_to(
            placeholders_of(parsed@),
            placeholders_of(parsed@).len() as int,
            args,
        );
    }
    true
}

/// [`rewrite`], or `None` where [`can_rewrite`] does not hold.
pub fn try_rewrite(
    parsed: &ParsedQuery<'_>,
    arg_exprs: &[Expr],
    named_args: &[(String, Expr)],
    rest_arg: Option<&Expr>,
    placeholder_char: char,
    indexing: ParamIndexing,
) -> (r: Option<Result<RewriteOutput, RewriteError>>)
    requires
        !parsed.had_placeholder ==> !grammar::has_placeholder(parsed@),
    ensures
        match r {
            Some(Ok(out)) => rewrite_meaning(
                parsed@,
                parsed.had_placeholder,
                args_view(arg_exprs@, named_args@, rest_arg),
                placeholder_char,
                indexing,
            ) == Ok::<RewriteView, RewriteErrorView>(out@) && refs_in_bounds(out@),
            Some(Err(e)) => rewrite_meaning(
                parsed@,
                parsed.had_placeholder,
                args_view(arg_exprs@, named_args@, rest_arg),
                placeholder_char,
                indexing,
            ) == Err::<RewriteView, RewriteErrorView>(e@),
            None => true,
        },
        r is None <==> parsed.had_placeholder && !all_nameable(
            placeholders_of(parsed@),
            args_view(arg_exprs@, named_args@, rest_arg),
        ),
{
    if names_can_be_raw(parsed, arg_exprs, named_args, rest_arg) {
        Some(rewrite(parsed, arg_exprs, named_args, rest_arg, placeholder_char, indexing))
    } else {
        // An error before the first such name may keep it from being reached.
        rewrite_nameable(parsed, arg_exprs, named_args, rest_arg, placeholder_char, indexing)
    }
}

} // verus!
