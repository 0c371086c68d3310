//! What the values of the library stand for: each view shows all of a value, and
//! a list by its items in their order.
use crate::args;
use crate::args::{Local, PieceStep, PieceStepView};
use crate::expr::{Expr, ExprView, FieldAccess, FieldAccessView};
use crate::grammar::{FragmentView, IdentView};
use crate::placeholders::{Fragment, Ident, ParsedQuery, Placeholder};
use crate::query_interp::{Bound, BoundView};
use crate::rewrite;
use crate::rewrite::{Binding, BindingView, RewriteOutput, RuntimeTemplate, TemplateView};
use crate::spans;
use crate::spans::SpannedToken;
use crate::tokens::{Token, TokenView};
use vstd::prelude::*;

verus! {

/// A parsed query stands for its fragments in their order.
pub proof fn law_parsed_view(q: ParsedQuery<'_>, i: int)
    requires
        0 <= i < q.fragments@.len(),
    ensures
        q@.len() == q.fragments@.len(),
        match q.fragments@[i] {
            Fragment::Literal(s) => q@[i] == FragmentView::Literal(s@),
            Fragment::Placeholder(p) => q@[i] matches FragmentView::Placeholder(v) && v.start
                == p.token.start && v.end == p.token.end && v.kleene == p.kleene && match p.ident {
                Ident::Positional(n) => v.ident == IdentView::Positional(n as nat),
                Ident::Named(name) => v.ident == IdentView::Named(name@),
                Ident::Expr(t) => v.ident == IdentView::Expr(t@),
            },
        },
{
}

/// It is told of a parsed query whether it has placeholders.
pub proof fn law_had_placeholder(q: ParsedQuery<'_>)
    requires
        q.well_formed(),
    ensures
        q.had_placeholder <==> exists|i: int|
            0 <= i < q.fragments@.len() && (#[trigger] q.fragments@[i]) is Placeholder,
{
    if q.had_placeholder {
        let i = choose|i: int| 0 <= i < q@.len() && (#[trigger] q@[i]) is Placeholder;
        assert(q.fragments@[i] is Placeholder);
    }
    if exists|i: int| 0 <= i < q.fragments@.len() && (#[trigger] q.fragments@[i]) is Placeholder {
        let i = choose|i: int|
            0 <= i < q.fragments@.len() && (#[trigger] q.fragments@[i]) is Placeholder;
        assert(q@[i] is Placeholder);
    }
}

/// A binding stands for its value, or for all of its values.
pub proof fn law_bound_view<V>(b: Bound<V>)
    ensures
        match b {
            Bound::Single(value) => b@ == BoundView::Single(value),
            Bound::Spread(values) => b@ == BoundView::Spread(values@),
        },
{
}

/// What became of a query stands for its texts, and for its bindings and their
/// origins in their order.
pub proof fn law_rewrite_view(out: RewriteOutput, i: int)
    ensures
        out@.describe_sql == out.describe_sql@,
        out@.origins == out.origins@,
        out@.bindings.len() == out.bindings@.len(),
        0 <= i < out.bindings@.len() ==> match out.bindings@[i] {
            Binding::Single(e) => out@.bindings[i] == BindingView::Single(e@),
            Binding::Spread(e) => out@.bindings[i] == BindingView::Spread(e@),
        },
        match out.runtime_template {
            RuntimeTemplate::Static(sql) => out@.runtime_template == TemplateView::Static(sql@),
            RuntimeTemplate::Pieces { literals, bindings } => {
                &&& out@.runtime_template is Pieces
                &&& out@.runtime_template->bindings == bindings@
                &&& out@.runtime_template->literals.len() == literals@.len()
                &&& 0 <= i < literals@.len() ==> out@.runtime_template->literals[i] == literals@[i]@
            },
        },
{
}

/// An expression stands for itself.
pub proof fn law_expr_view(e: Expr)
    ensures
        match e {
            Expr::Lit(s) => e@ == ExprView::Lit(s@),
            Expr::Path(s) => e@ == ExprView::Path(s@),
            Expr::MethodCall(s) => e@ == ExprView::MethodCall(s@),
            Expr::Field(FieldAccess::Written(s)) => e@ == ExprView::Field(
                FieldAccessView::Written(s@),
            ),
            Expr::Field(FieldAccess::Of(base, member)) => e@ == ExprView::Field(
                FieldAccessView::Of(Box::new((*base)@), member@),
            ),
            Expr::Cast(s, ty) => e@ == ExprView::Cast(s@, ty),
            Expr::Operand(s) => e@ == ExprView::Operand(s@),
            Expr::Group(inner) => e@ == ExprView::Group(Box::new((*inner)@)),
            Expr::Other(s) => e@ == ExprView::Other(s@),
        },
{
}

/// Arguments stand for themselves, in their order.
pub proof fn law_args_view(
    positional: Seq<Expr>,
    named: Seq<(String, Expr)>,
    rest: Option<&Expr>,
    i: int,
)
    ensures
        ({
            let view = rewrite::args_view(positional, named, rest);
            &&& view.positional.len() == positional.len()
            &&& 0 <= i < positional.len() ==> view.positional[i] == positional[i]@
            &&& view.named.len() == named.len()
            &&& 0 <= i < named.len() ==> view.named[i] == (named[i].0@, named[i].1@)
            &&& view.rest is Some <==> rest is Some
            &&& rest is Some ==> view.rest == Some((*rest->0)@)
        }),
{
}

/// Locals and steps stand for themselves, in their order.
pub proof fn law_plan_views(locals: Seq<Local>, steps: Seq<PieceStep>, i: int)
    ensures
        args::local_views(locals).len() == locals.len(),
        0 <= i < locals.len() ==> args::local_views(locals)[i].name == locals[i].name@
            && args::local_views(locals)[i].expr == locals[i].expr@ && args::local_views(
            locals,
        )[i].check == locals[i].check@,
        args::step_views(steps).len() == steps.len(),
        0 <= i < steps.len() ==> match steps[i] {
            PieceStep::Text(s) => args::step_views(steps)[i] == PieceStepView::Text(s@),
            PieceStep::One(name) => args::step_views(steps)[i] == PieceStepView::One(name@),
            PieceStep::Many(name, kleene) => args::step_views(steps)[i] == PieceStepView::Many(
                name@,
                kleene,
            ),
        },
{
}

/// A token stands for itself, and a group for its tokens in their order.
pub proof fn law_token_view(t: Token)
    ensures
        match t {
            Token::Ident(s) => t@ == TokenView::Ident(s@),
            Token::Punct(c, joint) => t@ == TokenView::Punct(c, joint),
            Token::Literal(s) => t@ == TokenView::Literal(s@),
            Token::Group(d, ts) => t@ matches TokenView::Group(e, views) && e == d && views.len()
                == ts@.len() && forall|i: int|
                0 <= i < ts@.len() ==> #[trigger] views[i] == ts@[i]@,
        },
{
}

/// A token with a span stands for the token without it, and its span is that of
/// all that is in it if it is said to be.
pub proof fn law_spanned_view<S>(t: SpannedToken<S>, span: S)
    ensures
        match t {
            SpannedToken::Ident(s, at) => spans::spanned_view(t) == TokenView::Ident(s@) && (
            spans::spanned_by(t, span) <==> at == span),
            SpannedToken::Punct(c, joint, at) => spans::spanned_view(t) == TokenView::Punct(
                c,
                joint,
            ) && (spans::spanned_by(t, span) <==> at == span),
            SpannedToken::Literal(s, at) => spans::spanned_view(t) == TokenView::Literal(s@) && (
            spans::spanned_by(t, span) <==> at == span),
            SpannedToken::Group(d, ts, at) => {
                &&& spans::spanned_view(t) is Group
                &&& spans::spanned_view(t)->Group_0 == d
                &&& spans::spanned_view(t)->Group_1 == spans::spanned_views(ts@)
                &&& spans::spanned_by(t, span) <==> at == span && forall|i: int|
                    0 <= i < ts@.len() ==> spans::spanned_by(#[trigger] ts@[i], span)
            },
        },
{
    if let SpannedToken::Group(d, ts, at) = t {
        assert(spans::spanned_view(t)->Group_1 =~= spans::spanned_views(ts@));
        lemma_all_spanned(ts@, span);
    }
}

proof fn lemma_all_spanned<S>(ts: Seq<SpannedToken<S>>, span: S)
    ensures
        spans::all_spanned_by(ts, span) <==> forall|i: int|
            0 <= i < ts.len() ==> spans::spanned_by(#[trigger] ts[i], span),
    decreases ts.len(),
{
    if ts.len() > 0 {
        let front = ts.drop_last();
        lemma_all_spanned(front, span);
        assert(ts.last() == ts[ts.len() - 1]);
        assert forall|i: int| 0 <= i < front.len() implies #[trigger] front[i] == ts[i] by {}
        if spans::all_spanned_by(ts, span) {
            assert forall|i: int| 0 <= i < ts.len() implies spans::spanned_by(
                #[trigger] ts[i],
                span,
            ) by {
                if i < front.len() {
                    assert(front[i] == ts[i]);
                }
            }
        }
    }
}

/// All tokens have a span if each of them, with all that is in it, has.
pub proof fn law_all_spanned<S>(ts: Seq<SpannedToken<S>>, span: S)
    ensures
        spans::all_spanned_by(ts, span) <==> forall|i: int|
            0 <= i < ts.len() ==> spans::spanned_by(#[trigger] ts[i], span),
        spans::spanned_views(ts).len() == ts.len(),
        forall|i: int|
            0 <= i < ts.len() ==> #[trigger] spans::spanned_views(ts)[i] == spans::spanned_view(
                ts[i],
            ),
{
    lemma_all_spanned(ts, span);
}

} // verus!
