//! What holds of every query that a macro expands.
use crate::args;
use crate::args::{PieceStepView, SetupView, SqlExprView, TypeCheckView, Warnings};
use crate::database;
use crate::database::{Arguments, ParamIndexing};
use crate::expr;
use crate::expr::{CastType, ExprView, FieldAccessView};
use crate::grammar;
use crate::grammar::{FragmentView, IdentView, ParseErrorView, PlaceholderView};
use crate::input::QueryMacroInputView;
use crate::parse_laws;
use crate::query_interp;
use crate::query_interp::{BoundView, Emitted, Unused};
use crate::rewrite;
use crate::rewrite::{ArgsView, BindingView, RewriteView, TemplateView};
use crate::text;
use vstd::prelude::*;

verus! {

// -- The shape of what is rewritten ---------------------------------------

/// There is one binding for each placeholder, and a spread for each that has a
/// marker. With a spread the SQL text is pieced together at run time, out of the
/// bindings in their order and one literal more; without one it is the text
/// that the database describes.
pub proof fn law_one_binding_each(
    fragments: Seq<FragmentView>,
    args: ArgsView,
    ch: char,
    indexing: ParamIndexing,
)
    requires
        fragments.len() <= usize::MAX,
    ensures
        rewrite::rewrite_placeholders(fragments, args, ch, indexing) matches Ok(out) ==> {
            let ps = rewrite::placeholders_of(fragments);
            &&& out.bindings.len() == ps.len()
            &&& out.origins.len() == ps.len()
            &&& forall|i: int|
                0 <= i < ps.len() ==> ((#[trigger] out.bindings[i]) is Spread
                    <==> ps[i].kleene is Some)
            &&& rewrite::any_spread(out.bindings) <==> out.runtime_template is Pieces
            &&& match out.runtime_template {
                TemplateView::Static(sql) => sql == out.describe_sql,
                TemplateView::Pieces { literals, bindings } => {
                    &&& literals.len() == out.bindings.len() + 1
                    &&& bindings.len() == out.bindings.len()
                    &&& forall|i: int|
                        0 <= i < bindings.len() ==> (#[trigger] bindings[i]).binding_index == i
                            && bindings[i].kind == rewrite::kind_of(ps[i].kleene)
                },
            }
        },
{
    let ps = rewrite::placeholders_of(fragments);
    rewrite::lemma_placeholder_count(fragments);
    if let Ok(out) = rewrite::rewrite_placeholders(fragments, args, ch, indexing) {
        if rewrite::spreads(ps) {
            let i = choose|i: int| 0 <= i < ps.len() && (#[trigger] ps[i]).kleene is Some;
            assert(out.bindings[i] is Spread);
        }
        if rewrite::any_spread(out.bindings) {
            let i = choose|i: int|
                0 <= i < out.bindings.len() && (#[trigger] out.bindings[i]) is Spread;
            assert(ps[i].kleene is Some);
        }
    }
}

/// The literals, with the native placeholders `1`, `2` and so on between them.
pub open spec fn woven(literals: Seq<Seq<char>>, ch: char, indexing: ParamIndexing) -> Seq<char>
    decreases literals.len(),
{
    if literals.len() == 0 {
        seq![]
    } else if literals.len() == 1 {
        literals[0]
    } else {
        woven(literals.drop_last(), ch, indexing) + database::native_placeholder(
            ch,
            indexing,
            (literals.len() - 1) as nat,
        ) + literals.last()
    }
}

/// The text that the database describes is made up of the literals, which hold
/// no native placeholders of the bindings, with one native placeholder for each
/// binding between them.
pub proof fn law_described_sql_is_woven(
    fragments: Seq<FragmentView>,
    ch: char,
    indexing: ParamIndexing,
)
    ensures
        rewrite::native_sql(fragments, ch, indexing) == woven(
            rewrite::literals_of(fragments),
            ch,
            indexing,
        ),
    decreases fragments.len(),
{
    let literals = rewrite::literals_of(fragments);
    if fragments.len() > 0 {
        let front = fragments.drop_last();
        let before = rewrite::literals_of(front);
        law_described_sql_is_woven(front, ch, indexing);
        rewrite::lemma_placeholder_count(front);
        match fragments.last() {
            FragmentView::Literal(s) => {
                assert(literals.drop_last() =~= before.drop_last());
                assert(rewrite::native_sql(fragments, ch, indexing) =~= woven(
                    literals,
                    ch,
                    indexing,
                ));
            },
            FragmentView::Placeholder(_) => {
                assert(literals.drop_last() =~= before);
                assert(literals.last() =~= seq![]);
                assert(rewrite::native_sql(fragments, ch, indexing) =~= woven(
                    literals,
                    ch,
                    indexing,
                ));
            },
        }
    }
}

/// A query without braces is rewritten to itself, and its positional arguments
/// are bound in order. Named arguments and `..rest` are rejected: nothing could
/// refer to them.
pub proof fn law_native_query_stays(
    sql: Seq<char>,
    args: ArgsView,
    ch: char,
    indexing: ParamIndexing,
)
    requires
        forall|i: int| 0 <= i < sql.len() ==> #[trigger] sql[i] != '{' && sql[i] != '}',
    ensures
        ({
            let fragments = parse_laws::one_literal(sql);
            &&& grammar::parse_meaning(sql) == Ok::<_, ParseErrorView>(fragments)
            &&& match rewrite::rewrite_meaning(fragments, false, args, ch, indexing) {
                Ok(out) => {
                    &&& args.named.len() == 0 && args.rest is None
                    &&& out.describe_sql == sql
                    &&& out.runtime_template == TemplateView::Static(sql)
                    &&& out.bindings == Seq::new(
                        args.positional.len(),
                        |i: int| BindingView::Single(args.positional[i]),
                    )
                },
                Err(_) => args.named.len() > 0 || args.rest is Some,
            }
        }),
{
    parse_laws::law_text_without_braces(sql);
    let fragments = parse_laws::one_literal(sql);
    if sql.len() > 0 {
        assert(fragments.drop_last() =~= seq![]);
        assert(rewrite::literals_of(Seq::<FragmentView>::empty()) =~= seq![Seq::<char>::empty()]);
        assert(rewrite::literals_of(fragments)[0] =~= sql);
    } else {
        assert(rewrite::literals_of(fragments)[0] =~= sql);
    }
}

// -- What names resolve to ------------------------------------------------

/// Is there an argument with the given name?
pub open spec fn is_given(named: Seq<(Seq<char>, ExprView)>, name: Seq<char>) -> bool {
    exists|i: int| 0 <= i < named.len() && (#[trigger] named[i]).0 == name
}

proof fn lemma_last_named(named: Seq<(Seq<char>, ExprView)>, name: Seq<char>)
    ensures
        match rewrite::last_named(named, name) {
            Some(i) => 0 <= i < named.len() && named[i].0 == name && forall|j: int|
                i < j < named.len() ==> (#[trigger] named[j]).0 != name,
            None => !is_given(named, name),
        },
    decreases named.len(),
{
    if named.len() > 0 && named.last().0 != name {
        let front = named.drop_last();
        lemma_last_named(front, name);
        if rewrite::last_named(front, name) is None && is_given(named, name) {
            let i = choose|i: int| 0 <= i < named.len() && (#[trigger] named[i]).0 == name;
            assert(front[i].0 == name);
        }
        if let Some(i) = rewrite::last_named(front, name) {
            assert forall|j: int| i < j < named.len() implies (#[trigger] named[j]).0 != name by {
                if j < front.len() {
                    assert(front[j] == named[j]);
                }
            }
        }
    }
}

/// A name means the argument that was given for it, the last one if there are
/// more; else a field of `..rest`, if there is one; else a variable in scope.
/// It always means something.
pub proof fn law_name_precedence(p: PlaceholderView, name: Seq<char>, args: ArgsView)
    requires
        p.ident == IdentView::Named(name),
    ensures
        rewrite::resolve_meaning(p, args) matches Ok((e, origin)) && {
            &&& is_given(args.named, name) ==> exists|i: int|
                0 <= i < args.named.len() && (#[trigger] args.named[i]) == (name, e) && forall|
                    j: int,
                |
                    i < j < args.named.len() ==> (#[trigger] args.named[j]).0 != name
            &&& !is_given(args.named, name) && args.rest is Some ==> e == ExprView::Field(
                FieldAccessView::Of(Box::new(args.rest->0), "r#"@ + name),
            )
            &&& !is_given(args.named, name) && args.rest is None ==> e == ExprView::Path(
                "r#"@ + name,
            )
        },
{
    lemma_last_named(args.named, name);
    if let Some(i) = rewrite::last_named(args.named, name) {
        assert(args.named[i] == (name, args.named[i].1));
        assert(is_given(args.named, name));
    }
}

/// Placeholders that refer to the same argument get the same expression,
/// however often they come.
pub proof fn law_repeated_reference(p: PlaceholderView, q: PlaceholderView, args: ArgsView)
    requires
        p.ident == q.ident,
    ensures
        match (rewrite::resolve_meaning(p, args), rewrite::resolve_meaning(q, args)) {
            (Ok((e, _)), Ok((f, _))) => e == f,
            (Err(e), Err(f)) => e.message == f.message,
            _ => false,
        },
{
}

/// Every name in a query that was parsed can be written as a raw identifier,
/// but for the five that no raw identifier has.
pub proof fn law_names_are_nameable(sql: Seq<char>, k: int)
    ensures
        grammar::parse_meaning(sql) matches Ok(fragments) ==> 0 <= k < fragments.len() ==> ((
        fragments[k] matches FragmentView::Placeholder(p) && p.ident matches IdentView::Named(name)
            && name != "_"@ && name != "self"@ && name != "Self"@ && name != "super"@ && name
            != "crate"@) ==> rewrite::can_be_raw(
            fragments[k]->Placeholder_0.ident->Named_0,
        )),
{
    parse_laws::law_placeholders_in_place(sql);
}

// -- Macro and run-time builder -------------------------------------------

/// Emits the fragments, with `bounds[k]` for the `k`-th placeholder.
pub open spec fn emit_all<A: Arguments>(
    fragments: Seq<FragmentView>,
    bounds: Seq<BoundView<A::Value>>,
    k: int,
    out: Emitted<A::Value>,
) -> Result<Emitted<A::Value>, Seq<char>>
    decreases fragments.len(),
{
    if fragments.len() == 0 {
        Ok(out)
    } else {
        match fragments[0] {
            FragmentView::Literal(s) => emit_all::<A>(
                fragments.drop_first(),
                bounds,
                k,
                Emitted { sql: out.sql + s, values: out.values },
            ),
            FragmentView::Placeholder(p) => match query_interp::emit_meaning::<A>(
                out,
                bounds[k],
                p.kleene,
                seq![],
            ) {
                Err(message) => Err(message),
                Ok(next) => emit_all::<A>(fragments.drop_first(), bounds, k + 1, next),
            },
        }
    }
}

/// The native placeholders of the database are those that arguments get.
pub open spec fn writes<A: Arguments>(ch: char, indexing: ParamIndexing) -> bool {
    forall|n: nat|
        n > 0 ==> #[trigger] A::placeholder(n) == database::native_placeholder(ch, indexing, n)
}

/// The native SQL behind some fragments, of which `n` are placeholders.
spec fn native_tail(
    fragments: Seq<FragmentView>,
    ch: char,
    indexing: ParamIndexing,
    n: nat,
) -> Seq<char>
    decreases fragments.len(),
{
    if fragments.len() == 0 {
        seq![]
    } else {
        match fragments[0] {
            FragmentView::Literal(s) => s + native_tail(fragments.drop_first(), ch, indexing, n),
            FragmentView::Placeholder(_) => database::native_placeholder(ch, indexing, n + 1)
                + native_tail(fragments.drop_first(), ch, indexing, n + 1),
        }
    }
}

proof fn lemma_native_tail(
    before: Seq<FragmentView>,
    fragments: Seq<FragmentView>,
    ch: char,
    indexing: ParamIndexing,
)
    ensures
        rewrite::native_sql(before + fragments, ch, indexing) == rewrite::native_sql(
            before,
            ch,
            indexing,
        ) + native_tail(fragments, ch, indexing, rewrite::placeholders_of(before).len()),
    decreases fragments.len(),
{
    if fragments.len() == 0 {
        assert(before + fragments =~= before);
        assert(rewrite::native_sql(before, ch, indexing) + Seq::<char>::empty()
            =~= rewrite::native_sql(before, ch, indexing));
    } else {
        let more = before.push(fragments[0]);
        lemma_native_tail(more, fragments.drop_first(), ch, indexing);
        assert(more + fragments.drop_first() =~= before + fragments);
        assert(more.drop_last() =~= before);
        assert(rewrite::native_sql(before + fragments, ch, indexing) =~= rewrite::native_sql(
            before,
            ch,
            indexing,
        ) + native_tail(fragments, ch, indexing, rewrite::placeholders_of(before).len()));
    }
}

proof fn lemma_emit_singles<A: Arguments>(
    fragments: Seq<FragmentView>,
    unused: Unused<A::Value>,
    out: Emitted<A::Value>,
    ch: char,
    indexing: ParamIndexing,
)
    requires
        writes::<A>(ch, indexing),
        !rewrite::spreads(rewrite::placeholders_of(fragments)),
    ensures
        query_interp::fragments_meaning::<A>(fragments, unused, out) matches Ok(e) ==> e.sql
            == out.sql + native_tail(fragments, ch, indexing, out.values.len()),
    decreases fragments.len(),
{
    if fragments.len() == 0 {
        assert(out.sql + Seq::<char>::empty() =~= out.sql);
    } else {
        let rest = fragments.drop_first();
        lemma_first_placeholder(fragments);
        match fragments[0] {
            FragmentView::Literal(s) => {
                let next = Emitted { sql: out.sql + s, values: out.values };
                lemma_emit_singles::<A>(rest, unused, next, ch, indexing);
                if let Ok(e) = query_interp::fragments_meaning::<A>(fragments, unused, out) {
                    assert(e.sql =~= out.sql + native_tail(
                        fragments,
                        ch,
                        indexing,
                        out.values.len(),
                    ));
                }
            },
            FragmentView::Placeholder(p) => {
                if let Ok((bound, name, left)) = query_interp::take_meaning(unused, p.ident) {
                    if let Ok(next) = query_interp::emit_meaning::<A>(out, bound, p.kleene, name) {
                        lemma_emit_singles::<A>(rest, left, next, ch, indexing);
                        if let Ok(e) = query_interp::fragments_meaning::<A>(
                            fragments,
                            unused,
                            out,
                        ) {
                            assert(e.sql =~= out.sql + native_tail(
                                fragments,
                                ch,
                                indexing,
                                out.values.len(),
                            ));
                        }
                    }
                }
            },
        }
    }
}

/// The placeholders of fragments are that of the first, if it is one, and
/// those of the others.
proof fn lemma_first_placeholder(fragments: Seq<FragmentView>)
    requires
        fragments.len() > 0,
    ensures
        rewrite::placeholders_of(fragments) == (match fragments[0] {
            FragmentView::Literal(_) => Seq::<PlaceholderView>::empty(),
            FragmentView::Placeholder(p) => seq![p],
        }) + rewrite::placeholders_of(fragments.drop_first()),
        rewrite::spreads(rewrite::placeholders_of(fragments)) <==> (
        fragments[0] matches FragmentView::Placeholder(p) && p.kleene is Some) || rewrite::spreads(
            rewrite::placeholders_of(fragments.drop_first()),
        ),
    decreases fragments.len(),
{
    let rest = fragments.drop_first();
    let first: Seq<PlaceholderView> = match fragments[0] {
        FragmentView::Literal(_) => Seq::empty(),
        FragmentView::Placeholder(p) => seq![p],
    };
    let ps = rewrite::placeholders_of(fragments);
    let tail = rewrite::placeholders_of(rest);
    if fragments.len() == 1 {
        assert(fragments.drop_last() =~= seq![]);
        assert(rest =~= seq![]);
        assert(ps =~= first + tail);
    } else {
        let front = fragments.drop_last();
        lemma_first_placeholder(front);
        assert(front.drop_first() =~= rest.drop_last());
        assert(rest.last() == fragments.last());
        assert(ps =~= first + tail);
    }
    if rewrite::spreads(ps) {
        let i = choose|i: int| 0 <= i < ps.len() && (#[trigger] ps[i]).kleene is Some;
        if i >= first.len() {
            assert(tail[i - first.len()] == ps[i]);
        }
    }
    if rewrite::spreads(tail) {
        let i = choose|i: int| 0 <= i < tail.len() && (#[trigger] tail[i]).kleene is Some;
        assert(ps[first.len() + i] == tail[i]);
    }
    if first.len() > 0 && first[0].kleene is Some {
        assert(ps[0] == first[0]);
    }
}

/// Without spreads, the SQL text that a macro has when it is compiled is the one
/// that the builder would build at run time.
pub proof fn law_static_sql_is_built_sql<A: Arguments>(
    fragments: Seq<FragmentView>,
    unused: Unused<A::Value>,
    ch: char,
    indexing: ParamIndexing,
)
    requires
        writes::<A>(ch, indexing),
        !rewrite::spreads(rewrite::placeholders_of(fragments)),
    ensures
        query_interp::fragments_meaning::<A>(
            fragments,
            unused,
            Emitted { sql: seq![], values: seq![] },
        ) matches Ok(e) ==> e.sql == rewrite::native_sql(fragments, ch, indexing),
{
    let nothing = Emitted { sql: Seq::<char>::empty(), values: Seq::<A::Value>::empty() };
    lemma_emit_singles::<A>(fragments, unused, nothing, ch, indexing);
    lemma_native_tail(seq![], fragments, ch, indexing);
    assert(Seq::<FragmentView>::empty() + fragments =~= fragments);
    assert(Seq::<char>::empty() + native_tail(fragments, ch, indexing, 0) =~= native_tail(
        fragments,
        ch,
        indexing,
        0,
    ));
}

/// Takes the steps of a plan, where `env` tells the values of its locals.
pub open spec fn run_steps<A: Arguments>(
    steps: Seq<PieceStepView>,
    env: spec_fn(Seq<char>) -> BoundView<A::Value>,
    out: Emitted<A::Value>,
) -> Result<Emitted<A::Value>, Seq<char>>
    decreases steps.len(),
{
    if steps.len() == 0 {
        Ok(out)
    } else {
        match run_steps::<A>(steps.drop_last(), env, out) {
            Err(message) => Err(message),
            Ok(next) => match steps.last() {
                PieceStepView::Text(s) => Ok(
                    Emitted { sql: next.sql + s, values: next.values },
                ),
                PieceStepView::One(name) => query_interp::emit_meaning::<A>(
                    next,
                    env(name),
                    None,
                    seq![],
                ),
                PieceStepView::Many(name, kleene) => query_interp::emit_meaning::<A>(
                    next,
                    env(name),
                    Some(kleene),
                    seq![],
                ),
            },
        }
    }
}

/// Emits the fragments, taken apart at their end.
spec fn emit_back<A: Arguments>(
    fragments: Seq<FragmentView>,
    bounds: Seq<BoundView<A::Value>>,
    out: Emitted<A::Value>,
) -> Result<Emitted<A::Value>, Seq<char>>
    decreases fragments.len(),
{
    if fragments.len() == 0 {
        Ok(out)
    } else {
        match emit_back::<A>(fragments.drop_last(), bounds, out) {
            Err(message) => Err(message),
            Ok(next) => match fragments.last() {
                FragmentView::Literal(s) => Ok(
                    Emitted { sql: next.sql + s, values: next.values },
                ),
                FragmentView::Placeholder(p) => query_interp::emit_meaning::<A>(
                    next,
                    bounds[rewrite::placeholders_of(fragments).len() - 1],
                    p.kleene,
                    seq![],
                ),
            },
        }
    }
}

proof fn lemma_emit_back<A: Arguments>(
    before: Seq<FragmentView>,
    fragments: Seq<FragmentView>,
    bounds: Seq<BoundView<A::Value>>,
    out: Emitted<A::Value>,
)
    ensures
        emit_back::<A>(before + fragments, bounds, out) == match emit_back::<A>(
            before,
            bounds,
            out,
        ) {
            Err(message) => Err(message),
            Ok(next) => emit_all::<A>(
                fragments,
                bounds,
                rewrite::placeholders_of(before).len() as int,
                next,
            ),
        },
    decreases fragments.len(),
{
    if fragments.len() == 0 {
        assert(before + fragments =~= before);
    } else {
        let more = before.push(fragments[0]);
        assert(more.drop_last() =~= before);
        assert(more + fragments.drop_first() =~= before + fragments);
        lemma_emit_back::<A>(more, fragments.drop_first(), bounds, out);
    }
}

/// The steps for the first literals depend on the first references alone.
proof fn lemma_steps_prefix(
    literals: Seq<Seq<char>>,
    refs: Seq<rewrite::BindingRef>,
    more_literals: Seq<Seq<char>>,
    more_refs: Seq<rewrite::BindingRef>,
    names: Seq<Seq<char>>,
    n: nat,
)
    requires
        n <= literals.len(),
        n <= more_literals.len(),
        n <= refs.len(),
        n <= more_refs.len(),
        literals.take(n as int) == more_literals.take(n as int),
        refs.take(n as int) == more_refs.take(n as int),
    ensures
        args::steps_of(literals, refs, names, n) == args::steps_of(
            more_literals,
            more_refs,
            names,
            n,
        ),
    decreases n,
{
    if n > 0 {
        let k = (n - 1) as nat;
        assert(literals.take(k as int) =~= literals.take(n as int).take(k as int));
        assert(more_literals.take(k as int) =~= more_literals.take(n as int).take(k as int));
        assert(refs.take(k as int) =~= refs.take(n as int).take(k as int));
        assert(more_refs.take(k as int) =~= more_refs.take(n as int).take(k as int));
        lemma_steps_prefix(literals, refs, more_literals, more_refs, names, k);
        assert(literals[n - 1] == literals.take(n as int)[n - 1]);
        assert(more_literals[n - 1] == more_literals.take(n as int)[n - 1]);
        assert(refs[n - 1] == refs.take(n as int)[n - 1]);
        assert(more_refs[n - 1] == more_refs.take(n as int)[n - 1]);
    }
}

/// The locals with these names have these values.
pub open spec fn binds<V>(
    env: spec_fn(Seq<char>) -> BoundView<V>,
    names: Seq<Seq<char>>,
    bounds: Seq<BoundView<V>>,
) -> bool {
    names.len() == bounds.len() && forall|i: int|
        0 <= i < names.len() ==> env(#[trigger] names[i]) == bounds[i]
}

proof fn lemma_run_steps<A: Arguments>(
    fragments: Seq<FragmentView>,
    names: Seq<Seq<char>>,
    bounds: Seq<BoundView<A::Value>>,
    env: spec_fn(Seq<char>) -> BoundView<A::Value>,
    out: Emitted<A::Value>,
)
    requires
        fragments.len() <= usize::MAX,
        binds(env, names, bounds),
        rewrite::placeholders_of(fragments).len() <= names.len(),
    ensures
        run_steps::<A>(
            args::steps_of(
                rewrite::literals_of(fragments),
                rewrite::refs_of(rewrite::placeholders_of(fragments)),
                names,
                rewrite::literals_of(fragments).len(),
            ),
            env,
            out,
        ) == emit_back::<A>(fragments, bounds, out),
    decreases fragments.len(),
{
    let literals = rewrite::literals_of(fragments);
    let ps = rewrite::placeholders_of(fragments);
    let refs = rewrite::refs_of(ps);
    let n = literals.len();
    rewrite::lemma_placeholder_count(fragments);
    let steps = args::steps_of(literals, refs, names, n);
    let before_last = args::steps_of(literals, refs, names, (n - 1) as nat);
    assert(steps == before_last.push(PieceStepView::Text(literals[n - 1])));
    assert(steps.drop_last() =~= before_last);
    if fragments.len() == 0 {
        assert(before_last =~= seq![]);
        assert(out.sql + Seq::<char>::empty() =~= out.sql);
        reveal_with_fuel(run_steps, 2);
    } else {
        let front = fragments.drop_last();
        let f_literals = rewrite::literals_of(front);
        let f_ps = rewrite::placeholders_of(front);
        let f_refs = rewrite::refs_of(f_ps);
        let m = f_literals.len();
        rewrite::lemma_placeholder_count(front);
        lemma_run_steps::<A>(front, names, bounds, env, out);
        let f_steps = args::steps_of(f_literals, f_refs, names, m);
        let f_before = args::steps_of(f_literals, f_refs, names, (m - 1) as nat);
        assert(f_steps == f_before.push(PieceStepView::Text(f_literals[m - 1])));
        assert(f_steps.drop_last() =~= f_before);
        match fragments.last() {
            FragmentView::Literal(s) => {
                assert(literals.take(m - 1) =~= f_literals.take(m - 1));
                assert(refs =~= f_refs);
                lemma_steps_prefix(literals, refs, f_literals, f_refs, names, (m - 1) as nat);
                assert(literals.last() == f_literals.last() + s);
                if let Ok(e) = run_steps::<A>(f_before, env, out) {
                    assert(e.sql + (f_literals.last() + s) =~= e.sql + f_literals.last() + s);
                }
            },
            FragmentView::Placeholder(p) => {
                assert(ps == f_ps.push(p));
                assert(literals.take(m - 1) =~= f_literals.take(m - 1));
                assert(refs.take(m - 1) =~= f_refs.take(m - 1));
                lemma_steps_prefix(literals, refs, f_literals, f_refs, names, (m - 1) as nat);
                assert(args::steps_of(literals, refs, names, (m - 1) as nat) == f_before);
                let with_text = f_before.push(PieceStepView::Text(literals[m - 1]));
                assert(literals[m - 1] == f_literals[m - 1]);
                assert(refs[m - 1].binding_index == (m - 1) as usize);
                let step = args::ref_step(refs[m - 1], names);
                assert(args::steps_of(literals, refs, names, m) == with_text.push(step));
                assert(with_text.push(step).drop_last() =~= f_steps);
                assert(literals[n - 1] =~= seq![]);
                assert(env(names[m - 1]) == bounds[m - 1]);
                if let Ok(e) = run_steps::<A>(before_last, env, out) {
                    assert(e.sql + Seq::<char>::empty() =~= e.sql);
                }
            },
        }
    }
}

/// With spreads, the steps that a macro takes at run time emit just what the
/// builder emits for the same values: literals, placeholders and arguments in
/// lockstep.
pub proof fn law_pieces_emit_like_builder<A: Arguments>(
    fragments: Seq<FragmentView>,
    names: Seq<Seq<char>>,
    bounds: Seq<BoundView<A::Value>>,
    env: spec_fn(Seq<char>) -> BoundView<A::Value>,
    out: Emitted<A::Value>,
)
    requires
        fragments.len() <= usize::MAX,
        rewrite::placeholders_of(fragments).len() == names.len(),
        binds(env, names, bounds),
    ensures
        run_steps::<A>(
            args::steps_of(
                rewrite::literals_of(fragments),
                rewrite::refs_of(rewrite::placeholders_of(fragments)),
                names,
                rewrite::literals_of(fragments).len(),
            ),
            env,
            out,
        ) == emit_all::<A>(fragments, bounds, 0, out),
{
    lemma_run_steps::<A>(fragments, names, bounds, env, out);
    lemma_emit_back::<A>(seq![], fragments, bounds, out);
    assert(Seq::<FragmentView>::empty() + fragments =~= fragments);
}

/// What a macro expands to, run with the values of its locals, binds and emits
/// what the builder does for the same values: by a text that has all native
/// placeholders in it, or by steps that write them in lockstep.
pub proof fn law_expansion_emits_like_builder<A: Arguments>(
    fragments: Seq<FragmentView>,
    given: ArgsView,
    ch: char,
    indexing: ParamIndexing,
    input: QueryMacroInputView,
    types: Option<Seq<Seq<char>>>,
    bounds: Seq<BoundView<A::Value>>,
    env: spec_fn(Seq<char>) -> BoundView<A::Value>,
    out: Emitted<A::Value>,
)
    requires
        fragments.len() <= usize::MAX,
        grammar::has_placeholder(fragments),
    ensures
        rewrite::rewrite_placeholders(fragments, given, ch, indexing) matches Ok(rewritten) ==> {
            let plan = args::plan_of(input, rewritten, types);
            match plan.setup {
                SetupView::NoArgs => false,
                SetupView::Static(locals) => {
                    &&& locals.len() == rewrite::placeholders_of(fragments).len()
                    &&& plan.sql == SqlExprView::Literal(
                        rewrite::native_sql(fragments, ch, indexing),
                    )
                    &&& !rewrite::spreads(rewrite::placeholders_of(fragments))
                },
                SetupView::Pieces { locals, steps, .. } => {
                    &&& plan.sql == SqlExprView::Built
                    &&& binds(env, args::local_names(locals), bounds) ==> run_steps::<A>(
                        steps,
                        env,
                        out,
                    ) == emit_all::<A>(fragments, bounds, 0, out)
                },
            }
        },
{
    rewrite::lemma_placeholder_count(fragments);
    if let Ok(rewritten) = rewrite::rewrite_placeholders(fragments, given, ch, indexing) {
        let names = args::local_names(args::locals_of(rewritten.bindings, types));
        if binds(env, names, bounds) {
            law_pieces_emit_like_builder::<A>(fragments, names, bounds, env, out);
        }
    }
}

/// The bindings that the placeholders take, in order.
pub open spec fn taken_bounds<V>(fragments: Seq<FragmentView>, unused: Unused<V>) -> Seq<
    BoundView<V>,
>
    decreases fragments.len(),
{
    if fragments.len() == 0 {
        seq![]
    } else {
        match fragments[0] {
            FragmentView::Literal(_) => taken_bounds(fragments.drop_first(), unused),
            FragmentView::Placeholder(p) => match query_interp::take_meaning(unused, p.ident) {
                Ok((bound, _, left)) => seq![bound] + taken_bounds(fragments.drop_first(), left),
                Err(_) => seq![],
            },
        }
    }
}

proof fn lemma_builder_emits<A: Arguments>(
    fragments: Seq<FragmentView>,
    unused: Unused<A::Value>,
    out: Emitted<A::Value>,
    before: Seq<BoundView<A::Value>>,
)
    ensures
        query_interp::fragments_meaning::<A>(fragments, unused, out) matches Ok(e) ==> emit_all::<
            A,
        >(fragments, before + taken_bounds(fragments, unused), before.len() as int, out) == Ok::<
            _,
            Seq<char>,
        >(e),
    decreases fragments.len(),
{
    if fragments.len() > 0 {
        let rest = fragments.drop_first();
        match fragments[0] {
            FragmentView::Literal(s) => {
                lemma_builder_emits::<A>(
                    rest,
                    unused,
                    Emitted { sql: out.sql + s, values: out.values },
                    before,
                );
            },
            FragmentView::Placeholder(p) => {
                if let Ok((bound, name, left)) = query_interp::take_meaning(unused, p.ident) {
                    if let Ok(next) = query_interp::emit_meaning::<A>(out, bound, p.kleene, name) {
                        let all = before + taken_bounds(fragments, unused);
                        assert(all[before.len() as int] == bound);
                        assert(query_interp::emit_meaning::<A>(out, bound, p.kleene, seq![])
                            == query_interp::emit_meaning::<A>(out, bound, p.kleene, name));
                        lemma_builder_emits::<A>(rest, left, next, before.push(bound));
                        assert(before.push(bound) + taken_bounds(rest, left) =~= all);
                    }
                }
            },
        }
    }
}

/// What the builder builds is what its bindings emit, one for each placeholder
/// in order.
pub proof fn law_builder_emits_its_bindings<A: Arguments>(
    fragments: Seq<FragmentView>,
    unused: Unused<A::Value>,
    out: Emitted<A::Value>,
)
    ensures
        query_interp::fragments_meaning::<A>(fragments, unused, out) matches Ok(e) ==> emit_all::<
            A,
        >(fragments, taken_bounds(fragments, unused), 0, out) == Ok::<_, Seq<char>>(e),
{
    lemma_builder_emits::<A>(fragments, unused, out, seq![]);
    assert(Seq::<BoundView<A::Value>>::empty() + taken_bounds(fragments, unused) =~= taken_bounds(
        fragments,
        unused,
    ));
}

/// A query whose only braces are doubled ones is rewritten to the text with
/// single ones.
pub proof fn law_escaped_query_collapses(s: Seq<char>, args: ArgsView)
    requires
        parse_laws::is_plain(s),
        args.named.len() == 0,
        args.rest is None,
    ensures
        match grammar::parse_meaning(parse_laws::escaped(s)) {
            Ok(fragments) => !grammar::has_placeholder(fragments) && match rewrite::rewrite_plain(
                fragments,
                args,
            ) {
                Ok(out) => out.describe_sql == s && out.runtime_template == TemplateView::Static(s),
                Err(_) => false,
            },
            Err(_) => false,
        },
{
    parse_laws::law_escapes_collapse(s);
    let fragments = parse_laws::one_literal(s);
    if s.len() > 0 {
        assert(fragments.drop_last() =~= seq![]);
        assert(rewrite::literals_of(Seq::<FragmentView>::empty()) =~= seq![Seq::<char>::empty()]);
    }
    assert(rewrite::literals_of(fragments)[0] =~= s);
}

// -- Locals and types -----------------------------------------------------

/// Only a cast to the wildcard is taken off; every other expression stays.
pub proof fn law_only_wildcard_casts_go(e: ExprView)
    ensures
        expr::type_override(e) != Some(CastType::Infer) ==> expr::without_wildcard(e) == e,
        e matches ExprView::Cast(s, CastType::Infer) ==> expr::without_wildcard(e) == ExprView::Operand(
            s,
        ),
    decreases e,
{
    if let ExprView::Group(inner) = e {
        law_only_wildcard_casts_go(*inner);
    }
}

/// No two bindings share a local.
pub proof fn law_arg_names_distinct(i: int, j: int)
    requires
        0 <= i,
        0 <= j,
    ensures
        args::arg_name(i) == args::arg_name(j) ==> i == j,
{
    let prefix = "__sqlx_arg"@;
    if args::arg_name(i) == args::arg_name(j) {
        assert(args::arg_name(i).skip(prefix.len() as int) =~= text::decimal(i as nat));
        assert(args::arg_name(j).skip(prefix.len() as int) =~= text::decimal(j as nat));
        parse_laws::lemma_decimal(i as nat);
        parse_laws::lemma_decimal(j as nat);
    }
}

/// An unchecked macro looks at no types: it warns of none, rejects none and
/// checks none.
pub proof fn law_unchecked_checks_nothing(
    input: QueryMacroInputView,
    out: RewriteView,
    params: args::Params,
    warnings: Warnings,
)
    requires
        !input.checked,
    ensures
        args::warned_meaning(warnings, params, input.checked) == warnings,
        args::expansion_meaning(input, out, params) == Ok::<_, Seq<char>>(
            args::plan_of(input, out, None),
        ),
        forall|i: int|
            0 <= i < out.bindings.len() ==> (#[trigger] args::locals_of(out.bindings, None)[i]).check
                == TypeCheckView::Unchecked,
{
}

/// The SQL text is taken from the source file only where the file holds just
/// that text and nothing is bound.
pub proof fn law_file_only_if_unchanged(
    input: QueryMacroInputView,
    out: RewriteView,
    types: Option<Seq<Seq<char>>>,
)
    ensures
        args::plan_of(input, out, types).sql matches SqlExprView::IncludeFile(path)
            ==> input.file_path == Some(path) && out.bindings.len() == 0
            && out.runtime_template->Static_0 == input.sql,
{
}

} // verus!
