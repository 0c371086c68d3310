//! What holds of every query that is built at run time.
use crate::database::Arguments;
use crate::grammar;
use crate::grammar::{FragmentView, IdentView, ParseErrorView};
use crate::parse_laws;
use crate::placeholders::Kleene;
use crate::query_interp;
use crate::query_interp::{BoundView, Emitted, InterpQueryView, Unused};
use crate::rewrite;
use vstd::prelude::*;

verus! {

// -- Binding --------------------------------------------------------------

/// Positional bindings are counted apart from named ones: which of two
/// bindings, one of each kind, is made first does not matter.
pub proof fn law_positional_and_named_commute<V>(
    q: InterpQueryView<V>,
    next: BoundView<V>,
    name: Seq<char>,
    named: BoundView<V>,
)
    ensures
        query_interp::with_name(query_interp::with_next(q, next), name, named)
            == query_interp::with_next(query_interp::with_name(q, name, named), next),
        query_interp::with_name(q, name, named).positional == q.positional,
        query_interp::with_next(q, next).named == q.named,
{
}

/// The first positional binding is for `{0}`, the next one for `{1}`, and so on:
/// a binding gets the index of how many there were, and no index changes.
pub proof fn law_positional_bindings_are_counted<V>(q: InterpQueryView<V>, next: BoundView<V>)
    ensures
        query_interp::with_next(q, next).positional.len() == q.positional.len() + 1,
        query_interp::with_next(q, next).positional[q.positional.len() as int] == next,
        forall|i: int|
            0 <= i < q.positional.len() ==> #[trigger] query_interp::with_next(
                q,
                next,
            ).positional[i] == q.positional[i],
{
}

/// The last binding of a name counts, and bindings of other names stay.
pub proof fn law_last_named_binding_counts<V>(
    q: InterpQueryView<V>,
    name: Seq<char>,
    first: BoundView<V>,
    second: BoundView<V>,
)
    ensures
        query_interp::with_name(query_interp::with_name(q, name, first), name, second)
            == query_interp::with_name(q, name, second),
        forall|other: Seq<char>|
            other != name && q.named.dom().contains(other)
                ==> #[trigger] query_interp::with_name(q, name, first).named.dom().contains(other)
                && query_interp::with_name(q, name, first).named[other] == q.named[other],
{
    assert(q.named.insert(name, first).insert(name, second) =~= q.named.insert(name, second));
}

/// Bindings of different names commute.
pub proof fn law_named_bindings_commute<V>(
    q: InterpQueryView<V>,
    a: Seq<char>,
    first: BoundView<V>,
    b: Seq<char>,
    second: BoundView<V>,
)
    requires
        a != b,
    ensures
        query_interp::with_name(query_interp::with_name(q, a, first), b, second)
            == query_interp::with_name(query_interp::with_name(q, b, second), a, first),
{
    assert(q.named.insert(a, first).insert(b, second) =~= q.named.insert(b, second).insert(
        a,
        first,
    ));
}

// -- Emission -------------------------------------------------------------

/// The values that a binding stands for.
pub open spec fn values_of<V>(bound: BoundView<V>) -> Seq<V> {
    match bound {
        BoundView::Single(value) => seq![value],
        BoundView::Spread(values) => values,
    }
}

/// The placeholders of the arguments behind the first `n`, `count` of them,
/// with a comma between each two.
pub open spec fn placeholder_list<A: Arguments>(n: nat, count: nat) -> Seq<char>
    decreases count,
{
    if count == 0 {
        seq![]
    } else if count == 1 {
        A::placeholder(n + 1)
    } else {
        placeholder_list::<A>(n, (count - 1) as nat) + ", "@ + A::placeholder(n + count)
    }
}

/// What stands in the SQL text for a binding, behind `n` arguments: a list of
/// placeholders, or, for an empty one, what its marker says.
pub open spec fn sql_of<A: Arguments>(
    bound: BoundView<A::Value>,
    kleene: Option<Kleene>,
    n: nat,
) -> Seq<char> {
    if values_of(bound).len() == 0 && kleene == Some(Kleene::Plus) {
        "NULL"@
    } else {
        placeholder_list::<A>(n, values_of(bound).len())
    }
}

/// A list of placeholders, taken apart at its front.
proof fn lemma_list_front<A: Arguments>(n: nat, count: nat)
    requires
        count > 1,
    ensures
        placeholder_list::<A>(n, count) == A::placeholder(n + 1) + ", "@ + placeholder_list::<A>(
            n + 1,
            (count - 1) as nat,
        ),
    decreases count,
{
    if count > 2 {
        lemma_list_front::<A>(n, (count - 1) as nat);
        assert(placeholder_list::<A>(n, count) =~= A::placeholder(n + 1) + ", "@
            + placeholder_list::<A>(n + 1, (count - 1) as nat));
    } else {
        assert(placeholder_list::<A>(n, 1) == A::placeholder(n + 1));
        assert(placeholder_list::<A>(n + 1, 1) == A::placeholder(n + 2));
    }
}

proof fn lemma_spread<A: Arguments>(
    out: Emitted<A::Value>,
    values: Seq<A::Value>,
    first: bool,
)
    ensures
        query_interp::spread_meaning::<A>(out, values, first) matches Ok(e) ==> {
            &&& e.values == out.values + values
            &&& e.sql == out.sql + (if first || values.len() == 0 {
                placeholder_list::<A>(out.values.len(), values.len())
            } else {
                ", "@ + placeholder_list::<A>(out.values.len(), values.len())
            })
        },
    decreases values.len(),
{
    if values.len() == 0 {
        assert(out.values + values =~= out.values);
        assert(out.sql + Seq::<char>::empty() =~= out.sql);
    } else {
        let start = if first {
            out
        } else {
            Emitted { sql: out.sql + ", "@, values: out.values }
        };
        if let Ok(next) = query_interp::bind_one_meaning::<A>(start, values[0]) {
            let rest = values.drop_first();
            lemma_spread::<A>(next, rest, false);
            if let Ok(e) = query_interp::spread_meaning::<A>(out, values, first) {
                let n = out.values.len();
                assert(e.values =~= out.values + values);
                if values.len() > 1 {
                    lemma_list_front::<A>(n, values.len());
                }
                assert(e.sql =~= out.sql + (if first {
                    placeholder_list::<A>(n, values.len())
                } else {
                    ", "@ + placeholder_list::<A>(n, values.len())
                }));
            }
        }
    }
}

/// Emitting a binding adds its values as arguments, in order, and a placeholder
/// for each with its number, so that what follows a spread is numbered on from
/// it. An empty spread adds nothing but what its marker says.
pub proof fn law_emission<A: Arguments>(
    out: Emitted<A::Value>,
    bound: BoundView<A::Value>,
    kleene: Option<Kleene>,
    name: Seq<char>,
)
    ensures
        query_interp::emit_meaning::<A>(out, bound, kleene, name) matches Ok(e) ==> e.values
            == out.values + values_of(bound) && e.sql == out.sql + sql_of::<A>(
            bound,
            kleene,
            out.values.len(),
        ) && (bound is Spread <==> kleene is Some),
{
    match bound {
        BoundView::Single(value) => {
            if let Ok(e) = query_interp::emit_meaning::<A>(out, bound, kleene, name) {
                assert(e.values =~= out.values + values_of(bound));
            }
        },
        BoundView::Spread(values) => {
            lemma_spread::<A>(out, values, true);
            if values.len() == 0 {
                assert(out.values + values =~= out.values);
            }
        },
    }
}

/// An empty `+` spread is `NULL`, and an empty `*` spread is nothing.
pub proof fn law_empty_spread<A: Arguments>(out: Emitted<A::Value>, name: Seq<char>)
    ensures
        query_interp::emit_meaning::<A>(
            out,
            BoundView::Spread(seq![]),
            Some(Kleene::Plus),
            name,
        ) == Ok::<_, Seq<char>>(Emitted { sql: out.sql + "NULL"@, values: out.values }),
        query_interp::emit_meaning::<A>(
            out,
            BoundView::Spread(seq![]),
            Some(Kleene::Star),
            name,
        ) == Ok::<_, Seq<char>>(out),
{
}

/// The arguments that the fragments take, in the order of their placeholders.
pub open spec fn taken_values<V>(fragments: Seq<FragmentView>, unused: Unused<V>) -> Seq<V>
    decreases fragments.len(),
{
    if fragments.len() == 0 {
        seq![]
    } else {
        match fragments[0] {
            FragmentView::Literal(_) => taken_values(fragments.drop_first(), unused),
            FragmentView::Placeholder(p) => match query_interp::take_meaning(unused, p.ident) {
                Ok((bound, _, left)) => values_of(bound) + taken_values(
                    fragments.drop_first(),
                    left,
                ),
                Err(_) => seq![],
            },
        }
    }
}

/// The SQL text of the fragments, behind `n` arguments.
pub open spec fn taken_sql<A: Arguments>(
    fragments: Seq<FragmentView>,
    unused: Unused<A::Value>,
    n: nat,
) -> Seq<char>
    decreases fragments.len(),
{
    if fragments.len() == 0 {
        seq![]
    } else {
        match fragments[0] {
            FragmentView::Literal(s) => s + taken_sql::<A>(fragments.drop_first(), unused, n),
            FragmentView::Placeholder(p) => match query_interp::take_meaning(unused, p.ident) {
                Ok((bound, _, left)) => sql_of::<A>(bound, p.kleene, n) + taken_sql::<A>(
                    fragments.drop_first(),
                    left,
                    n + values_of(bound).len(),
                ),
                Err(_) => seq![],
            },
        }
    }
}

proof fn lemma_fragments<A: Arguments>(
    fragments: Seq<FragmentView>,
    unused: Unused<A::Value>,
    out: Emitted<A::Value>,
)
    ensures
        query_interp::fragments_meaning::<A>(fragments, unused, out) matches Ok(e) ==> e.values
            == out.values + taken_values(fragments, unused) && e.sql == out.sql + taken_sql::<A>(
            fragments,
            unused,
            out.values.len(),
        ),
    decreases fragments.len(),
{
    if fragments.len() == 0 {
        assert(out.values + taken_values(fragments, unused) =~= out.values);
        assert(out.sql + Seq::<char>::empty() =~= out.sql);
    } else {
        let rest = fragments.drop_first();
        match fragments[0] {
            FragmentView::Literal(s) => {
                let next = Emitted { sql: out.sql + s, values: out.values };
                lemma_fragments::<A>(rest, unused, next);
                if let Ok(e) = query_interp::fragments_meaning::<A>(fragments, unused, out) {
                    assert(e.sql =~= out.sql + taken_sql::<A>(
                        fragments,
                        unused,
                        out.values.len(),
                    ));
                }
            },
            FragmentView::Placeholder(p) => {
                if let Ok((bound, name, left)) = query_interp::take_meaning(unused, p.ident) {
                    law_emission::<A>(out, bound, p.kleene, name);
                    if let Ok(next) = query_interp::emit_meaning::<A>(out, bound, p.kleene, name) {
                        lemma_fragments::<A>(rest, left, next);
                        if let Ok(e) = query_interp::fragments_meaning::<A>(
                            fragments,
                            unused,
                            out,
                        ) {
                            assert(e.values =~= out.values + taken_values(fragments, unused));
                            assert(e.sql =~= out.sql + taken_sql::<A>(
                                fragments,
                                unused,
                                out.values.len(),
                            ));
                        }
                    }
                }
            },
        }
    }
}

/// The arguments of a query that was built are the bound values in the order of
/// the placeholders that refer to them, and its text holds their placeholders,
/// numbered in that order.
pub proof fn law_arguments_in_order<A: Arguments>(q: InterpQueryView<A::Value>)
    ensures
        grammar::parse_meaning(q.sql) matches Ok(fragments) ==> grammar::has_placeholder(fragments)
            ==> (query_interp::build_meaning::<A>(q) matches Ok(e) ==> e.values == taken_values(
            fragments,
            query_interp::all_unused(q),
        ) && e.sql == taken_sql::<A>(fragments, query_interp::all_unused(q), 0)),
{
    if let Ok(fragments) = grammar::parse_meaning(q.sql) {
        let unused = query_interp::all_unused(q);
        let nothing = Emitted { sql: Seq::<char>::empty(), values: Seq::<A::Value>::empty() };
        lemma_fragments::<A>(fragments, unused, nothing);
        assert(Seq::<A::Value>::empty() + taken_values(fragments, unused) =~= taken_values(
            fragments,
            unused,
        ));
        assert(Seq::<char>::empty() + taken_sql::<A>(fragments, unused, 0) =~= taken_sql::<A>(
            fragments,
            unused,
            0,
        ));
    }
}

// -- One reference for each binding ---------------------------------------

/// Has the binding been consumed, or was there none?
pub open spec fn is_gone<V>(unused: Unused<V>, ident: IdentView) -> bool {
    match ident {
        IdentView::Positional(i) => i < unused.positional.len() ==> unused.positional[i as int]
            is None,
        IdentView::Named(name) => !unused.named.dom().contains(name),
        IdentView::Expr(_) => true,
    }
}

/// Does one of the fragments refer to `ident`?
pub open spec fn refers_to(fragments: Seq<FragmentView>, ident: IdentView) -> bool {
    exists|k: int|
        0 <= k < fragments.len() && ((#[trigger] fragments[k]) matches FragmentView::Placeholder(p)
            && p.ident == ident)
}

proof fn lemma_gone<A: Arguments>(
    fragments: Seq<FragmentView>,
    unused: Unused<A::Value>,
    out: Emitted<A::Value>,
    ident: IdentView,
)
    requires
        is_gone(unused, ident),
        refers_to(fragments, ident),
    ensures
        query_interp::fragments_meaning::<A>(fragments, unused, out) is Err,
    decreases fragments.len(),
{
    let k = choose|k: int|
        0 <= k < fragments.len() && ((#[trigger] fragments[k]) matches FragmentView::Placeholder(p)
            && p.ident == ident);
    let rest = fragments.drop_first();
    if k > 0 {
        assert(rest[k - 1] == fragments[k]);
        assert(refers_to(rest, ident));
    }
    match fragments[0] {
        FragmentView::Literal(s) => {
            lemma_gone::<A>(
                rest,
                unused,
                Emitted { sql: out.sql + s, values: out.values },
                ident,
            );
        },
        FragmentView::Placeholder(p) => {
            if let Ok((bound, name, left)) = query_interp::take_meaning(unused, p.ident) {
                if let Ok(next) = query_interp::emit_meaning::<A>(out, bound, p.kleene, name) {
                    assert(k > 0);
                    assert(is_gone(left, ident));
                    lemma_gone::<A>(rest, left, next, ident);
                }
            }
        },
    }
}

proof fn lemma_twice<A: Arguments>(
    fragments: Seq<FragmentView>,
    unused: Unused<A::Value>,
    out: Emitted<A::Value>,
    j: int,
    k: int,
)
    requires
        0 <= j < k < fragments.len(),
        fragments[j] is Placeholder,
        fragments[k] is Placeholder,
        fragments[j]->Placeholder_0.ident == fragments[k]->Placeholder_0.ident,
    ensures
        query_interp::fragments_meaning::<A>(fragments, unused, out) is Err,
    decreases fragments.len(),
{
    let rest = fragments.drop_first();
    assert(rest[k - 1] == fragments[k]);
    match fragments[0] {
        FragmentView::Literal(s) => {
            assert(rest[j - 1] == fragments[j]);
            lemma_twice::<A>(
                rest,
                unused,
                Emitted { sql: out.sql + s, values: out.values },
                j - 1,
                k - 1,
            );
        },
        FragmentView::Placeholder(p) => {
            if let Ok((bound, name, left)) = query_interp::take_meaning(unused, p.ident) {
                if let Ok(next) = query_interp::emit_meaning::<A>(out, bound, p.kleene, name) {
                    if j == 0 {
                        assert(is_gone(left, p.ident));
                        assert(refers_to(rest, p.ident));
                        lemma_gone::<A>(rest, left, next, p.ident);
                    } else {
                        assert(rest[j - 1] == fragments[j]);
                        lemma_twice::<A>(rest, left, next, j - 1, k - 1);
                    }
                }
            }
        },
    }
}

/// A query that refers to one argument twice is rejected.
pub proof fn law_one_reference_each<A: Arguments>(
    q: InterpQueryView<A::Value>,
    fragments: Seq<FragmentView>,
    j: int,
    k: int,
)
    requires
        grammar::parse_meaning(q.sql) == Ok::<_, ParseErrorView>(fragments),
        0 <= j < k < fragments.len(),
        fragments[j] is Placeholder,
        fragments[k] is Placeholder,
        fragments[j]->Placeholder_0.ident == fragments[k]->Placeholder_0.ident,
    ensures
        query_interp::build_meaning::<A>(q) is Err,
{
    lemma_twice::<A>(
        fragments,
        query_interp::all_unused(q),
        Emitted { sql: seq![], values: seq![] },
        j,
        k,
    );
    assert(grammar::has_placeholder(fragments));
}

/// A query that refers to what was not bound is rejected, and so is one with an
/// expression.
pub proof fn law_unbound_reference<A: Arguments>(
    q: InterpQueryView<A::Value>,
    fragments: Seq<FragmentView>,
    ident: IdentView,
)
    requires
        grammar::parse_meaning(q.sql) == Ok::<_, ParseErrorView>(fragments),
        refers_to(fragments, ident),
        match ident {
            IdentView::Positional(i) => i >= q.positional.len(),
            IdentView::Named(name) => !q.named.dom().contains(name),
            IdentView::Expr(_) => true,
        },
    ensures
        query_interp::build_meaning::<A>(q) is Err,
{
    lemma_gone::<A>(
        fragments,
        query_interp::all_unused(q),
        Emitted { sql: seq![], values: seq![] },
        ident,
    );
    let k = choose|k: int|
        0 <= k < fragments.len() && ((#[trigger] fragments[k]) matches FragmentView::Placeholder(p)
            && p.ident == ident);
    assert(fragments[k] is Placeholder);
}

// -- Queries without placeholders -----------------------------------------

/// The text of a query without placeholders is one literal.
proof fn lemma_one_literal(s: Seq<char>)
    ensures
        rewrite::literals_of(parse_laws::one_literal(s))[0] == s,
        !grammar::has_placeholder(parse_laws::one_literal(s)),
{
    let fragments = parse_laws::one_literal(s);
    if s.len() > 0 {
        assert(fragments.drop_last() =~= seq![]);
        assert(rewrite::literals_of(Seq::<FragmentView>::empty()) =~= seq![Seq::<char>::empty()]);
    }
    assert(rewrite::literals_of(fragments)[0] =~= s);
}

/// SQL without braces and without bindings is built to itself, and with bindings
/// it is rejected.
pub proof fn law_native_sql_passes_through<A: Arguments>(q: InterpQueryView<A::Value>)
    requires
        forall|i: int| 0 <= i < q.sql.len() ==> #[trigger] q.sql[i] != '{' && q.sql[i] != '}',
    ensures
        q.positional.len() == 0 && q.named == Map::<Seq<char>, BoundView<A::Value>>::empty()
            ==> query_interp::build_meaning::<A>(q) == Ok::<_, Seq<char>>(
            Emitted::<A::Value> { sql: q.sql, values: seq![] },
        ),
        q.positional.len() > 0 || q.named != Map::<Seq<char>, BoundView<A::Value>>::empty()
            ==> query_interp::build_meaning::<A>(q) is Err,
{
    parse_laws::law_text_without_braces(q.sql);
    lemma_one_literal(q.sql);
}

/// SQL whose only braces are doubled ones is built to the text with single ones,
/// and with bindings it is rejected.
pub proof fn law_escaped_sql_collapses<A: Arguments>(q: InterpQueryView<A::Value>, s: Seq<char>)
    requires
        parse_laws::is_plain(s),
        q.sql == parse_laws::escaped(s),
    ensures
        q.positional.len() == 0 && q.named == Map::<Seq<char>, BoundView<A::Value>>::empty()
            ==> query_interp::build_meaning::<A>(q) == Ok::<_, Seq<char>>(
            Emitted::<A::Value> { sql: s, values: seq![] },
        ),
        q.positional.len() > 0 || q.named != Map::<Seq<char>, BoundView<A::Value>>::empty()
            ==> query_interp::build_meaning::<A>(q) is Err,
{
    parse_laws::law_escapes_collapse(s);
    lemma_one_literal(s);
}

// -- Bindings that nothing refers to --------------------------------------

proof fn lemma_ignored<A: Arguments>(
    fragments: Seq<FragmentView>,
    unused: Unused<A::Value>,
    out: Emitted<A::Value>,
    name: Seq<char>,
    bound: BoundView<A::Value>,
)
    requires
        !refers_to(fragments, IdentView::Named(name)),
    ensures
        query_interp::fragments_meaning::<A>(
            fragments,
            Unused { named: unused.named.insert(name, bound), ..unused },
            out,
        ) == query_interp::fragments_meaning::<A>(fragments, unused, out),
    decreases fragments.len(),
{
    if fragments.len() > 0 {
        let rest = fragments.drop_first();
        let more = Unused { named: unused.named.insert(name, bound), ..unused };
        assert(!refers_to(rest, IdentView::Named(name))) by {
            if refers_to(rest, IdentView::Named(name)) {
                let k = choose|k: int|
                    0 <= k < rest.len() && ((#[trigger] rest[k]) matches FragmentView::Placeholder(
                        p,
                    ) && p.ident == IdentView::Named(name));
                assert(fragments[k + 1] == rest[k]);
            }
        }
        match fragments[0] {
            FragmentView::Literal(s) => {
                lemma_ignored::<A>(
                    rest,
                    unused,
                    Emitted { sql: out.sql + s, values: out.values },
                    name,
                    bound,
                );
            },
            FragmentView::Placeholder(p) => {
                assert(p.ident != IdentView::Named(name));
                if let Ok((taken, called, left)) = query_interp::take_meaning(unused, p.ident) {
                    if let IdentView::Named(other) = p.ident {
                        assert(unused.named.insert(name, bound).remove(other)
                            =~= unused.named.remove(other).insert(name, bound));
                    }
                    if let Ok(next) = query_interp::emit_meaning::<A>(
                        out,
                        taken,
                        p.kleene,
                        called,
                    ) {
                        lemma_ignored::<A>(rest, left, next, name, bound);
                    }
                }
            },
        }
    }
}

/// In a query with placeholders, a binding that none of them refers to is
/// ignored: it is neither sent as an argument nor an error.
pub proof fn law_unreferenced_binding_is_ignored<A: Arguments>(
    q: InterpQueryView<A::Value>,
    fragments: Seq<FragmentView>,
    name: Seq<char>,
    bound: BoundView<A::Value>,
)
    requires
        grammar::parse_meaning(q.sql) == Ok::<_, ParseErrorView>(fragments),
        grammar::has_placeholder(fragments),
        !refers_to(fragments, IdentView::Named(name)),
    ensures
        query_interp::build_meaning::<A>(query_interp::with_name(q, name, bound))
            == query_interp::build_meaning::<A>(q),
{
    lemma_ignored::<A>(
        fragments,
        query_interp::all_unused(q),
        Emitted { sql: seq![], values: seq![] },
        name,
        bound,
    );
}

// -- When a query is built ------------------------------------------------

/// The binding that `ident` refers to, if it is still there.
pub open spec fn available<V>(unused: Unused<V>, ident: IdentView) -> Option<BoundView<V>> {
    match ident {
        IdentView::Positional(i) => if i < unused.positional.len() {
            unused.positional[i as int]
        } else {
            None
        },
        IdentView::Named(name) => if unused.named.dom().contains(name) {
            Some(unused.named[name])
        } else {
            None
        },
        IdentView::Expr(_) => None,
    }
}

/// Each placeholder refers to a binding that is there, a spread just where it has
/// a marker.
pub open spec fn all_available<V>(fragments: Seq<FragmentView>, unused: Unused<V>) -> bool {
    forall|k: int|
        0 <= k < fragments.len() ==> ((#[trigger] fragments[k]) matches FragmentView::Placeholder(p)
            ==> (available(unused, p.ident) matches Some(bound) && (bound is Spread
            <==> p.kleene is Some)))
}

/// No two placeholders refer to the same binding.
pub open spec fn all_distinct(fragments: Seq<FragmentView>) -> bool {
    forall|j: int, k: int|
        0 <= j < k < fragments.len() && (#[trigger] fragments[j]) is Placeholder && (
        #[trigger] fragments[k]) is Placeholder ==> fragments[j]->Placeholder_0.ident
            != fragments[k]->Placeholder_0.ident
}

/// The database takes every value.
pub open spec fn refuses_nothing<A: Arguments>() -> bool {
    forall|values: Seq<A::Value>, value: A::Value| #[trigger] A::refusal(values, value) is None
}

proof fn lemma_spread_succeeds<A: Arguments>(
    out: Emitted<A::Value>,
    values: Seq<A::Value>,
    first: bool,
)
    requires
        refuses_nothing::<A>(),
    ensures
        query_interp::spread_meaning::<A>(out, values, first) is Ok,
    decreases values.len(),
{
    if values.len() > 0 {
        let start = if first {
            out
        } else {
            Emitted { sql: out.sql + ", "@, values: out.values }
        };
        assert(A::refusal(start.values, values[0]) is None);
        if let Ok(next) = query_interp::bind_one_meaning::<A>(start, values[0]) {
            lemma_spread_succeeds::<A>(next, values.drop_first(), false);
        }
    }
}

proof fn lemma_succeeds<A: Arguments>(
    fragments: Seq<FragmentView>,
    unused: Unused<A::Value>,
    out: Emitted<A::Value>,
)
    requires
        refuses_nothing::<A>(),
        all_available(fragments, unused),
        all_distinct(fragments),
    ensures
        query_interp::fragments_meaning::<A>(fragments, unused, out) is Ok,
    decreases fragments.len(),
{
    if fragments.len() > 0 {
        let rest = fragments.drop_first();
        assert forall|k: int| 0 <= k < rest.len() implies #[trigger] rest[k] == fragments[k + 1] by {
        }
        assert(all_distinct(rest));
        match fragments[0] {
            FragmentView::Literal(s) => {
                lemma_succeeds::<A>(
                    rest,
                    unused,
                    Emitted { sql: out.sql + s, values: out.values },
                );
            },
            FragmentView::Placeholder(p) => {
                assert(available(unused, p.ident) is Some);
                if let Ok((bound, name, left)) = query_interp::take_meaning(unused, p.ident) {
                    assert(bound == available(unused, p.ident)->0);
                    assert(bound is Spread <==> p.kleene is Some);
                    if let BoundView::Spread(values) = bound {
                        lemma_spread_succeeds::<A>(out, values, true);
                    }
                    if let BoundView::Single(value) = bound {
                        assert(A::refusal(out.values, value) is None);
                    }
                    if let Ok(next) = query_interp::emit_meaning::<A>(out, bound, p.kleene, name) {
                        assert forall|k: int| 0 <= k < rest.len() implies (
                        #[trigger] rest[k] matches FragmentView::Placeholder(o) ==> (available(
                            left,
                            o.ident,
                        ) matches Some(b) && (b is Spread <==> o.kleene is Some))) by {
                            if let FragmentView::Placeholder(o) = rest[k] {
                                assert(fragments[k + 1] == rest[k]);
                                assert(o.ident != p.ident);
                                assert(available(left, o.ident) == available(unused, o.ident));
                            }
                        }
                        lemma_succeeds::<A>(rest, left, next);
                    }
                }
            },
        }
    }
}

/// A query is built if each of its placeholders refers to a binding of its own, a
/// spread just where it has a marker, and the database takes every value.
pub proof fn law_build_succeeds<A: Arguments>(
    q: InterpQueryView<A::Value>,
    fragments: Seq<FragmentView>,
)
    requires
        grammar::parse_meaning(q.sql) == Ok::<_, ParseErrorView>(fragments),
        grammar::has_placeholder(fragments),
        refuses_nothing::<A>(),
        all_available(fragments, query_interp::all_unused(q)),
        all_distinct(fragments),
    ensures
        query_interp::build_meaning::<A>(q) is Ok,
{
    lemma_succeeds::<A>(
        fragments,
        query_interp::all_unused(q),
        Emitted { sql: seq![], values: seq![] },
    );
}

} // verus!
