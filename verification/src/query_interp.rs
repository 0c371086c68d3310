//! Runtime SQL builder with `{...}` placeholder syntax.
//!
//! [`query_interp`] accepts the placeholder syntax of
//! [`crate::placeholders`]: positional `{0}`, named `{name}`, spread
//! `{ids*}` / `{ids+}`. Expressions `{(expr)}` are rejected, because they
//! cannot be evaluated at runtime.
//!
//! Each binding may be referenced at most once: it is consumed on first
//! reference.
use crate::database::{Arguments, Database, Encode};
use crate::grammar;
use crate::grammar::{FragmentView, IdentView};
use crate::placeholders;
use crate::placeholders::{parse_query, Fragment, Ident, Kleene};
use crate::rewrite;
use crate::rewrite::concat_literals;
use crate::text;
use crate::text::{cow_str, push_decimal, same_text};
use std::marker::PhantomData;
use vstd::prelude::*;
use vstd::string::*;

verus! {

// -- What building a query means ------------------------------------------

/// What was bound to a placeholder.
pub enum BoundView<V> {
    /// One value.
    Single(V),
    /// All values of an iterable.
    Spread(Seq<V>),
}

/// A query under construction.
pub struct InterpQueryView<V> {
    pub sql: Seq<char>,
    pub positional: Seq<BoundView<V>>,
    pub named: Map<Seq<char>, BoundView<V>>,
}

/// The query with one more positional binding.
pub open spec fn with_next<V>(q: InterpQueryView<V>, bound: BoundView<V>) -> InterpQueryView<V> {
    InterpQueryView { positional: q.positional.push(bound), ..q }
}

/// The query with a binding for `name`, in place of the one that it has, if it
/// has one.
pub open spec fn with_name<V>(
    q: InterpQueryView<V>,
    name: Seq<char>,
    bound: BoundView<V>,
) -> InterpQueryView<V> {
    InterpQueryView { named: q.named.insert(name, bound), ..q }
}

/// The SQL text emitted so far, and the arguments that go with it.
pub struct Emitted<V> {
    pub sql: Seq<char>,
    pub values: Seq<V>,
}

/// The bindings that no placeholder has consumed yet.
pub struct Unused<V> {
    pub positional: Seq<Option<BoundView<V>>>,
    pub named: Map<Seq<char>, BoundView<V>>,
}

/// Takes the binding that `ident` refers to: the binding, how the placeholder
/// is called in messages, and what is left. A message if there is none.
pub open spec fn take_meaning<V>(unused: Unused<V>, ident: IdentView) -> Result<
    (BoundView<V>, Seq<char>, Unused<V>),
    Seq<char>,
> {
    match ident {
        IdentView::Positional(i) => if i >= unused.positional.len() {
            Err(
                "positional placeholder `{"@ + text::decimal(i) + "}` referenced but only "@
                    + text::decimal(unused.positional.len())
                    + " positional argument(s) were bound"@,
            )
        } else {
            match unused.positional[i as int] {
                None => Err(
                    "positional placeholder `{"@ + text::decimal(i)
                        + "}` referenced more than once"@,
                ),
                Some(bound) => Ok(
                    (
                        bound,
                        text::decimal(i),
                        Unused {
                            positional: unused.positional.update(i as int, None),
                            named: unused.named,
                        },
                    ),
                ),
            }
        },
        IdentView::Named(name) => if unused.named.dom().contains(name) {
            Ok(
                (
                    unused.named[name],
                    name,
                    Unused { positional: unused.positional, named: unused.named.remove(name) },
                ),
            )
        } else {
            Err(
                "named placeholder `{"@ + name
                    + "}` referenced but no matching bind_named/bind_iter_named was called"@,
            )
        },
        IdentView::Expr(_) => Err(
            "complex-expression placeholders `{(expr)}` are not supported at runtime"@,
        ),
    }
}

/// Adds one argument and emits its placeholder, unless the database refuses
/// the value.
pub open spec fn bind_one_meaning<A: Arguments>(out: Emitted<A::Value>, value: A::Value) -> Result<
    Emitted<A::Value>,
    Seq<char>,
> {
    match A::refusal(out.values, value) {
        Some(message) => Err(message),
        None => Ok(
            Emitted {
                sql: out.sql + A::placeholder(out.values.len() + 1),
                values: out.values.push(value),
            },
        ),
    }
}

/// Adds the given arguments and emits their placeholders, with a comma before
/// each but the first.
pub open spec fn spread_meaning<A: Arguments>(
    out: Emitted<A::Value>,
    values: Seq<A::Value>,
    first: bool,
) -> Result<Emitted<A::Value>, Seq<char>>
    decreases values.len(),
{
    if values.len() == 0 {
        Ok(out)
    } else {
        let out = if first {
            out
        } else {
            Emitted { sql: out.sql + ", "@, values: out.values }
        };
        match bind_one_meaning::<A>(out, values[0]) {
            Err(message) => Err(message),
            Ok(next) => spread_meaning::<A>(next, values.drop_first(), false),
        }
    }
}

/// The spread marker as it is written.
pub open spec fn marker_char(kleene: Kleene) -> char {
    match kleene {
        Kleene::Star => '*',
        Kleene::Plus => '+',
    }
}

/// Emits what `bound` stands for at a placeholder with the given marker.
pub open spec fn emit_meaning<A: Arguments>(
    out: Emitted<A::Value>,
    bound: BoundView<A::Value>,
    kleene: Option<Kleene>,
    name: Seq<char>,
) -> Result<Emitted<A::Value>, Seq<char>> {
    match (bound, kleene) {
        (BoundView::Single(value), None) => bind_one_meaning::<A>(out, value),
        (BoundView::Spread(values), Some(k)) => if values.len() == 0 && k == Kleene::Plus {
            Ok(Emitted { sql: out.sql + "NULL"@, values: out.values })
        } else {
            spread_meaning::<A>(out, values, true)
        },
        (BoundView::Single(_), Some(k)) => Err(
            "placeholder `{"@ + name + seq![marker_char(k)]
                + "}` requires a spread bind (use `bind_iter` / `bind_iter_named`)"@,
        ),
        (BoundView::Spread(_), None) => Err(
            "placeholder `{"@ + name
                + "}` was bound as a spread iterable but the SQL marker is not `*` or `+`"@,
        ),
    }
}

/// Emits the given fragments, one after the other.
pub open spec fn fragments_meaning<A: Arguments>(
    fragments: Seq<FragmentView>,
    unused: Unused<A::Value>,
    out: Emitted<A::Value>,
) -> Result<Emitted<A::Value>, Seq<char>>
    decreases fragments.len(),
{
    if fragments.len() == 0 {
        Ok(out)
    } else {
        match fragments[0] {
            FragmentView::Literal(s) => fragments_meaning::<A>(
                fragments.drop_first(),
                unused,
                Emitted { sql: out.sql + s, values: out.values },
            ),
            FragmentView::Placeholder(p) => match take_meaning(unused, p.ident) {
                Err(message) => Err(message),
                Ok((bound, name, left)) => match emit_meaning::<A>(out, bound, p.kleene, name) {
                    Err(message) => Err(message),
                    Ok(next) => fragments_meaning::<A>(fragments.drop_first(), left, next),
                },
            },
        }
    }
}

/// All bindings of a query.
pub open spec fn all_unused<V>(q: InterpQueryView<V>) -> Unused<V> {
    Unused {
        positional: Seq::new(q.positional.len(), |i: int| Some(q.positional[i])),
        named: q.named,
    }
}

/// The SQL text and the arguments that a query is built to, or the message
/// that rejects it.
pub open spec fn build_meaning<A: Arguments>(q: InterpQueryView<A::Value>) -> Result<
    Emitted<A::Value>,
    Seq<char>,
> {
    match grammar::parse_meaning(q.sql) {
        Err(e) => Err(placeholders::parse_error_text(e)),
        Ok(fragments) => if grammar::has_placeholder(fragments) {
            fragments_meaning::<A>(
                fragments,
                all_unused(q),
                Emitted { sql: seq![], values: seq![] },
            )
        } else if q.positional.len() == 0 && q.named == Map::<
            Seq<char>,
            BoundView<A::Value>,
        >::empty() {
            Ok(Emitted { sql: rewrite::literals_of(fragments)[0], values: seq![] })
        } else {
            Err(
                "bindings provided but the SQL contains no `{...}` placeholders; use `sqlx::query()` for SQL with native `?` / `$N` placeholders"@,
            )
        },
    }
}

// -- Bindings -------------------------------------------------------------

/// One slot in the bindings table.
pub enum Bound<V> {
    Single(V),
    Spread(Vec<V>),
}

impl<V> View for Bound<V> {
    type V = BoundView<V>;

    open spec fn view(&self) -> BoundView<V> {
        match self {
            Bound::Single(value) => BoundView::Single(*value),
            Bound::Spread(values) => BoundView::Spread(values@),
        }
    }
}

/// How many arguments a binding stands for.
pub open spec fn bound_len<V>(bound: BoundView<V>) -> nat {
    match bound {
        BoundView::Single(_) => 1,
        BoundView::Spread(values) => values.len(),
    }
}

/// About how many bytes the given values take when encoded.
pub open spec fn values_size<A: Arguments>(values: Seq<A::Value>) -> nat
    decreases values.len(),
{
    if values.len() == 0 {
        0
    } else {
        values_size::<A>(values.drop_last()) + A::estimated_size(values.last()) as nat
    }
}

/// About how many bytes a binding takes when encoded.
pub open spec fn bound_size<A: Arguments>(bound: BoundView<A::Value>) -> nat {
    match bound {
        BoundView::Single(value) => A::estimated_size(value) as nat,
        BoundView::Spread(values) => values_size::<A>(values),
    }
}

impl<V> Bound<V> {
    /// How many arguments the binding stands for.
    fn len(&self) -> (r: usize)
        ensures
            r == bound_len(self@),
    {
        match self {
            Bound::Single(_) => 1,
            Bound::Spread(values) => values.len(),
        }
    }

    /// About how many bytes the binding takes when encoded.
    fn size_hint<A: Arguments<Value = V>>(&self) -> (r: usize)
        ensures
            r == text::capped(bound_size::<A>(self@)),
    {
        match self {
            Bound::Single(value) => A::size_hint(value),
            Bound::Spread(values) => {
                let mut sum: usize = 0;
                let mut i: usize = 0;
                while i < values.len()
                    invariant
                        i <= values@.len(),
                        sum == text::capped(values_size::<A>(values@.take(i as int))),
                    decreases values@.len() - i,
                {
                    assert(values@.take(i + 1).drop_last() =~= values@.take(i as int));
                    sum = sum.saturating_add(A::size_hint(&values[i]));
                    i += 1;
                }
                assert(values@.take(i as int) =~= values@);
                sum
            },
        }
    }
}

/// No two entries have the same name.
pub open spec fn distinct_names<V>(entries: Seq<(String, Bound<V>)>) -> bool {
    forall|i: int, j: int|
        0 <= i < j < entries.len() ==> (#[trigger] entries[i]).0@ != (#[trigger] entries[j]).0@
}

/// The bindings by their names.
pub open spec fn named_view<V>(entries: Seq<(String, Bound<V>)>) -> Map<Seq<char>, BoundView<V>>
    decreases entries.len(),
{
    if entries.len() == 0 {
        Map::empty()
    } else {
        named_view(entries.drop_last()).insert(entries.last().0@, entries.last().1@)
    }
}

/// The map holds the names of the entries.
proof fn lemma_named_dom<V>(entries: Seq<(String, Bound<V>)>, name: Seq<char>)
    ensures
        named_view(entries).dom().contains(name) <==> exists|i: int|
            0 <= i < entries.len() && (#[trigger] entries[i]).0@ == name,
    decreases entries.len(),
{
    if entries.len() > 0 {
        let front = entries.drop_last();
        lemma_named_dom(front, name);
        if exists|i: int| 0 <= i < front.len() && (#[trigger] front[i]).0@ == name {
            let i = choose|i: int| 0 <= i < front.len() && (#[trigger] front[i]).0@ == name;
            assert(entries[i].0@ == name);
        }
        if exists|i: int| 0 <= i < entries.len() && (#[trigger] entries[i]).0@ == name {
            let i = choose|i: int| 0 <= i < entries.len() && (#[trigger] entries[i]).0@ == name;
            if i < front.len() {
                assert(front[i].0@ == name);
            }
        }
        if entries.last().0@ == name {
            assert(entries[entries.len() - 1].0@ == name);
        }
    }
}

/// The map leads from each entry's name to its binding.
proof fn lemma_named_index<V>(entries: Seq<(String, Bound<V>)>, i: int)
    requires
        distinct_names(entries),
        0 <= i < entries.len(),
    ensures
        named_view(entries).dom().contains(entries[i].0@),
        named_view(entries)[entries[i].0@] == entries[i].1@,
    decreases entries.len(),
{
    let front = entries.drop_last();
    if i < front.len() {
        assert(distinct_names(front)) by {
            assert forall|j: int, k: int| 0 <= j < k < front.len() implies (#[trigger] front[j]).0@
                != (#[trigger] front[k]).0@ by {
                assert(entries[j].0@ != entries[k].0@);
            }
        }
        lemma_named_index(front, i);
        assert(front[i] == entries[i]);
        assert(entries[i].0@ != entries[entries.len() - 1].0@);
    }
}

/// Replacing the binding of an entry.
proof fn lemma_named_update<V>(entries: Seq<(String, Bound<V>)>, i: int, e: (String, Bound<V>))
    requires
        distinct_names(entries),
        0 <= i < entries.len(),
        e.0@ == entries[i].0@,
    ensures
        distinct_names(entries.update(i, e)),
        named_view(entries.update(i, e)) == named_view(entries).insert(e.0@, e.1@),
{
    let after = entries.update(i, e);
    assert forall|j: int, k: int| 0 <= j < k < after.len() implies (#[trigger] after[j]).0@ != (
    #[trigger] after[k]).0@ by {
        assert(entries[j].0@ != entries[k].0@);
    }
    let m = named_view(entries).insert(e.0@, e.1@);
    assert forall|name: Seq<char>|
        #![trigger named_view(after).dom().contains(name)]
        #![trigger named_view(after)[name]]
        named_view(after).dom().contains(name) == m.dom().contains(name) && (m.dom().contains(name)
            ==> named_view(after)[name] == m[name]) by {
        lemma_named_dom(after, name);
        lemma_named_dom(entries, name);
        if m.dom().contains(name) {
            if name == e.0@ {
                assert(after[i].0@ == name);
                lemma_named_index(after, i);
            } else {
                let j = choose|j: int| 0 <= j < entries.len() && (#[trigger] entries[j]).0@ == name;
                assert(after[j].0@ == name);
                lemma_named_index(after, j);
                lemma_named_index(entries, j);
            }
        }
        if named_view(after).dom().contains(name) {
            let j = choose|j: int| 0 <= j < after.len() && (#[trigger] after[j]).0@ == name;
            assert(entries[j].0@ == name);
        }
    }
    assert(named_view(after) =~= m);
}

/// Removing an entry.
proof fn lemma_named_remove<V>(entries: Seq<(String, Bound<V>)>, i: int)
    requires
        distinct_names(entries),
        0 <= i < entries.len(),
    ensures
        distinct_names(entries.remove(i)),
        named_view(entries.remove(i)) == named_view(entries).remove(entries[i].0@),
{
    let after = entries.remove(i);
    assert forall|j: int, k: int| 0 <= j < k < after.len() implies (#[trigger] after[j]).0@ != (
    #[trigger] after[k]).0@ by {
        let j2 = if j < i {
            j
        } else {
            j + 1
        };
        let k2 = if k < i {
            k
        } else {
            k + 1
        };
        assert(entries[j2].0@ != entries[k2].0@);
    }
    let m = named_view(entries).remove(entries[i].0@);
    assert forall|name: Seq<char>|
        #![trigger named_view(after).dom().contains(name)]
        #![trigger named_view(after)[name]]
        named_view(after).dom().contains(name) == m.dom().contains(name) && (m.dom().contains(name)
            ==> named_view(after)[name] == m[name]) by {
        lemma_named_dom(after, name);
        lemma_named_dom(entries, name);
        if m.dom().contains(name) {
            let j = choose|j: int| 0 <= j < entries.len() && (#[trigger] entries[j]).0@ == name;
            let j2 = if j < i {
                j
            } else {
                j - 1
            };
            assert(after[j2] == entries[j]);
            lemma_named_index(after, j2);
            lemma_named_index(entries, j);
        }
        if named_view(after).dom().contains(name) {
            let j = choose|j: int| 0 <= j < after.len() && (#[trigger] after[j]).0@ == name;
            let j2 = if j < i {
                j
            } else {
                j + 1
            };
            assert(entries[j2] == after[j]);
            if j2 < i {
                assert(entries[j2].0@ != entries[i].0@);
            } else {
                assert(entries[i].0@ != entries[j2].0@);
            }
        }
    }
    assert(named_view(after) =~= m);
}

/// Where the entry with the given name is.
fn find_name<V>(entries: &Vec<(String, Bound<V>)>, name: &str) -> (r: Option<usize>)
    requires
        distinct_names(entries@),
    ensures
        match r {
            Some(i) => i < entries@.len() && entries@[i as int].0@ == name@ && named_view(
                entries@,
            ).dom().contains(name@) && named_view(entries@)[name@] == entries@[i as int].1@,
            None => !named_view(entries@).dom().contains(name@) && forall|i: int|
                0 <= i < entries@.len() ==> (#[trigger] entries@[i]).0@ != name@,
        },
{
    let mut i: usize = 0;
    while i < entries.len()
        invariant
            distinct_names(entries@),
            i <= entries@.len(),
            forall|j: int| 0 <= j < i ==> (#[trigger] entries@[j]).0@ != name@,
        decreases entries@.len() - i,
    {
        if same_text(entries[i].0.as_str(), name) {
            proof {
                lemma_named_index(entries@, i as int);
            }
            return Some(i);
        }
        i += 1;
    }
    proof {
        lemma_named_dom(entries@, name@);
    }
    None
}

/// Binds `name`, in place of what it was bound to before.
fn insert_named<V>(entries: &mut Vec<(String, Bound<V>)>, name: &str, bound: Bound<V>)
    requires
        distinct_names(old(entries)@),
    ensures
        distinct_names(final(entries)@),
        named_view(final(entries)@) == named_view(old(entries)@).insert(name@, bound@),
{
    match find_name(entries, name) {
        Some(i) => {
            let e = (name.to_owned(), bound);
            proof {
                lemma_named_update(entries@, i as int, e);
            }
            entries.set(i, e);
        },
        None => {
            entries.push((name.to_owned(), bound));
            assert(entries@.drop_last() =~= old(entries)@);
            assert(distinct_names(entries@)) by {
                assert forall|j: int, k: int| 0 <= j < k < entries@.len() implies (
                #[trigger] entries@[j]).0@ != (#[trigger] entries@[k]).0@ by {
                    assert(entries@[j] == old(entries)@[j]);
                    if k < old(entries)@.len() {
                        assert(entries@[k] == old(entries)@[k]);
                    }
                }
            }
        },
    }
}

// -- Errors ---------------------------------------------------------------

/// Why a query cannot be built.
#[derive(Debug)]
pub enum Error {
    /// The SQL text and the bindings do not go together.
    Configuration(String),
}

impl View for Error {
    type V = Seq<char>;

    open spec fn view(&self) -> Seq<char> {
        match self {
            Error::Configuration(message) => message@,
        }
    }
}

impl Error {
    /// What went wrong.
    pub fn message(&self) -> (r: &str)
        ensures
            r@ == self@,
    {
        match self {
            Error::Configuration(message) => message.as_str(),
        }
    }
}

// -- Building -------------------------------------------------------------

/// The bindings that no placeholder has consumed yet.
pub open spec fn unused_view<V>(
    positional: Seq<Option<Bound<V>>>,
    named: Seq<(String, Bound<V>)>,
) -> Unused<V> {
    Unused {
        positional: Seq::new(
            positional.len(),
            |i: int|
                match positional[i] {
                    Some(bound) => Some(bound@),
                    None => None,
                },
        ),
        named: named_view(named),
    }
}

fn take_bound<V>(
    positional: &mut Vec<Option<Bound<V>>>,
    named: &mut Vec<(String, Bound<V>)>,
    ident: &Ident<'_>,
) -> (r: Result<(Bound<V>, String), Error>)
    requires
        distinct_names(old(named)@),
    ensures
        distinct_names(final(named)@),
        match r {
            Ok((bound, name)) => take_meaning(unused_view(old(positional)@, old(named)@), ident@)
                == Ok::<_, Seq<char>>(
                (bound@, name@, unused_view(final(positional)@, final(named)@)),
            ),
            Err(e) => take_meaning(unused_view(old(positional)@, old(named)@), ident@) == Err::<
                (BoundView<V>, Seq<char>, Unused<V>),
                _,
            >(e@) && unused_view(final(positional)@, final(named)@) == unused_view(
                old(positional)@,
                old(named)@,
            ),
        },
{
    let ghost unused = unused_view(positional@, named@);
    match ident {
        Ident::Positional(index) => {
            let i: usize = *index as usize;
            let n: usize = positional.len();
            if i >= n {
                let mut message = "positional placeholder `{".to_owned();
                push_decimal(&mut message, i);
                message.append("}` referenced but only ");
                push_decimal(&mut message, n);
                message.append(" positional argument(s) were bound");
                return Err(Error::Configuration(message));
            }
            match positional[i].take() {
                None => {
                    assert(unused_view(positional@, named@).positional =~= unused.positional);
                    let mut message = "positional placeholder `{".to_owned();
                    push_decimal(&mut message, i);
                    message.append("}` referenced more than once");
                    Err(Error::Configuration(message))
                },
                Some(bound) => {
                    let mut name = String::new();
                    push_decimal(&mut name, i);
                    proof {
                        assert(name@ =~= text::decimal(i as nat));
                        assert(unused.positional[i as int] == Some(bound@));
                        assert(unused_view(positional@, named@).positional
                            =~= unused.positional.update(i as int, None));
                    }
                    Ok((bound, name))
                },
            }
        },
        Ident::Named(name) => {
            let name: &str = cow_str(name);
            match find_name(named, name) {
                Some(i) => {
                    proof {
                        lemma_named_remove(named@, i as int);
                    }
                    let (_, bound) = named.remove(i);
                    Ok((bound, name.to_owned()))
                },
                None => {
                    let mut message = "named placeholder `{".to_owned();
                    message.append(name);
                    message.append(
                        "}` referenced but no matching bind_named/bind_iter_named was called",
                    );
                    Err(Error::Configuration(message))
                },
            }
        },
        Ident::Expr(_) => Err(
            Error::Configuration(
                "complex-expression placeholders `{(expr)}` are not supported at runtime".to_owned(),
            ),
        ),
    }
}

/// The SQL text and the arguments, as emitted so far.
pub open spec fn emitted<A: Arguments>(sql: Seq<char>, args: A) -> Emitted<A::Value> {
    Emitted { sql, values: args.values() }
}

fn bind_one<A: Arguments>(out: &mut String, args: &mut A, value: A::Value) -> (r: Result<(), Error>)
    ensures
        match r {
            Ok(()) => bind_one_meaning::<A>(emitted(old(out)@, *old(args)), value) == Ok::<
                _,
                Seq<char>,
            >(emitted(final(out)@, *final(args))),
            Err(e) => bind_one_meaning::<A>(emitted(old(out)@, *old(args)), value) == Err::<
                Emitted<A::Value>,
                _,
            >(e@) && final(out)@ == old(out)@,
        },
        final(args).requests() == old(args).requests(),
{
    // Order matters: the placeholder of a numbered format carries the number
    // of arguments, which `add` increments.
    match args.add(value) {
        Err(message) => Err(Error::Configuration(message)),
        Ok(()) => {
            args.format_placeholder(out);
            Ok(())
        },
    }
}

fn emit<A: Arguments>(
    out: &mut String,
    args: &mut A,
    bound: Bound<A::Value>,
    kleene: Option<Kleene>,
    name: &str,
) -> (r: Result<(), Error>)
    ensures
        match r {
            Ok(()) => emit_meaning::<A>(emitted(old(out)@, *old(args)), bound@, kleene, name@)
                == Ok::<_, Seq<char>>(emitted(final(out)@, *final(args))),
            Err(e) => emit_meaning::<A>(emitted(old(out)@, *old(args)), bound@, kleene, name@)
                == Err::<Emitted<A::Value>, _>(e@) && ((bound is Spread) != (kleene is Some)
                ==> final(out)@ == old(out)@ && *final(args) == *old(args)) && (bound is Single
                ==> final(out)@ == old(out)@),
        },
        final(args).requests() == old(args).requests(),
{
    match (bound, kleene) {
        (Bound::Single(value), None) => bind_one(out, args, value),
        (Bound::Spread(values), Some(k)) => {
            if values.len() == 0 {
                if k == Kleene::Plus {
                    out.append("NULL");
                }
                return Ok(());
            }
            let ghost all = values@;
            let ghost start = emitted(out@, *args);
            let mut first: bool = true;
            assert(all.skip(0) =~= all);
            for value in it: values
                invariant
                    it.seq() == all,
                    first == (it.index() == 0),
                    bound is Spread && kleene is Some,
                    args.requests() == old(args).requests(),
                    emit_meaning::<A>(emitted(old(out)@, *old(args)), bound@, kleene, name@)
                        == spread_meaning::<A>(start, all, true),
                    spread_meaning::<A>(start, all, true) == spread_meaning::<A>(
                        emitted(out@, *args),
                        all.skip(it.index() as int),
                        first,
                    ),
            {
                let ghost i = it.index() as int;
                assert(all.skip(i).drop_first() =~= all.skip(i + 1));
                if !first {
                    out.append(", ");
                }
                first = false;
                match bind_one(out, args, value) {
                    Err(e) => {
                        return Err(e);
                    },
                    Ok(()) => {},
                }
            }
            Ok(())
        },
        (Bound::Single(_), Some(k)) => {
            let mut message = "placeholder `{".to_owned();
            message.append(name);
            message.push(
                match k {
                    Kleene::Star => '*',
                    Kleene::Plus => '+',
                },
            );
            message.append("}` requires a spread bind (use `bind_iter` / `bind_iter_named`)");
            assert(message@ =~= "placeholder `{"@ + name@ + seq![marker_char(k)]
                + "}` requires a spread bind (use `bind_iter` / `bind_iter_named`)"@);
            Err(Error::Configuration(message))
        },
        (Bound::Spread(_), None) => {
            let mut message = "placeholder `{".to_owned();
            message.append(name);
            message.append(
                "}` was bound as a spread iterable but the SQL marker is not `*` or `+`",
            );
            Err(Error::Configuration(message))
        },
    }
}

/// What the given bindings weigh in all.
pub open spec fn weight<V>(bounds: Seq<BoundView<V>>, of: spec_fn(BoundView<V>) -> nat) -> nat
    decreases bounds.len(),
{
    if bounds.len() == 0 {
        0
    } else {
        weight(bounds.drop_last(), of) + of(bounds.last())
    }
}

/// What the given named bindings weigh in all.
pub open spec fn named_weight<V>(
    bounds: Map<Seq<char>, BoundView<V>>,
    of: spec_fn(BoundView<V>) -> nat,
) -> nat
    decreases bounds.dom().len(),
{
    if bounds.dom().finite() && bounds.dom().len() > 0 {
        let name = bounds.dom().choose();
        of(bounds[name]) + named_weight(bounds.remove(name), of)
    } else {
        0
    }
}

/// It does not matter which binding is counted first.
pub proof fn lemma_named_weight<V>(
    bounds: Map<Seq<char>, BoundView<V>>,
    of: spec_fn(BoundView<V>) -> nat,
    name: Seq<char>,
)
    requires
        bounds.dom().finite(),
        bounds.dom().contains(name),
    ensures
        named_weight(bounds, of) == of(bounds[name]) + named_weight(bounds.remove(name), of),
    decreases bounds.dom().len(),
{
    let first = bounds.dom().choose();
    assert(bounds.dom().len() > 0);
    assert(bounds.dom().contains(first));
    if first != name {
        lemma_named_weight(bounds.remove(first), of, name);
        lemma_named_weight(bounds.remove(name), of, first);
        assert(bounds.remove(first).remove(name) =~= bounds.remove(name).remove(first));
    }
}

proof fn lemma_one_more_named<V>(
    entries: Seq<(String, Bound<V>)>,
    j: int,
    of: spec_fn(BoundView<V>) -> nat,
)
    requires
        distinct_names(entries),
        0 <= j < entries.len(),
    ensures
        named_weight(named_view(entries.take(j + 1)), of) == named_weight(
            named_view(entries.take(j)),
            of,
        ) + of(entries[j].1@),
{
    let before = named_view(entries.take(j));
    let name = entries[j].0@;
    assert(entries.take(j + 1).drop_last() =~= entries.take(j));
    lemma_named_dom(entries.take(j), name);
    lemma_named_finite(entries.take(j));
    assert(!before.dom().contains(name));
    lemma_named_weight(before.insert(name, entries[j].1@), of, name);
    assert(before.insert(name, entries[j].1@).remove(name) =~= before);
}

proof fn lemma_named_finite<V>(entries: Seq<(String, Bound<V>)>)
    ensures
        named_view(entries).dom().finite(),
    decreases entries.len(),
{
    if entries.len() > 0 {
        lemma_named_finite(entries.drop_last());
    }
}

/// How many arguments the bindings of a query stand for, and about how many
/// bytes they take when encoded.
pub open spec fn room_for<A: Arguments>(q: InterpQueryView<A::Value>) -> (usize, usize) {
    let len = |b: BoundView<A::Value>| bound_len(b);
    let size = |b: BoundView<A::Value>| bound_size::<A>(b);
    (
        text::capped(weight(q.positional, len) + named_weight(q.named, len)),
        text::capped(weight(q.positional, size) + named_weight(q.named, size)),
    )
}

/// The room that is asked for when a query is built: once, for all its bindings,
/// if there are placeholders.
pub open spec fn room_requests<A: Arguments>(q: InterpQueryView<A::Value>) -> Seq<(usize, usize)> {
    match grammar::parse_meaning(q.sql) {
        Ok(fragments) => if grammar::has_placeholder(fragments) {
            seq![room_for::<A>(q)]
        } else {
            seq![]
        },
        Err(_) => seq![],
    }
}

/// How many arguments to make room for, and how many bytes.
fn reserve_request<A: Arguments>(
    positional: &Vec<Bound<A::Value>>,
    named: &Vec<(String, Bound<A::Value>)>,
    Ghost(q): Ghost<InterpQueryView<A::Value>>,
) -> (r: (usize, usize))
    requires
        distinct_names(named@),
        q.positional == Seq::new(positional@.len(), |i: int| positional@[i]@),
        q.named == named_view(named@),
    ensures
        r == room_for::<A>(q),
{
    let ghost len = |b: BoundView<A::Value>| bound_len(b);
    let ghost of_size = |b: BoundView<A::Value>| bound_size::<A>(b);
    let ghost all = q.positional;
    let mut additional: usize = 0;
    let mut size: usize = 0;
    let mut i: usize = 0;
    while i < positional.len()
        invariant
            i <= positional@.len() == all.len(),
            forall|k: int| 0 <= k < all.len() ==> #[trigger] all[k] == positional@[k]@,
            len == (|b: BoundView<A::Value>| bound_len(b)),
            of_size == (|b: BoundView<A::Value>| bound_size::<A>(b)),
            additional == text::capped(weight(all.take(i as int), len)),
            size == text::capped(weight(all.take(i as int), of_size)),
        decreases positional@.len() - i,
    {
        assert(all.take(i + 1).drop_last() =~= all.take(i as int));
        assert(all.take(i + 1).last() == positional@[i as int]@);
        additional = additional.saturating_add(positional[i].len());
        size = size.saturating_add(positional[i].size_hint::<A>());
        i += 1;
    }
    assert(all.take(i as int) =~= all);
    let mut j: usize = 0;
    assert(named@.take(0) =~= seq![]);
    assert(named_view(named@.take(0)).dom() =~= Set::empty());
    while j < named.len()
        invariant
            j <= named@.len(),
            distinct_names(named@),
            len == (|b: BoundView<A::Value>| bound_len(b)),
            of_size == (|b: BoundView<A::Value>| bound_size::<A>(b)),
            additional == text::capped(
                weight(all, len) + named_weight(named_view(named@.take(j as int)), len),
            ),
            size == text::capped(
                weight(all, of_size) + named_weight(named_view(named@.take(j as int)), of_size),
            ),
        decreases named@.len() - j,
    {
        proof {
            lemma_one_more_named(named@, j as int, len);
            lemma_one_more_named(named@, j as int, of_size);
        }
        additional = additional.saturating_add(named[j].1.len());
        size = size.saturating_add(named[j].1.size_hint::<A>());
        j += 1;
    }
    assert(named@.take(j as int) =~= named@);
    (additional, size)
}

/// A query under construction, accepting `bind` / `bind_named` calls.
#[must_use]
pub struct InterpQuery<'q, DB: Database> {
    sql: String,
    positional: Vec<Bound<DB::Value<'q>>>,
    named: Vec<(String, Bound<DB::Value<'q>>)>,
}

impl<'q, DB: Database> View for InterpQuery<'q, DB> {
    type V = InterpQueryView<DB::Value<'q>>;

    closed spec fn view(&self) -> InterpQueryView<DB::Value<'q>> {
        InterpQueryView {
            sql: self.sql@,
            positional: Seq::new(self.positional@.len(), |i: int| self.positional@[i]@),
            named: named_view(self.named@),
        }
    }
}

/// Begin building a runtime-interpolated query.
///
/// Bound values may be borrowed; the returned [`InterpQuery<'q, DB>`] is
/// parameterized by `'q`, the longest borrow.
pub fn query_interp<'q, DB: Database>(sql: &str) -> (r: InterpQuery<'q, DB>)
    ensures
        r@ == (InterpQueryView::<DB::Value<'q>> {
            sql: sql@,
            positional: seq![],
            named: Map::empty(),
        }),
{
    let r = InterpQuery { sql: sql.to_owned(), positional: Vec::new(), named: Vec::new() };
    assert(r@.positional =~= seq![]);
    r
}

/// Forgets the type of a value; its encoding is left for later.
fn erase<'q, DB: Database, T: Encode<'q, DB>>(value: T) -> (r: DB::Value<'q>)
    ensures
        r == value.erased(),
{
    value.erase()
}

/// Forgets the type of each of the given values.
fn erase_all<'q, DB: Database, T: Encode<'q, DB>>(values: Vec<T>) -> (r: Vec<DB::Value<'q>>)
    ensures
        r@ == erased_values::<DB, T>(values@),
{
    let mut out: Vec<DB::Value<'q>> = Vec::new();
    let ghost all = values@;
    for value in it: values
        invariant
            it.seq() == all,
            out@.len() == it.index(),
            forall|j: int| 0 <= j < out@.len() ==> #[trigger] out@[j] == all[j].erased(),
    {
        out.push(erase(value));
    }
    assert(out@ =~= erased_values::<DB, T>(all));
    out
}

/// The given values, without their type.
pub open spec fn erased_values<'q, DB: Database, T: Encode<'q, DB>>(values: Seq<T>) -> Seq<
    DB::Value<'q>,
> {
    Seq::new(values.len(), |i: int| values[i].erased())
}

impl<'q, DB: Database> InterpQuery<'q, DB> {
    /// No name is bound twice.
    #[verifier::type_invariant]
    spec fn names_are_distinct(self) -> bool {
        distinct_names(self.named@)
    }

    /// Binds the next positional placeholder.
    fn push_bound(self, bound: Bound<DB::Value<'q>>) -> (r: Self)
        ensures
            r@ == with_next(self@, bound@),
    {
        proof {
            use_type_invariant(&self);
        }
        let mut positional = self.positional;
        positional.push(bound);
        let r = InterpQuery { sql: self.sql, positional, named: self.named };
        assert(r@.positional =~= self@.positional.push(bound@));
        r
    }

    /// Binds the placeholder called `name`.
    fn insert_bound(self, name: &str, bound: Bound<DB::Value<'q>>) -> (r: Self)
        ensures
            r@ == with_name(self@, name@, bound@),
    {
        proof {
            use_type_invariant(&self);
        }
        let mut named = self.named;
        insert_named(&mut named, name, bound);
        InterpQuery { sql: self.sql, positional: self.positional, named }
    }

    /// Bind a positional argument. Positional bindings are tracked separately
    /// from named bindings: the first `bind` call binds `{0}`, the second
    /// `{1}`, regardless of any interleaved `bind_named` calls.
    ///
    /// Each placeholder may be referenced at most once: a `{0}` that appears
    /// twice in the SQL fails at [`build`](Self::build) with a "referenced
    /// more than once" error.
    pub fn bind<T: Encode<'q, DB>>(self, value: T) -> (r: Self)
        ensures
            r@ == with_next(self@, BoundView::Single(value.erased())),
    {
        self.push_bound(Bound::Single(erase(value)))
    }

    /// Bind a named argument matched against `{name}` in the SQL.
    ///
    /// See [`bind`](Self::bind) for the single-reference restriction.
    pub fn bind_named<T: Encode<'q, DB>>(self, name: &str, value: T) -> (r: Self)
        ensures
            r@ == with_name(self@, name@, BoundView::Single(value.erased())),
    {
        self.insert_bound(name, Bound::Single(erase(value)))
    }

    /// Bind a positional spread argument matched against `{N*}` / `{N+}`.
    /// The empty-iterable behavior is governed by the SQL marker: `*` expands
    /// to nothing, `+` expands to `NULL`.
    ///
    /// See [`bind`](Self::bind) for the single-reference restriction.
    pub fn bind_iter<T: Encode<'q, DB>>(self, values: Vec<T>) -> (r: Self)
        ensures
            r@ == with_next(self@, BoundView::Spread(erased_values::<DB, T>(values@))),
    {
        self.push_bound(Bound::Spread(erase_all(values)))
    }

    /// Bind a named spread argument matched against `{name*}` / `{name+}`.
    /// The empty-iterable behavior is governed by the SQL marker: `*` expands
    /// to nothing, `+` expands to `NULL`.
    ///
    /// See [`bind`](Self::bind) for the single-reference restriction.
    pub fn bind_iter_named<T: Encode<'q, DB>>(self, name: &str, values: Vec<T>) -> (r: Self)
        ensures
            r@ == with_name(self@, name@, BoundView::Spread(erased_values::<DB, T>(values@))),
    {
        self.insert_bound(name, Bound::Spread(erase_all(values)))
    }

    fn assemble(self) -> (r: Result<(String, DB::Arguments<'q>), Error>)
        ensures
            match r {
                Ok((sql, args)) => build_meaning::<DB::Arguments<'q>>(self@) == Ok::<_, Seq<char>>(
                    emitted(sql@, args),
                ) && args.requests() == room_requests::<DB::Arguments<'q>>(self@),
                Err(e) => build_meaning::<DB::Arguments<'q>>(self@) == Err::<
                    Emitted<DB::Value<'q>>,
                    _,
                >(e@),
            },
    {
        proof {
            use_type_invariant(&self);
        }
        let ghost view = self@;
        let sql = self.sql;
        let bound = self.positional;
        let mut named = self.named;
        let parsed = match parse_query(sql.as_str()) {
            Err(e) => {
                return Err(Error::Configuration(e.to_string()));
            },
            Ok(parsed) => parsed,
        };
        let mut args = <DB::Arguments<'q> as Arguments>::new();
        if !parsed.had_placeholder {
            proof {
                if named@.len() > 0 {
                    lemma_named_index(named@, 0);
                }
                assert(view.positional =~= seq![] <==> bound@.len() == 0);
            }
            if bound.len() == 0 && named.len() == 0 {
                return Ok((concat_literals(&parsed), args));
            }
            return Err(
                Error::Configuration(
                    "bindings provided but the SQL contains no `{...}` placeholders; use `sqlx::query()` for SQL with native `?` / `$N` placeholders".to_owned(),
                ),
            );
        }
        let (additional, size) = reserve_request::<DB::Arguments<'q>>(
            &bound,
            &named,
            Ghost(view),
        );
        args.reserve(additional, size);
        assert(args.requests() =~= room_requests::<DB::Arguments<'q>>(view));
        let ghost all = bound@;
        let mut positional: Vec<Option<Bound<DB::Value<'q>>>> = Vec::new();
        for b in it: bound
            invariant
                it.seq() == all,
                positional@.len() == it.index(),
                forall|j: int|
                    0 <= j < positional@.len() ==> #[trigger] positional@[j] == Some(all[j]),
        {
            positional.push(Some(b));
        }
        assert(unused_view(positional@, named@).positional =~= all_unused(view).positional);
        let mut out = String::new();
        let mut k: usize = 0;
        assert(parsed@.skip(0) =~= parsed@);
        while k < parsed.fragments.len()
            invariant
                k <= parsed.fragments@.len(),
                distinct_names(named@),
                view == self@,
                args.requests() == room_requests::<DB::Arguments<'q>>(view),
                build_meaning::<DB::Arguments<'q>>(view) == fragments_meaning::<DB::Arguments<'q>>(
                    parsed@.skip(k as int),
                    unused_view(positional@, named@),
                    emitted(out@, args),
                ),
            decreases parsed.fragments@.len() - k,
        {
            assert(parsed@.skip(k as int).drop_first() =~= parsed@.skip(k + 1));
            assert(parsed@.skip(k as int)[0] == parsed.fragments@[k as int]@);
            match &parsed.fragments[k] {
                Fragment::Literal(s) => {
                    out.append(s.as_str());
                },
                Fragment::Placeholder(p) => {
                    match take_bound(&mut positional, &mut named, &p.ident) {
                        Err(e) => {
                            return Err(e);
                        },
                        Ok((bound, name)) => {
                            match emit(&mut out, &mut args, bound, p.kleene, name.as_str()) {
                                Err(e) => {
                                    return Err(e);
                                },
                                Ok(()) => {},
                            }
                        },
                    }
                },
            }
            k += 1;
        }
        Ok((out, args))
    }

    /// Finalize the SQL rewrite and produce a [`Query`] ready for execution.
    pub fn build(self) -> (r: Result<Query<'q, DB>, Error>)
        ensures
            match r {
                Ok(query) => build_meaning::<DB::Arguments<'q>>(self@) == Ok::<_, Seq<char>>(
                    query@,
                ) && query.requests() == room_requests::<DB::Arguments<'q>>(self@),
                Err(e) => build_meaning::<DB::Arguments<'q>>(self@) == Err::<
                    Emitted<DB::Value<'q>>,
                    _,
                >(e@),
            },
    {
        match self.assemble() {
            Ok((sql, arguments)) => Ok(Query { sql, arguments }),
            Err(e) => Err(e),
        }
    }

    /// Like [`build`](Self::build), but maps each row into `O`.
    pub fn build_as<O>(self) -> (r: Result<QueryAs<'q, DB, O>, Error>)
        ensures
            match r {
                Ok(query) => build_meaning::<DB::Arguments<'q>>(self@) == Ok::<_, Seq<char>>(
                    query.query@,
                ) && query.query.requests() == room_requests::<DB::Arguments<'q>>(self@),
                Err(e) => build_meaning::<DB::Arguments<'q>>(self@) == Err::<
                    Emitted<DB::Value<'q>>,
                    _,
                >(e@),
            },
    {
        match self.build() {
            Ok(query) => Ok(QueryAs { query, output: PhantomData }),
            Err(e) => Err(e),
        }
    }

    /// Like [`build`](Self::build), but decodes a single column per row as `O`.
    pub fn build_scalar<O>(self) -> (r: Result<QueryScalar<'q, DB, O>, Error>)
        ensures
            match r {
                Ok(query) => build_meaning::<DB::Arguments<'q>>(self@) == Ok::<_, Seq<char>>(
                    query.query@,
                ) && query.query.requests() == room_requests::<DB::Arguments<'q>>(self@),
                Err(e) => build_meaning::<DB::Arguments<'q>>(self@) == Err::<
                    Emitted<DB::Value<'q>>,
                    _,
                >(e@),
            },
    {
        match self.build() {
            Ok(query) => Ok(QueryScalar { query, output: PhantomData }),
            Err(e) => Err(e),
        }
    }
}

/// A SQL text in the notation of its database, with its arguments.
pub struct Query<'q, DB: Database> {
    sql: String,
    arguments: DB::Arguments<'q>,
}

impl<'q, DB: Database> View for Query<'q, DB> {
    type V = Emitted<DB::Value<'q>>;

    closed spec fn view(&self) -> Emitted<DB::Value<'q>> {
        emitted(self.sql@, self.arguments)
    }
}

impl<'q, DB: Database> Query<'q, DB> {
    /// The room that was asked for, for the arguments.
    pub closed spec fn requests(&self) -> Seq<(usize, usize)> {
        self.arguments.requests()
    }

    /// The SQL text.
    pub fn sql(&self) -> (r: &str)
        ensures
            r@ == self@.sql,
    {
        self.sql.as_str()
    }

    /// The arguments, in the order of their placeholders.
    pub fn arguments(&self) -> (r: &DB::Arguments<'q>)
        ensures
            r.values() == self@.values,
            r.requests() == self.requests(),
    {
        &self.arguments
    }
}

/// A query whose rows are mapped into `O`.
pub struct QueryAs<'q, DB: Database, O> {
    pub query: Query<'q, DB>,
    pub output: PhantomData<O>,
}

/// A query of whose rows one column is decoded as `O`.
pub struct QueryScalar<'q, DB: Database, O> {
    pub query: Query<'q, DB>,
    pub output: PhantomData<O>,
}

} // verus!
