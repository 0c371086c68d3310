//! What it means that a query is built at run time: its text and its arguments,
//! told by its fragments and by what was bound.
use crate::body_laws;
use crate::database;
use crate::database::{Arguments, Database, Dialect, Encode, ParamIndexing, Value, ValueList};
use crate::grammar;
use crate::grammar::{FragmentView, IdentView, ParseErrorView};
use crate::interp_laws;
use crate::parse_laws;
use crate::placeholders::Kleene;
use crate::query_interp;
use crate::query_interp::{BoundView, Emitted, InterpQueryView, Unused};
use crate::rewrite;
use crate::text;
use std::borrow::Cow;
use vstd::prelude::*;

verus! {

// -- Numbers and placeholders ---------------------------------------------

/// A number is written with digits that denote it, and without leading zeros.
pub proof fn law_decimal(n: nat)
    ensures
        body_laws::is_number(text::decimal(n)),
        body_laws::number(text::decimal(n)) == n,
        text::decimal(n)[0] == '0' ==> text::decimal(n).len() == 1,
    decreases n,
{
    let s = text::decimal(n);
    if n < 10 {
        assert(s.drop_last() =~= seq![]);
        assert(body_laws::number(s.drop_last()) == 0);
        assert(s.last() as int == 48 + n);
    } else {
        law_decimal(n / 10);
        let front = text::decimal(n / 10);
        assert(s.drop_last() =~= front);
        assert(s.last() as int == 48 + n % 10);
        assert forall|i: int| 0 <= i < s.len() implies '0' <= #[trigger] s[i] <= '9' by {
            if i < front.len() {
                assert(s[i] == front[i]);
            }
        }
        assert(s[0] == front[0]);
        if s[0] == '0' {
            assert(front.len() == 1);
            assert(front.drop_last() =~= seq![]);
            assert(body_laws::number(front.drop_last()) == 0);
            assert(body_laws::number(front) == 0);
        }
    }
}

/// The native placeholder of an argument is the character of the database, and
/// behind it, where placeholders carry numbers, the number of the argument.
pub proof fn law_native_placeholder(ch: char, n: nat)
    ensures
        database::native_placeholder(ch, ParamIndexing::Implicit, n) == seq![ch],
        ({
            let p = database::native_placeholder(ch, ParamIndexing::OneIndexed, n);
            p.len() > 1 && p[0] == ch && body_laws::is_number(p.skip(1)) && body_laws::number(
                p.skip(1),
            ) == n && (p[1] == '0' ==> p.len() == 2)
        }),
{
    law_decimal(n);
    let p = database::native_placeholder(ch, ParamIndexing::OneIndexed, n);
    assert(p.skip(1) =~= text::decimal(n));
}

/// A list of values takes all of them, and writes the placeholders of its
/// database, numbered from 1 where they carry numbers.
pub proof fn law_value_list<'q, D: Dialect>(values: Seq<Value<'q>>, value: Value<'q>, n: nat)
    ensures
        <ValueList<'q, D> as Arguments>::refusal(values, value) is None,
        <ValueList<'q, D> as Arguments>::placeholder(n) == database::native_placeholder(
            D::char_spec(),
            D::indexing_spec(),
            n,
        ),
{
}

/// A value keeps what it is when its type is forgotten.
pub proof fn law_erased<'q, D: Dialect>(x: bool, i: i32, j: i64, s: &'q str, t: String)
    ensures
        <bool as Encode<'q, D>>::erased(x) == Value::<'q>::Bool(x),
        <i32 as Encode<'q, D>>::erased(i) matches Value::Int(v) && v == i,
        <i64 as Encode<'q, D>>::erased(j) == Value::<'q>::Int(j),
        <&'q str as Encode<'q, D>>::erased(s) == Value::<'q>::Text(Cow::Borrowed(s)),
        <String as Encode<'q, D>>::erased(t) == Value::<'q>::Text(Cow::Owned(t)),
        <Option<i64> as Encode<'q, D>>::erased(Some(j)) == Value::<'q>::Int(j),
        <Option<i64> as Encode<'q, D>>::erased(None) == Value::<'q>::Null,
{
}

/// PostgreSQL numbers its placeholders, MySQL and SQLite do not.
pub proof fn law_dialects()
    ensures
        database::Postgres::char_spec() == '$',
        database::Postgres::indexing_spec() is OneIndexed,
        database::MySql::char_spec() == '?',
        database::MySql::indexing_spec() is Implicit,
        database::Sqlite::char_spec() == '?',
        database::Sqlite::indexing_spec() is Implicit,
{
}

/// A text is estimated at its bytes, a number at eight and a truth value at one.
pub proof fn law_estimated_size<'q, D: Dialect>(x: bool, i: i64, t: String)
    ensures
        <ValueList<'q, D> as Arguments>::estimated_size(Value::Null) == 0,
        <ValueList<'q, D> as Arguments>::estimated_size(Value::Bool(x)) == 1,
        <ValueList<'q, D> as Arguments>::estimated_size(Value::Int(i)) == 8,
        <ValueList<'q, D> as Arguments>::estimated_size(Value::Text(Cow::Owned(t)))
            == vstd::utf8::encode_utf8(t@).len() as usize,
{
}

// -- What is bound --------------------------------------------------------

/// What is bound to a name is what the name then holds, and nothing else
/// changes.
pub proof fn law_name_holds_its_binding<V>(
    q: InterpQueryView<V>,
    name: Seq<char>,
    bound: BoundView<V>,
)
    ensures
        query_interp::with_name(q, name, bound).named.dom().contains(name),
        query_interp::with_name(q, name, bound).named[name] == bound,
        query_interp::with_name(q, name, bound).sql == q.sql,
        query_interp::with_name(q, name, bound).positional == q.positional,
        forall|other: Seq<char>|
            other != name ==> (#[trigger] query_interp::with_name(q, name, bound).named.dom().contains(
                other,
            ) <==> q.named.dom().contains(other)),
        forall|other: Seq<char>|
            other != name && q.named.dom().contains(other) ==> #[trigger] query_interp::with_name(
                q,
                name,
                bound,
            ).named[other] == q.named[other],
{
}

/// What is bound next comes behind what was bound before, and nothing else
/// changes.
pub proof fn law_index_holds_its_binding<V>(q: InterpQueryView<V>, bound: BoundView<V>)
    ensures
        query_interp::with_next(q, bound).positional.len() == q.positional.len() + 1,
        query_interp::with_next(q, bound).positional.last() == bound,
        query_interp::with_next(q, bound).positional.drop_last() == q.positional,
        query_interp::with_next(q, bound).sql == q.sql,
        query_interp::with_next(q, bound).named == q.named,
{
    assert(query_interp::with_next(q, bound).positional.drop_last() =~= q.positional);
}

/// All items of an iterable are bound, each as itself, in their order.
pub proof fn law_all_items_are_bound<'q, DB: Database, T: Encode<'q, DB>>(items: Seq<T>)
    ensures
        query_interp::erased_values::<DB, T>(items).len() == items.len(),
        forall|i: int|
            0 <= i < items.len() ==> #[trigger] query_interp::erased_values::<DB, T>(items)[i]
                == items[i].erased(),
{
}

/// The binding that a placeholder refers to.
pub open spec fn binding_of<V>(q: InterpQueryView<V>, ident: IdentView) -> Option<BoundView<V>> {
    match ident {
        IdentView::Positional(i) => if i < q.positional.len() {
            Some(q.positional[i as int])
        } else {
            None
        },
        IdentView::Named(name) => if q.named.dom().contains(name) {
            Some(q.named[name])
        } else {
            None
        },
        IdentView::Expr(_) => None,
    }
}

// -- What is built --------------------------------------------------------

/// The values that the placeholders refer to, one after the other.
pub open spec fn arguments_of<V>(q: InterpQueryView<V>, fs: Seq<FragmentView>) -> Seq<V>
    decreases fs.len(),
{
    if fs.len() == 0 {
        seq![]
    } else {
        (match fs[0] {
            FragmentView::Literal(_) => seq![],
            FragmentView::Placeholder(p) => match binding_of(q, p.ident) {
                Some(bound) => interp_laws::values_of(bound),
                None => seq![],
            },
        }) + arguments_of(q, fs.drop_first())
    }
}

/// The literals as they are, and for each placeholder those of its arguments,
/// behind `n` arguments.
pub open spec fn text_of<A: Arguments>(
    q: InterpQueryView<A::Value>,
    fs: Seq<FragmentView>,
    n: nat,
) -> Seq<char>
    decreases fs.len(),
{
    if fs.len() == 0 {
        seq![]
    } else {
        match fs[0] {
            FragmentView::Literal(s) => s + text_of::<A>(q, fs.drop_first(), n),
            FragmentView::Placeholder(p) => match binding_of(q, p.ident) {
                Some(bound) => interp_laws::sql_of::<A>(bound, p.kleene, n) + text_of::<A>(
                    q,
                    fs.drop_first(),
                    n + interp_laws::values_of(bound).len(),
                ),
                None => text_of::<A>(q, fs.drop_first(), n),
            },
        }
    }
}

/// Does the placeholder refer to a binding, to a spread just if it has a marker?
pub open spec fn is_served<V>(q: InterpQueryView<V>, f: FragmentView) -> bool {
    f matches FragmentView::Placeholder(p) ==> (binding_of(q, p.ident) matches Some(bound) && (
    bound is Spread <==> p.kleene is Some))
}

pub open spec fn all_served<V>(q: InterpQueryView<V>, fs: Seq<FragmentView>) -> bool {
    forall|k: int| 0 <= k < fs.len() ==> is_served(q, #[trigger] fs[k])
}

/// Does the database take the values behind those before?
pub open spec fn all_taken<A: Arguments>(before: Seq<A::Value>, values: Seq<A::Value>) -> bool {
    forall|k: int|
        0 <= k < values.len() ==> A::refusal(before + values.take(k), #[trigger] values[k]) is None
}

/// Does no placeholder refer to one of `used`?
pub open spec fn none_used(fs: Seq<FragmentView>, used: Set<IdentView>) -> bool {
    forall|k: int|
        0 <= k < fs.len() ==> ((#[trigger] fs[k]) matches FragmentView::Placeholder(p)
            ==> !used.contains(p.ident))
}

/// Are the bindings that are left all but those of `used`?
spec fn agrees<V>(q: InterpQueryView<V>, unused: Unused<V>, used: Set<IdentView>) -> bool {
    &&& unused.positional.len() == q.positional.len()
    &&& forall|ident: IdentView|
        #![trigger interp_laws::available(unused, ident)]
        #![trigger used.contains(ident)]
        interp_laws::available(unused, ident) == if used.contains(ident) {
            None
        } else {
            binding_of(q, ident)
        }
}

proof fn lemma_taken_front<A: Arguments>(before: Seq<A::Value>, values: Seq<A::Value>)
    requires
        values.len() > 0,
    ensures
        all_taken::<A>(before, values) <==> A::refusal(before, values[0]) is None && all_taken::<A>(
            before.push(values[0]),
            values.drop_first(),
        ),
{
    let rest = values.drop_first();
    let next = before.push(values[0]);
    assert(before + values.take(0) =~= before);
    assert forall|k: int| 0 < k < values.len() implies #[trigger] values[k] == rest[k - 1] && before
        + values.take(k) == next + rest.take(k - 1) by {
        assert(before + values.take(k) =~= next + rest.take(k - 1));
    }
    if all_taken::<A>(before, values) {
        assert(values[0] == values[0]);
        assert forall|k: int| 0 <= k < rest.len() implies A::refusal(
            next + rest.take(k),
            #[trigger] rest[k],
        ) is None by {
            assert(values[k + 1] == rest[k]);
        }
    }
    if A::refusal(before, values[0]) is None && all_taken::<A>(next, rest) {
        assert forall|k: int| 0 <= k < values.len() implies A::refusal(
            before + values.take(k),
            #[trigger] values[k],
        ) is None by {
            if k > 0 {
                assert(rest[k - 1] == values[k]);
            }
        }
    }
}

proof fn lemma_taken_concat<A: Arguments>(
    before: Seq<A::Value>,
    first: Seq<A::Value>,
    second: Seq<A::Value>,
)
    ensures
        all_taken::<A>(before, first + second) <==> all_taken::<A>(before, first) && all_taken::<A>(
            before + first,
            second,
        ),
    decreases first.len(),
{
    if first.len() == 0 {
        assert(first + second =~= second);
        assert(before + first =~= before);
    } else {
        let rest = first.drop_first();
        lemma_taken_front::<A>(before, first + second);
        lemma_taken_front::<A>(before, first);
        assert((first + second).drop_first() =~= rest + second);
        assert((first + second)[0] == first[0]);
        lemma_taken_concat::<A>(before.push(first[0]), rest, second);
        assert(before.push(first[0]) + rest =~= before + first);
    }
}

proof fn lemma_spread_taken<A: Arguments>(
    out: Emitted<A::Value>,
    values: Seq<A::Value>,
    first: bool,
)
    ensures
        query_interp::spread_meaning::<A>(out, values, first) is Ok <==> all_taken::<A>(
            out.values,
            values,
        ),
    decreases values.len(),
{
    if values.len() > 0 {
        let start = if first {
            out
        } else {
            Emitted { sql: out.sql + ", "@, values: out.values }
        };
        lemma_taken_front::<A>(out.values, values);
        if let Ok(next) = query_interp::bind_one_meaning::<A>(start, values[0]) {
            lemma_spread_taken::<A>(next, values.drop_first(), false);
        }
    }
}

proof fn lemma_emit<A: Arguments>(
    out: Emitted<A::Value>,
    bound: BoundView<A::Value>,
    kleene: Option<Kleene>,
    name: Seq<char>,
)
    ensures
        query_interp::emit_meaning::<A>(out, bound, kleene, name) is Ok <==> (bound is Spread
            <==> kleene is Some) && all_taken::<A>(out.values, interp_laws::values_of(bound)),
{
    match bound {
        BoundView::Single(value) => {
            let values = seq![value];
            lemma_taken_front::<A>(out.values, values);
            assert(values.drop_first() =~= seq![]);
        },
        BoundView::Spread(values) => {
            lemma_spread_taken::<A>(out, values, true);
        },
    }
}

proof fn lemma_take<V>(
    q: InterpQueryView<V>,
    unused: Unused<V>,
    used: Set<IdentView>,
    ident: IdentView,
)
    requires
        agrees(q, unused, used),
    ensures
        match query_interp::take_meaning(unused, ident) {
            Ok((bound, _, left)) => !used.contains(ident) && binding_of(q, ident) == Some(bound)
                && agrees(q, left, used.insert(ident)),
            Err(_) => used.contains(ident) || binding_of(q, ident) is None,
        },
{
    assert(interp_laws::available(unused, ident) == if used.contains(ident) {
        None
    } else {
        binding_of(q, ident)
    });
    if let Ok((bound, _, left)) = query_interp::take_meaning(unused, ident) {
        assert forall|other: IdentView| interp_laws::available(left, other) == if used.insert(
            ident,
        ).contains(other) {
            None
        } else {
            binding_of(q, other)
        } by {
            assert(interp_laws::available(unused, other) == if used.contains(other) {
                None
            } else {
                binding_of(q, other)
            });
            if other != ident {
                assert(interp_laws::available(left, other) == interp_laws::available(
                    unused,
                    other,
                ));
            } else {
                assert(interp_laws::available(left, other) is None);
            }
        }
    }
}

proof fn lemma_build<A: Arguments>(
    q: InterpQueryView<A::Value>,
    fs: Seq<FragmentView>,
    unused: Unused<A::Value>,
    used: Set<IdentView>,
    out: Emitted<A::Value>,
)
    requires
        agrees(q, unused, used),
    ensures
        query_interp::fragments_meaning::<A>(fs, unused, out) is Ok <==> all_served(q, fs)
            && interp_laws::all_distinct(fs) && none_used(fs, used) && all_taken::<A>(
            out.values,
            arguments_of(q, fs),
        ),
        query_interp::fragments_meaning::<A>(fs, unused, out) matches Ok(e) ==> e.values
            == out.values + arguments_of(q, fs) && e.sql == out.sql + text_of::<A>(
            q,
            fs,
            out.values.len(),
        ),
    decreases fs.len(),
{
    if fs.len() == 0 {
        assert(out.values + arguments_of(q, fs) =~= out.values);
        assert(out.sql + Seq::<char>::empty() =~= out.sql);
    } else {
        let rest = fs.drop_first();
        lemma_front(q, fs, used);
        match fs[0] {
            FragmentView::Literal(s) => {
                let next = Emitted { sql: out.sql + s, values: out.values };
                assert(arguments_of(q, fs) =~= arguments_of(q, rest));
                lemma_build::<A>(q, rest, unused, used, next);
                if let Ok(e) = query_interp::fragments_meaning::<A>(fs, unused, out) {
                    assert(e.sql =~= out.sql + text_of::<A>(q, fs, out.values.len()));
                }
            },
            FragmentView::Placeholder(p) => {
                lemma_take(q, unused, used, p.ident);
                if let Ok((bound, name, left)) = query_interp::take_meaning(unused, p.ident) {
                    let values = interp_laws::values_of(bound);
                    lemma_emit::<A>(out, bound, p.kleene, name);
                    interp_laws::law_emission::<A>(out, bound, p.kleene, name);
                    lemma_taken_concat::<A>(out.values, values, arguments_of(q, rest));
                    if let Ok(next) = query_interp::emit_meaning::<A>(out, bound, p.kleene, name) {
                        lemma_build::<A>(q, rest, left, used.insert(p.ident), next);
                        if let Ok(e) = query_interp::fragments_meaning::<A>(fs, unused, out) {
                            assert(e.values =~= out.values + arguments_of(q, fs));
                            assert(e.sql =~= out.sql + text_of::<A>(q, fs, out.values.len()));
                        }
                    }
                }
            },
        }
    }
}

/// What holds of the fragments holds of the first and of the others.
proof fn lemma_front<V>(q: InterpQueryView<V>, fs: Seq<FragmentView>, used: Set<IdentView>)
    requires
        fs.len() > 0,
    ensures
        ({
            let rest = fs.drop_first();
            &&& all_served(q, fs) <==> is_served(q, fs[0]) && all_served(q, rest)
            &&& match fs[0] {
                FragmentView::Literal(_) => (interp_laws::all_distinct(fs) && none_used(fs, used)
                    <==> interp_laws::all_distinct(rest) && none_used(rest, used)),
                FragmentView::Placeholder(p) => (interp_laws::all_distinct(fs) && none_used(
                    fs,
                    used,
                ) <==> !used.contains(p.ident) && interp_laws::all_distinct(rest) && none_used(
                    rest,
                    used.insert(p.ident),
                )),
            }
        }),
{
    let rest = fs.drop_first();
    assert forall|k: int| 0 <= k < rest.len() implies #[trigger] rest[k] == fs[k + 1] by {}
    assert forall|k: int| 0 < k < fs.len() implies #[trigger] fs[k] == rest[k - 1] by {}
    if all_served(q, fs) {
        assert(is_served(q, fs[0]));
        assert forall|k: int| 0 <= k < rest.len() implies is_served(q, #[trigger] rest[k]) by {
            assert(is_served(q, fs[k + 1]));
        }
    }
    if interp_laws::all_distinct(fs) && none_used(fs, used) {
        assert forall|j: int, k: int|
            0 <= j < k < rest.len() && (#[trigger] rest[j]) is Placeholder && (
            #[trigger] rest[k]) is Placeholder implies rest[j]->Placeholder_0.ident
            != rest[k]->Placeholder_0.ident by {
            assert(fs[j + 1] == rest[j] && fs[k + 1] == rest[k]);
        }
        assert forall|k: int| 0 <= k < rest.len() implies ((
        #[trigger] rest[k]) matches FragmentView::Placeholder(o) ==> !used.contains(o.ident) && (
        fs[0] is Placeholder ==> o.ident != fs[0]->Placeholder_0.ident)) by {
            assert(fs[k + 1] == rest[k]);
        }
    }
    if interp_laws::all_distinct(rest) && none_used(
        rest,
        if fs[0] is Placeholder {
            used.insert(fs[0]->Placeholder_0.ident)
        } else {
            used
        },
    ) && (fs[0] is Placeholder ==> !used.contains(fs[0]->Placeholder_0.ident)) {
        assert forall|j: int, k: int|
            0 <= j < k < fs.len() && (#[trigger] fs[j]) is Placeholder && (
            #[trigger] fs[k]) is Placeholder implies fs[j]->Placeholder_0.ident
            != fs[k]->Placeholder_0.ident by {
            assert(fs[k] == rest[k - 1]);
            if j > 0 {
                assert(fs[j] == rest[j - 1]);
            }
        }
        assert forall|k: int| 0 <= k < fs.len() implies ((
        #[trigger] fs[k]) matches FragmentView::Placeholder(o) ==> !used.contains(o.ident)) by {
            if k > 0 {
                assert(fs[k] == rest[k - 1]);
            }
        }
    }
}

/// Is one of the fragments a placeholder?
pub open spec fn has_holes(fs: Seq<FragmentView>) -> bool {
    exists|k: int| 0 <= k < fs.len() && (#[trigger] fs[k]) is Placeholder
}

/// A query with placeholders is built just if each of them refers to a binding
/// of its own, to a spread just where it has a marker, and the database takes all
/// values in their order. Its arguments are these values, and its text has the
/// literals as they are, with a native placeholder for each value between them.
pub proof fn law_build<A: Arguments>(q: InterpQueryView<A::Value>, fs: Seq<FragmentView>)
    requires
        grammar::parse_meaning(q.sql) == Ok::<_, ParseErrorView>(fs),
        has_holes(fs),
    ensures
        query_interp::build_meaning::<A>(q) is Ok <==> all_served(q, fs)
            && interp_laws::all_distinct(fs) && all_taken::<A>(seq![], arguments_of(q, fs)),
        query_interp::build_meaning::<A>(q) matches Ok(e) ==> e.values == arguments_of(q, fs)
            && e.sql == text_of::<A>(q, fs, 0),
{
    let unused = query_interp::all_unused(q);
    let used = Set::<IdentView>::empty();
    let nothing = Emitted { sql: Seq::<char>::empty(), values: Seq::<A::Value>::empty() };
    assert(agrees(q, unused, used)) by {
        assert forall|ident: IdentView| interp_laws::available(unused, ident) == binding_of(
            q,
            ident,
        ) by {}
    }
    assert(none_used(fs, used));
    assert(grammar::has_placeholder(fs));
    lemma_build::<A>(q, fs, unused, used, nothing);
    assert(Seq::<A::Value>::empty() + arguments_of(q, fs) =~= arguments_of(q, fs));
    assert(Seq::<char>::empty() + text_of::<A>(q, fs, 0) =~= text_of::<A>(q, fs, 0));
}

/// A query without placeholders is its literal text, and has no arguments. To
/// bind any is an error.
pub proof fn law_build_without_placeholders<A: Arguments>(
    q: InterpQueryView<A::Value>,
    fs: Seq<FragmentView>,
)
    requires
        grammar::parse_meaning(q.sql) == Ok::<_, ParseErrorView>(fs),
        !has_holes(fs),
    ensures
        fs.len() <= 1,
        query_interp::build_meaning::<A>(q) == if q.positional.len() == 0 && q.named.dom()
            =~= Set::<Seq<char>>::empty() {
            Ok(
                Emitted::<A::Value> {
                    sql: if fs.len() == 0 {
                        seq![]
                    } else {
                        fs[0]->Literal_0
                    },
                    values: seq![],
                },
            )
        } else {
            Err(
                "bindings provided but the SQL contains no `{...}` placeholders; use `sqlx::query()` for SQL with native `?` / `$N` placeholders"@,
            )
        },
{
    parse_laws::law_literals_maximal(q.sql);
    if fs.len() > 1 {
        assert(fs[0] is Placeholder || fs[1] is Placeholder);
    }
    assert(!grammar::has_placeholder(fs));
    if q.named.dom() =~= Set::<Seq<char>>::empty() {
        assert(q.named =~= Map::empty());
    }
    assert(rewrite::literals_of(Seq::<FragmentView>::empty()) =~= seq![Seq::<char>::empty()]);
    if fs.len() == 1 {
        assert(!(fs[0] is Placeholder));
        assert(fs.drop_last() =~= seq![]);
        assert(rewrite::literals_of(fs)[0] =~= fs[0]->Literal_0);
    } else {
        assert(fs =~= seq![]);
    }
}

/// A query whose text is not accepted is rejected with the error of its text,
/// which says where it is and shows what is around it.
pub proof fn law_build_of_a_fault<A: Arguments>(q: InterpQueryView<A::Value>, e: ParseErrorView)
    requires
        grammar::parse_meaning(q.sql) == Err::<Seq<FragmentView>, _>(e),
    ensures
        query_interp::build_meaning::<A>(q) matches Err(message) && message
            == "error parsing placeholders at byte "@ + text::decimal(e.byte_position as nat)
            + ": "@ + e.message + (if e.context.len() == 0 {
            seq![]
        } else {
            " (near `"@ + e.context + "`)"@
        }),
{
    let head = "error parsing placeholders at byte "@ + text::decimal(e.byte_position as nat)
        + ": "@ + e.message;
    assert(head + Seq::<char>::empty() =~= head);
    assert(head + " (near `"@ + e.context + "`)"@ =~= head + (" (near `"@ + e.context + "`)"@));
}

// -- Why a query is not built ---------------------------------------------

/// Does one of the first `k` fragments refer to `ident`?
pub open spec fn is_taken_before(fs: Seq<FragmentView>, k: int, ident: IdentView) -> bool {
    exists|j: int|
        0 <= j < k && ((#[trigger] fs[j]) matches FragmentView::Placeholder(p) && p.ident == ident)
}

/// How a placeholder is called in messages.
pub open spec fn called(ident: IdentView) -> Seq<char> {
    match ident {
        IdentView::Positional(i) => text::decimal(i),
        IdentView::Named(name) => name,
        IdentView::Expr(t) => t,
    }
}

/// Is the message why the `k`-th fragment cannot be emitted?
pub open spec fn is_fault_of<A: Arguments>(
    q: InterpQueryView<A::Value>,
    fs: Seq<FragmentView>,
    k: int,
    message: Seq<char>,
) -> bool {
    let p = fs[k]->Placeholder_0;
    let start = "placeholder `{"@;
    &&& fs[k] is Placeholder
    &&& match (p.ident, binding_of(q, p.ident)) {
        (IdentView::Expr(_), _) => message
            == "complex-expression placeholders `{(expr)}` are not supported at runtime"@,
        (IdentView::Positional(i), None) => message == "positional placeholder `{"@ + text::decimal(
            i,
        ) + "}` referenced but only "@ + text::decimal(q.positional.len())
            + " positional argument(s) were bound"@,
        (IdentView::Positional(i), Some(_)) if is_taken_before(fs, k, p.ident) => message
            == "positional placeholder `{"@ + text::decimal(i) + "}` referenced more than once"@,
        (IdentView::Named(name), bound) if bound is None || is_taken_before(fs, k, p.ident) =>
            message == "named placeholder `{"@ + name
            + "}` referenced but no matching bind_named/bind_iter_named was called"@,
        (_, Some(BoundView::Spread(_))) if p.kleene is None => message == start + called(p.ident)
            + "}` was bound as a spread iterable but the SQL marker is not `*` or `+`"@,
        (_, Some(BoundView::Single(_))) if p.kleene is Some => message == start + called(p.ident)
            + parse_laws::marker_text(p.kleene)
            + "}` requires a spread bind (use `bind_iter` / `bind_iter_named`)"@,
        (_, Some(bound)) => exists|n: int|
            0 <= n < interp_laws::values_of(bound).len() && #[trigger] A::refusal(
                arguments_of(q, fs.take(k)) + interp_laws::values_of(bound).take(n),
                interp_laws::values_of(bound)[n],
            ) == Some(message),
        _ => false,
    }
}

/// Can all of the fragments be emitted?
pub open spec fn is_fine<A: Arguments>(q: InterpQueryView<A::Value>, fs: Seq<FragmentView>) -> bool {
    &&& all_served(q, fs)
    &&& interp_laws::all_distinct(fs)
    &&& all_taken::<A>(seq![], arguments_of(q, fs))
}

/// Is the `k`-th fragment the first at fault, and does the message say why?
pub open spec fn is_first_fault_of<A: Arguments>(
    q: InterpQueryView<A::Value>,
    fs: Seq<FragmentView>,
    k: int,
    message: Seq<char>,
) -> bool {
    0 <= k < fs.len() && is_fine::<A>(q, fs.take(k)) && is_fault_of::<A>(q, fs, k, message)
}

/// Does the message say why the first fragment at fault cannot be emitted?
pub open spec fn is_rejected_for<A: Arguments>(
    q: InterpQueryView<A::Value>,
    fs: Seq<FragmentView>,
    message: Seq<char>,
) -> bool {
    exists|k: int| #[trigger] is_first_fault_of::<A>(q, fs, k, message)
}

proof fn lemma_arguments_concat<V>(
    q: InterpQueryView<V>,
    first: Seq<FragmentView>,
    second: Seq<FragmentView>,
)
    ensures
        arguments_of(q, first + second) == arguments_of(q, first) + arguments_of(q, second),
    decreases first.len(),
{
    if first.len() == 0 {
        assert(first + second =~= second);
        assert(arguments_of(q, first) + arguments_of(q, second) =~= arguments_of(q, second));
    } else {
        lemma_arguments_concat(q, first.drop_first(), second);
        assert((first + second).drop_first() =~= first.drop_first() + second);
        assert((first + second)[0] == first[0]);
        assert(arguments_of(q, first + second) =~= arguments_of(q, first) + arguments_of(
            q,
            second,
        ));
    }
}

proof fn lemma_refused<A: Arguments>(
    out: Emitted<A::Value>,
    all: Seq<A::Value>,
    n: int,
    before: Seq<A::Value>,
    first: bool,
)
    requires
        0 <= n <= all.len(),
        out.values == before + all.take(n),
    ensures
        query_interp::spread_meaning::<A>(out, all.skip(n), first) matches Err(message)
            ==> exists|m: int|
            0 <= m < all.len() && #[trigger] A::refusal(before + all.take(m), all[m]) == Some(
                message,
            ),
    decreases all.len() - n,
{
    let values = all.skip(n);
    if values.len() > 0 {
        let start = if first {
            out
        } else {
            Emitted { sql: out.sql + ", "@, values: out.values }
        };
        assert(values[0] == all[n]);
        match query_interp::bind_one_meaning::<A>(start, values[0]) {
            Ok(next) => {
                assert(next.values =~= before + all.take(n + 1));
                assert(values.drop_first() =~= all.skip(n + 1));
                lemma_refused::<A>(next, all, n + 1, before, false);
            },
            Err(message) => {
                assert(A::refusal(before + all.take(n), all[n]) == Some(message));
            },
        }
    }
}

/// One more fragment that can be emitted.
proof fn lemma_one_more_fine<A: Arguments>(q: InterpQueryView<A::Value>, fs: Seq<FragmentView>, k: int)
    requires
        0 <= k < fs.len(),
        is_fine::<A>(q, fs.take(k)),
        is_served(q, fs[k]),
        fs[k] matches FragmentView::Placeholder(p) ==> !is_taken_before(fs, k, p.ident)
            && all_taken::<A>(
            arguments_of(q, fs.take(k)),
            interp_laws::values_of(binding_of(q, p.ident)->0),
        ),
    ensures
        is_fine::<A>(q, fs.take(k + 1)),
        arguments_of(q, fs.take(k + 1)) == arguments_of(q, fs.take(k)) + match fs[k] {
            FragmentView::Literal(_) => seq![],
            FragmentView::Placeholder(p) => interp_laws::values_of(binding_of(q, p.ident)->0),
        },
{
    let before = fs.take(k);
    let more = fs.take(k + 1);
    let one = seq![fs[k]];
    assert(more =~= before + one);
    lemma_arguments_concat(q, before, one);
    assert(one.drop_first() =~= seq![]);
    assert(arguments_of(q, one.drop_first()) =~= seq![]);
    let added = match fs[k] {
        FragmentView::Literal(_) => seq![],
        FragmentView::Placeholder(p) => interp_laws::values_of(binding_of(q, p.ident)->0),
    };
    assert(arguments_of(q, one) =~= added);
    let nothing = Seq::<A::Value>::empty();
    lemma_taken_concat::<A>(nothing, arguments_of(q, before), added);
    assert(nothing + arguments_of(q, before) =~= arguments_of(q, before));
    assert forall|j: int| 0 <= j < more.len() implies is_served(q, #[trigger] more[j]) by {
        if j < k {
            assert(more[j] == before[j]);
        }
    }
    assert forall|i: int, j: int|
        0 <= i < j < more.len() && (#[trigger] more[i]) is Placeholder && (
        #[trigger] more[j]) is Placeholder implies more[i]->Placeholder_0.ident
        != more[j]->Placeholder_0.ident by {
        assert(more[i] == before[i]);
        if j < k {
            assert(more[j] == before[j]);
        } else {
            assert(more[j] == fs[k]);
            assert(fs[i] == more[i]);
        }
    }
}

proof fn lemma_fault<A: Arguments>(
    q: InterpQueryView<A::Value>,
    fs: Seq<FragmentView>,
    k: int,
    unused: Unused<A::Value>,
    used: Set<IdentView>,
    out: Emitted<A::Value>,
)
    requires
        0 <= k <= fs.len(),
        agrees(q, unused, used),
        forall|ident: IdentView| #[trigger] used.contains(ident) <==> is_taken_before(fs, k, ident),
        out.values == arguments_of(q, fs.take(k)),
        is_fine::<A>(q, fs.take(k)),
    ensures
        query_interp::fragments_meaning::<A>(fs.skip(k), unused, out) matches Err(message)
            ==> is_rejected_for::<A>(q, fs, message),
    decreases fs.len() - k,
{
    let rest = fs.skip(k);
    if k < fs.len() {
        assert(rest[0] == fs[k]);
        assert(rest.drop_first() =~= fs.skip(k + 1));
        match fs[k] {
            FragmentView::Literal(s) => {
                lemma_one_more_fine::<A>(q, fs, k);
                let next = Emitted { sql: out.sql + s, values: out.values };
                assert(out.values + Seq::<A::Value>::empty() =~= out.values);
                assert forall|ident: IdentView| #[trigger]
                    used.contains(ident) <==> is_taken_before(fs, k + 1, ident) by {
                    if is_taken_before(fs, k + 1, ident) {
                        let j = choose|j: int|
                            0 <= j < k + 1 && ((
                            #[trigger] fs[j]) matches FragmentView::Placeholder(p) && p.ident
                                == ident);
                        assert(j < k);
                    }
                    if is_taken_before(fs, k, ident) {
                        let j = choose|j: int|
                            0 <= j < k && ((#[trigger] fs[j]) matches FragmentView::Placeholder(p)
                                && p.ident == ident);
                        assert(fs[j] is Placeholder);
                    }
                }
                lemma_fault::<A>(q, fs, k + 1, unused, used, next);
                assert(query_interp::fragments_meaning::<A>(rest, unused, out)
                    == query_interp::fragments_meaning::<A>(fs.skip(k + 1), unused, next));
            },
            FragmentView::Placeholder(p) => {
                lemma_take(q, unused, used, p.ident);
                assert(interp_laws::available(unused, p.ident) == if used.contains(p.ident) {
                    None
                } else {
                    binding_of(q, p.ident)
                });
                match query_interp::take_meaning(unused, p.ident) {
                    Err(message) => {
                        assert(is_fault_of::<A>(q, fs, k, message));
                        assert(is_first_fault_of::<A>(q, fs, k, message));
                        assert(query_interp::fragments_meaning::<A>(rest, unused, out) == Err::<
                            Emitted<A::Value>,
                            _,
                        >(message));
                    },
                    Ok((bound, name, left)) => {
                        let values = interp_laws::values_of(bound);
                        lemma_emit::<A>(out, bound, p.kleene, name);
                        interp_laws::law_emission::<A>(out, bound, p.kleene, name);
                        match query_interp::emit_meaning::<A>(out, bound, p.kleene, name) {
                            Err(message) => {
                                assert(!is_taken_before(fs, k, p.ident));
                                assert(name == called(p.ident));
                                if bound is Spread <==> p.kleene is Some {
                                    match bound {
                                        BoundView::Single(value) => {
                                            assert(out.values + values.take(0) =~= out.values);
                                            assert(A::refusal(
                                                out.values + values.take(0),
                                                values[0],
                                            ) == Some(message));
                                        },
                                        BoundView::Spread(items) => {
                                            assert(items.skip(0) =~= items);
                                            assert(out.values + items.take(0) =~= out.values);
                                            lemma_refused::<A>(out, items, 0, out.values, true);
                                        },
                                    }
                                }
                                assert(is_fault_of::<A>(q, fs, k, message));
                                assert(is_first_fault_of::<A>(q, fs, k, message));
                                assert(query_interp::fragments_meaning::<A>(rest, unused, out)
                                    == Err::<Emitted<A::Value>, _>(message));
                            },
                            Ok(next) => {
                                lemma_one_more_fine::<A>(q, fs, k);
                                let more = used.insert(p.ident);
                                assert forall|ident: IdentView| #[trigger]
                                    more.contains(ident) <==> is_taken_before(
                                        fs,
                                        k + 1,
                                        ident,
                                    ) by {
                                    assert(used.contains(ident) <==> is_taken_before(
                                        fs,
                                        k,
                                        ident,
                                    ));
                                    if ident == p.ident {
                                        assert(fs[k] is Placeholder);
                                        assert(is_taken_before(fs, k + 1, ident));
                                    } else {
                                        if is_taken_before(fs, k + 1, ident) {
                                            let j = choose|j: int|
                                                0 <= j < k + 1 && ((
                                                #[trigger] fs[j]) matches FragmentView::Placeholder(
                                                    o,
                                                ) && o.ident == ident);
                                            assert(j < k);
                                            assert(is_taken_before(fs, k, ident));
                                        }
                                        if is_taken_before(fs, k, ident) {
                                            let j = choose|j: int|
                                                0 <= j < k && ((
                                                #[trigger] fs[j]) matches FragmentView::Placeholder(
                                                    o,
                                                ) && o.ident == ident);
                                            assert(0 <= j < k + 1 && fs[j] is Placeholder);
                                            assert(is_taken_before(fs, k + 1, ident));
                                        }
                                    }
                                }
                                lemma_fault::<A>(q, fs, k + 1, left, more, next);
                                assert(query_interp::fragments_meaning::<A>(rest, unused, out)
                                    == query_interp::fragments_meaning::<A>(
                                    fs.skip(k + 1),
                                    left,
                                    next,
                                ));
                            },
                        }
                    },
                }
            },
        }
    }
}

/// A query with placeholders that is not built is rejected for the first of them
/// that cannot be emitted, with the message that says why.
pub proof fn law_build_error<A: Arguments>(
    q: InterpQueryView<A::Value>,
    fs: Seq<FragmentView>,
    message: Seq<char>,
)
    requires
        grammar::parse_meaning(q.sql) == Ok::<_, ParseErrorView>(fs),
        has_holes(fs),
        query_interp::build_meaning::<A>(q) == Err::<Emitted<A::Value>, _>(message),
    ensures
        is_rejected_for::<A>(q, fs, message),
{
    let unused = query_interp::all_unused(q);
    let used = Set::<IdentView>::empty();
    let nothing = Emitted { sql: Seq::<char>::empty(), values: Seq::<A::Value>::empty() };
    assert(agrees(q, unused, used)) by {
        assert forall|ident: IdentView| interp_laws::available(unused, ident) == binding_of(
            q,
            ident,
        ) by {}
    }
    assert(grammar::has_placeholder(fs));
    assert(fs.skip(0) =~= fs);
    assert(fs.take(0) =~= seq![]);
    assert(is_fine::<A>(q, fs.take(0)));
    lemma_fault::<A>(q, fs, 0, unused, used, nothing);
}

// -- How much room is asked for -------------------------------------------

/// All values that are bound by the bindings, one after the other.
pub open spec fn all_values<V>(bounds: Seq<BoundView<V>>) -> Seq<V>
    decreases bounds.len(),
{
    if bounds.len() == 0 {
        seq![]
    } else {
        all_values(bounds.drop_last()) + interp_laws::values_of(bounds.last())
    }
}

/// About how many bytes the values take.
pub open spec fn total_size<A: Arguments>(values: Seq<A::Value>) -> nat
    decreases values.len(),
{
    if values.len() == 0 {
        0
    } else {
        A::estimated_size(values[0]) as nat + total_size::<A>(values.drop_first())
    }
}

/// Are these all names that are bound, each once?
pub open spec fn are_the_names<V>(q: InterpQueryView<V>, names: Seq<Seq<char>>) -> bool {
    &&& names.no_duplicates()
    &&& forall|name: Seq<char>| #[trigger] names.contains(name) <==> q.named.dom().contains(name)
}

/// All bindings: those of the indices, and those of the names.
pub open spec fn all_bindings<V>(q: InterpQueryView<V>, names: Seq<Seq<char>>) -> Seq<BoundView<V>> {
    q.positional + Seq::new(names.len(), |i: int| q.named[names[i]])
}

proof fn lemma_size_concat<A: Arguments>(a: Seq<A::Value>, b: Seq<A::Value>)
    ensures
        total_size::<A>(a + b) == total_size::<A>(a) + total_size::<A>(b),
    decreases a.len(),
{
    if a.len() == 0 {
        assert(a + b =~= b);
    } else {
        lemma_size_concat::<A>(a.drop_first(), b);
        assert((a + b).drop_first() =~= a.drop_first() + b);
        assert((a + b)[0] == a[0]);
    }
}

proof fn lemma_bound_size<A: Arguments>(bound: BoundView<A::Value>)
    ensures
        query_interp::bound_len(bound) == interp_laws::values_of(bound).len(),
        query_interp::bound_size::<A>(bound) == total_size::<A>(interp_laws::values_of(bound)),
{
    match bound {
        BoundView::Single(value) => {
            let one = seq![value];
            assert(one.drop_first() =~= seq![]);
            assert(total_size::<A>(one.drop_first()) == 0);
        },
        BoundView::Spread(values) => {
            lemma_values_size::<A>(values);
        },
    }
}

proof fn lemma_values_size<A: Arguments>(values: Seq<A::Value>)
    ensures
        query_interp::values_size::<A>(values) == total_size::<A>(values),
    decreases values.len(),
{
    if values.len() > 0 {
        let front = values.drop_last();
        let one = seq![values.last()];
        lemma_values_size::<A>(front);
        assert(values =~= front + one);
        lemma_size_concat::<A>(front, one);
        assert(one.drop_first() =~= seq![]);
        assert(total_size::<A>(one.drop_first()) == 0);
    }
}

proof fn lemma_weight<A: Arguments>(bounds: Seq<BoundView<A::Value>>)
    ensures
        query_interp::weight(bounds, |b: BoundView<A::Value>| query_interp::bound_len(b))
            == all_values(bounds).len(),
        query_interp::weight(bounds, |b: BoundView<A::Value>| query_interp::bound_size::<A>(b))
            == total_size::<A>(all_values(bounds)),
    decreases bounds.len(),
{
    if bounds.len() > 0 {
        lemma_weight::<A>(bounds.drop_last());
        lemma_bound_size::<A>(bounds.last());
        lemma_size_concat::<A>(
            all_values(bounds.drop_last()),
            interp_laws::values_of(bounds.last()),
        );
    }
}

proof fn lemma_weight_concat<V>(
    a: Seq<BoundView<V>>,
    b: Seq<BoundView<V>>,
    of: spec_fn(BoundView<V>) -> nat,
)
    ensures
        query_interp::weight(a + b, of) == query_interp::weight(a, of) + query_interp::weight(b, of),
    decreases b.len(),
{
    if b.len() == 0 {
        assert(a + b =~= a);
    } else {
        lemma_weight_concat(a, b.drop_last(), of);
        assert((a + b).drop_last() =~= a + b.drop_last());
        assert((a + b).last() == b.last());
    }
}

proof fn lemma_named_weight<V>(
    named: Map<Seq<char>, BoundView<V>>,
    names: Seq<Seq<char>>,
    of: spec_fn(BoundView<V>) -> nat,
)
    requires
        names.no_duplicates(),
        forall|name: Seq<char>| #[trigger] names.contains(name) <==> named.dom().contains(name),
    ensures
        query_interp::named_weight(named, of) == query_interp::weight(
            Seq::new(names.len(), |i: int| named[names[i]]),
            of,
        ),
    decreases names.len(),
{
    let bounds = Seq::new(names.len(), |i: int| named[names[i]]);
    assert(named.dom() =~= names.to_set());
    names.unique_seq_to_set();
    if names.len() > 0 {
        let name = names.last();
        let front = names.drop_last();
        let rest = named.remove(name);
        assert(names.contains(name)) by {
            assert(names[names.len() - 1] == name);
        }
        query_interp::lemma_named_weight(named, of, name);
        assert forall|other: Seq<char>| #[trigger]
            front.contains(other) <==> rest.dom().contains(other) by {
            if front.contains(other) {
                let i = choose|i: int| 0 <= i < front.len() && front[i] == other;
                assert(names[i] == other);
                assert(names.contains(other));
                assert(names[i] != names[names.len() - 1]);
            }
            if rest.dom().contains(other) {
                assert(names.contains(other));
                let i = choose|i: int| 0 <= i < names.len() && names[i] == other;
                assert(i < front.len());
                assert(front[i] == other);
            }
        }
        lemma_named_weight(rest, front, of);
        assert(bounds.drop_last() =~= Seq::new(front.len(), |i: int| rest[front[i]])) by {
            assert forall|i: int| 0 <= i < front.len() implies #[trigger] named[names[i]]
                == rest[front[i]] by {
                assert(names[i] != names[names.len() - 1]);
            }
        }
    } else {
        assert(named.dom().len() == 0);
    }
}

/// A query with placeholders asks for room once, for all values that are bound,
/// and for the bytes that they take; any other asks for none.
pub proof fn law_room<A: Arguments>(q: InterpQueryView<A::Value>, names: Seq<Seq<char>>)
    requires
        are_the_names(q, names),
    ensures
        ({
            let values = all_values(all_bindings(q, names));
            query_interp::room_requests::<A>(q) == match grammar::parse_meaning(q.sql) {
                Ok(fs) if has_holes(fs) => seq![
                    (text::capped(values.len()), text::capped(total_size::<A>(values))),
                ],
                _ => seq![],
            }
        }),
        forall|n: nat| n <= usize::MAX ==> #[trigger] text::capped(n) == n,
{
    let all = all_bindings(q, names);
    let by_name = Seq::new(names.len(), |i: int| q.named[names[i]]);
    let len = |b: BoundView<A::Value>| query_interp::bound_len(b);
    let size = |b: BoundView<A::Value>| query_interp::bound_size::<A>(b);
    lemma_named_weight(q.named, names, len);
    lemma_named_weight(q.named, names, size);
    lemma_weight_concat(q.positional, by_name, len);
    lemma_weight_concat(q.positional, by_name, size);
    lemma_weight::<A>(all);
    if let Ok(fs) = grammar::parse_meaning(q.sql) {
        assert(has_holes(fs) <==> grammar::has_placeholder(fs));
    }
}

} // verus!
