//! What holds of every argument list.
use crate::expr;
use crate::input;
use crate::input::{ArgsListView, ElementKindView, TokenRange};
use crate::tokens;
use crate::tokens::TokenView;
use vstd::prelude::*;

verus! {

/// Each argument is found where it is written, arguments of a kind come in the
/// order in which they are written, and positional ones before all others.
pub open spec fn in_order(args: ArgsListView, hi: int) -> bool {
    &&& args.positional.len() == args.positional_at.len()
    &&& args.named.len() == args.named_at.len()
    &&& args.rest is Some <==> args.rest_at is Some
    &&& forall|k: int|
        0 <= k < args.positional_at.len() ==> (#[trigger] args.positional_at[k]).start
            < args.positional_at[k].end <= hi
    &&& forall|k: int|
        0 <= k < args.named_at.len() ==> (#[trigger] args.named_at[k]).start < args.named_at[k].end
            <= hi
    &&& args.rest_at matches Some(range) ==> range.start < range.end <= hi
    &&& forall|j: int, k: int|
        0 <= j < k < args.positional_at.len() ==> (#[trigger] args.positional_at[j]).end <= (
        #[trigger] args.positional_at[k]).start
    &&& forall|j: int, k: int|
        0 <= j < k < args.named_at.len() ==> (#[trigger] args.named_at[j]).end <= (
        #[trigger] args.named_at[k]).start
    &&& forall|j: int, k: int|
        0 <= j < args.positional_at.len() && 0 <= k < args.named_at.len() ==> (
        #[trigger] args.positional_at[j]).end <= (#[trigger] args.named_at[k]).start
    &&& args.rest_at matches Some(range) ==> forall|j: int|
        0 <= j < args.positional_at.len() ==> (#[trigger] args.positional_at[j]).end <= range.start
}

pub proof fn lemma_expr_at(ts: Seq<TokenView>, i: int)
    requires
        0 <= i <= ts.len(),
    ensures
        expr::expr_at(ts, i) matches Ok((_, next)) ==> i < next <= ts.len(),
{
    if let Ok(rest) = expr::expr_rest(tokens::tokens_text(ts.subrange(i, ts.len() as int))) {
        tokens::lemma_rest_start(ts, ts.len(), rest);
    }
}

proof fn lemma_in_order(list: int, ts: Seq<TokenView>, i: int, args: ArgsListView)
    requires
        ts.len() <= usize::MAX,
        0 <= i,
        in_order(args, i),
    ensures
        input::args_from(list, ts, i, args) matches Ok(all) ==> exists|hi: int| in_order(all, hi),
    decreases ts.len() - i,
{
    if i < ts.len() {
        if let Ok((more, next)) = input::element_at(list, ts, i, args) {
            let kind = input::kind_at(ts, i);
            let start = input::expr_start(kind, i);
            assert(start <= ts.len());
            lemma_expr_at(ts, start);
            assert(start < next <= ts.len());
            assert(in_order(more, next));
            if next < ts.len() && tokens::is_punct(ts, next, ',') {
                assert(in_order(more, next + 1));
                lemma_in_order(list, ts, next + 1, more);
            }
        }
    }
}

/// In an argument list that is accepted, positional arguments come first, and
/// the arguments of each kind are in the order in which they are written.
pub proof fn law_positional_arguments_first(list: int, ts: Seq<TokenView>)
    requires
        ts.len() <= usize::MAX,
    ensures
        input::args_from(list, ts, 0, input::no_args()) matches Ok(args) ==> exists|hi: int|
            in_order(args, hi),
{
    lemma_in_order(list, ts, 0, input::no_args());
}

/// A second `..rest` is rejected, and so is a positional argument behind a named
/// one or `..rest`; every other element is added.
pub proof fn law_elements_accepted(
    args: ArgsListView,
    kind: ElementKindView,
    e: expr::ExprView,
    range: TokenRange,
)
    ensures
        input::with_element(args, kind, e, range) is Err <==> (kind is Rest && args.rest is Some)
            || (kind is Positional && (args.named.len() > 0 || args.rest is Some)),
{
}

/// A `record` or `scalar` key is rejected once there was one, and the type of
/// the records is never set twice.
pub proof fn law_one_record_type(
    ts: Seq<TokenView>,
    key: Seq<char>,
    i: int,
    before: input::PartialInputView,
)
    requires
        !(before.record_type is Generated),
    ensures
        key == "record"@ || key == "scalar"@ ==> input::with_value(ts, key, i, before) is Err,
        input::with_value(ts, key, i, before) matches Ok((after, _)) ==> after.record_type
            == before.record_type,
{
    reveal_strlit("source");
    reveal_strlit("source_file");
    reveal_strlit("args");
    reveal_strlit("record");
    reveal_strlit("scalar");
    assert("record"@[0] == 'r' && "source"@[0] == 's');
    assert("scalar"@[1] == 'c' && "source"@[1] == 'o');
}

} // verus!
