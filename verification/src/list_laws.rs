//! What it means that a macro is called with a list of arguments, and with
//! entries, told by the tokens that they are written with.
use crate::expr;
use crate::expr::ExprView;
use crate::input;
use crate::input::{
    ArgsListView, ElementKindView, InputErrorView, PartialInputView, QuerySrcView, RecordTypeView, SourceFileView, SourceView, TokenRange,
};
use crate::tokens;
use crate::tokens::{Delimiter, TokenView};
use vstd::prelude::*;

verus! {

// -- The elements of an argument list -------------------------------------

/// Is the `i`-th token the punctuation character `c`?
pub open spec fn is_char_at(ts: Seq<TokenView>, i: int, c: char) -> bool {
    0 <= i < ts.len() && (ts[i] == TokenView::Punct(c, true) || ts[i] == TokenView::Punct(c, false))
}

/// Is `..` written at the `i`-th token?
pub open spec fn has_dots(ts: Seq<TokenView>, i: int) -> bool {
    0 <= i < ts.len() && ts[i] == TokenView::Punct('.', true) && is_char_at(ts, i + 1, '.')
}

/// Is `name =` written at the `i`-th token, and not `name ==`?
pub open spec fn has_name(ts: Seq<TokenView>, i: int, name: Seq<char>) -> bool {
    &&& 0 <= i < ts.len()
    &&& ts[i] == TokenView::Ident(name)
    &&& expr::is_name(name)
    &&& is_char_at(ts, i + 1, '=')
    &&& !(ts[i + 1] == TokenView::Punct('=', true) && is_char_at(ts, i + 2, '='))
}

/// Is the element at the `i`-th token of this kind?
pub open spec fn is_of_kind(ts: Seq<TokenView>, i: int, kind: ElementKindView) -> bool {
    match kind {
        ElementKindView::Rest => has_dots(ts, i),
        ElementKindView::Named(name) => has_name(ts, i, name),
        ElementKindView::Positional => !has_dots(ts, i) && forall|name: Seq<char>|
            !#[trigger] has_name(ts, i, name),
    }
}

/// An element of an argument list: its kind, and the expression that is written
/// from the `start`-th to the `end`-th token.
pub struct Element {
    pub kind: ElementKindView,
    pub start: int,
    pub end: int,
    pub e: ExprView,
}

/// Is this element written at the `i`-th token?
pub open spec fn is_element(ts: Seq<TokenView>, i: int, el: Element) -> bool {
    &&& is_of_kind(ts, i, el.kind)
    &&& el.start == if el.kind is Positional {
        i
    } else {
        i + 2
    }
    &&& expr::expr_at(ts, el.start) == Ok::<_, Seq<char>>((el.e, el.end))
}

/// May an element of the kind come behind the arguments?
pub open spec fn may_follow(args: ArgsListView, kind: ElementKindView) -> bool {
    match kind {
        ElementKindView::Rest => args.rest is None,
        ElementKindView::Named(_) => true,
        ElementKindView::Positional => args.named.len() == 0 && args.rest is None,
    }
}

/// Are the arguments `after` those `before` and the element, and no others?
pub open spec fn is_added(
    list: int,
    before: ArgsListView,
    el: Element,
    after: ArgsListView,
) -> bool {
    let range = TokenRange {
        list: list as usize,
        start: el.start as usize,
        end: el.end as usize,
    };
    &&& after.positional == if el.kind is Positional {
        before.positional.push(el.e)
    } else {
        before.positional
    }
    &&& after.positional_at == if el.kind is Positional {
        before.positional_at.push(range)
    } else {
        before.positional_at
    }
    &&& after.named == if let ElementKindView::Named(name) = el.kind {
        before.named.push((name, el.e))
    } else {
        before.named
    }
    &&& after.named_at == if el.kind is Named {
        before.named_at.push(range)
    } else {
        before.named_at
    }
    &&& after.rest == if el.kind is Rest {
        Some(el.e)
    } else {
        before.rest
    }
    &&& after.rest_at == if el.kind is Rest {
        Some(range)
    } else {
        before.rest_at
    }
}

/// The arguments after each of some elements, and where the next one begins.
pub struct Stop {
    pub el: Element,
    pub args: ArgsListView,
}

/// Do the elements, each with a comma behind it, lead from the `i`-th token and
/// the arguments `before` to the `j`-th token and the arguments `after`?
pub open spec fn leads(
    list: int,
    ts: Seq<TokenView>,
    i: int,
    before: ArgsListView,
    stops: Seq<Stop>,
    j: int,
    after: ArgsListView,
) -> bool
    decreases stops.len(),
{
    if stops.len() == 0 {
        i == j && before == after
    } else {
        let el = stops[0].el;
        &&& is_element(ts, i, el)
        &&& may_follow(before, el.kind)
        &&& is_added(list, before, el, stops[0].args)
        &&& is_char_at(ts, el.end, ',')
        &&& leads(list, ts, el.end + 1, stops[0].args, stops.drop_first(), j, after)
    }
}

/// Does the list end at the `j`-th token: there, or behind one more element?
pub open spec fn is_end(
    list: int,
    ts: Seq<TokenView>,
    j: int,
    before: ArgsListView,
    last: Option<Element>,
    args: ArgsListView,
) -> bool {
    match last {
        None => j == ts.len() && args == before,
        Some(el) => {
            &&& is_element(ts, j, el)
            &&& may_follow(before, el.kind)
            &&& is_added(list, before, el, args)
            &&& el.end == ts.len()
        },
    }
}

/// Is there a fault in the element at the `j`-th token, and is it the error?
pub open spec fn is_list_fault(
    ts: Seq<TokenView>,
    j: int,
    before: ArgsListView,
    kind: ElementKindView,
    e: InputErrorView,
) -> bool {
    let start = if kind is Positional {
        j
    } else {
        j + 2
    };
    &&& 0 <= j < ts.len()
    &&& is_of_kind(ts, j, kind)
    &&& e.arg_at is None
    &&& if kind is Rest && before.rest is Some {
        e.at == j && e.message == "only one `..rest` argument is allowed"@
    } else {
        match expr::expr_at(ts, start) {
            Err(message) => e.at == start && e.message == message,
            Ok((_, end)) => if !may_follow(before, kind) {
                e.at == start as usize && e.message
                    == "positional arguments must come before named arguments and `..rest`"@
            } else {
                end < ts.len() && !is_char_at(ts, end, ',') && e.at == end && e.message
                    == "expected `,`"@
            },
        }
    }
}

/// Is it what comes of reading the list from the `i`-th token on?
pub open spec fn is_list_result(
    list: int,
    ts: Seq<TokenView>,
    i: int,
    before: ArgsListView,
    stops: Seq<Stop>,
    j: int,
    between: ArgsListView,
    r: Result<ArgsListView, InputErrorView>,
) -> bool {
    &&& leads(list, ts, i, before, stops, j, between)
    &&& match r {
        Ok(args) => ends_with(list, ts, j, between, args),
        Err(e) => is_faulty(ts, j, between, e),
    }
}

pub open spec fn ends_with(
    list: int,
    ts: Seq<TokenView>,
    j: int,
    before: ArgsListView,
    args: ArgsListView,
) -> bool {
    exists|last: Option<Element>| #[trigger] is_end(list, ts, j, before, last, args)
}

pub open spec fn is_faulty(
    ts: Seq<TokenView>,
    j: int,
    before: ArgsListView,
    e: InputErrorView,
) -> bool {
    exists|kind: ElementKindView| #[trigger] is_list_fault(ts, j, before, kind, e)
}

pub proof fn lemma_kind(ts: Seq<TokenView>, i: int)
    requires
        0 <= i < ts.len(),
    ensures
        is_of_kind(ts, i, input::kind_at(ts, i)),
{
    let kind = input::kind_at(ts, i);
    if i + 1 < ts.len() {
        if let TokenView::Punct(c, joint) = ts[i + 1] {
            assert(joint || !joint);
        }
    }
    if i + 2 < ts.len() {
        if let TokenView::Punct(c, joint) = ts[i + 2] {
            assert(joint || !joint);
        }
    }
    if kind is Positional {
        assert forall|name: Seq<char>| !#[trigger] has_name(ts, i, name) by {}
    }
}

proof fn lemma_list(list: int, ts: Seq<TokenView>, i: int, before: ArgsListView) -> (r: (
    Seq<Stop>,
    int,
    ArgsListView,
))
    requires
        0 <= i <= ts.len(),
    ensures
        is_list_result(
            list,
            ts,
            i,
            before,
            r.0,
            r.1,
            r.2,
            input::args_from(list, ts, i, before),
        ),
    decreases ts.len() - i,
{
    if i == ts.len() {
        let last: Option<Element> = None;
        assert(is_end(list, ts, i, before, last, before));
        (seq![], i, before)
    } else {
        lemma_kind(ts, i);
        let kind = input::kind_at(ts, i);
        let start = input::expr_start(kind, i);
        match input::element_at(list, ts, i, before) {
            Err(e) => {
                assert(is_list_fault(ts, i, before, kind, e));
                (seq![], i, before)
            },
            Ok((more, next)) => {
                let el = Element { kind, start, end: next, e: expr::expr_at(ts, start)->Ok_0.0 };
                assert(is_element(ts, i, el));
                assert(is_added(list, before, el, more));
                crate::input_laws::lemma_expr_at(ts, start);
                lemma_char_at(ts, next, ',');
                if next == ts.len() {
                    assert(is_end(list, ts, i, before, Some(el), more));
                    (seq![], i, before)
                } else if tokens::is_punct(ts, next, ',') {
                    let (stops, j, between) = lemma_list(list, ts, next + 1, more);
                    let all = seq![Stop { el, args: more }] + stops;
                    assert(all.drop_first() =~= stops);
                    (all, j, between)
                } else {
                    let e = input::args_from(list, ts, i, before)->Err_0;
                    assert(is_list_fault(ts, i, before, kind, e));
                    (seq![], i, before)
                }
            },
        }
    }
}

/// An element is added as what it is, behind those before it, or refused: a second
/// `..rest`, and a positional one behind a named one or `..rest`.
pub proof fn law_with_element(
    args: ArgsListView,
    kind: ElementKindView,
    e: ExprView,
    range: TokenRange,
)
    ensures
        ({
            let el = Element { kind, start: range.start as int, end: range.end as int, e };
            match input::with_element(args, kind, e, range) {
                Ok(more) => may_follow(args, kind) && is_added(range.list as int, args, el, more),
                Err(error) => {
                    &&& !may_follow(args, kind)
                    &&& error.at == range.start
                    &&& error.arg_at is None
                    &&& error.message == if kind is Rest {
                        "only one `..rest` argument is allowed"@
                    } else {
                        "positional arguments must come before named arguments and `..rest`"@
                    }
                },
            }
        }),
{
}

/// The source that string literals make is their texts as one.
pub proof fn law_string_source(values: Seq<Seq<char>>, i: usize)
    ensures
        input::string_source(values, i) == (SourceView {
            src: QuerySrcView::String(concatenated(values)),
            at: i,
            token: if values.len() == 1 {
                Some(i)
            } else {
                None
            },
        }),
{
    lemma_joined(values);
}

/// The arguments are the elements of their list, each as what it is written, in
/// their order, with a comma between each two and perhaps one at the end; or the
/// list is rejected at its first fault.
pub proof fn law_list(list: int, ts: Seq<TokenView>, before: ArgsListView)
    ensures
        exists|stops: Seq<Stop>, j: int, between: ArgsListView| #[trigger]
            is_list_result(
                list,
                ts,
                0,
                before,
                stops,
                j,
                between,
                input::args_from(list, ts, 0, before),
            ),
{
    let (stops, j, between) = lemma_list(list, ts, 0, before);
    assert(is_list_result(
        list,
        ts,
        0,
        before,
        stops,
        j,
        between,
        input::args_from(list, ts, 0, before),
    ));
}

// -- The entries of the input ---------------------------------------------

/// Is it the error with the message at the `i`-th token, which may be missing?
pub open spec fn is_error_here(
    ts: Seq<TokenView>,
    i: int,
    message: Seq<char>,
    e: InputErrorView,
) -> bool {
    &&& e.at == i
    &&& e.arg_at is None
    &&& e.message == if i < ts.len() {
        message
    } else {
        "unexpected end of input, "@ + message
    }
}

/// Is the `i`-th token a string literal with the value `s`?
pub open spec fn is_string_at(ts: Seq<TokenView>, i: int, s: Seq<char>) -> bool {
    0 <= i < ts.len() && ts[i] is Literal && expr::str_value(ts[i]->Literal_0) == Some(s)
}

/// Is there a `+` behind the `k`-th string literal from the `i`-th token on?
pub open spec fn has_plus_behind(ts: Seq<TokenView>, i: int, k: int) -> bool {
    is_char_at(ts, i + 2 * k + 1, '+')
}

/// Are string literals with these values written from the `i`-th to the
/// `next`-th token, with a `+` between each two and none behind the last?
pub open spec fn are_strings_at(
    ts: Seq<TokenView>,
    i: int,
    values: Seq<Seq<char>>,
    next: int,
) -> bool {
    &&& values.len() > 0
    &&& next == i + 2 * values.len() - 1
    &&& forall|k: int| 0 <= k < values.len() ==> is_string_at(ts, i + 2 * k, #[trigger] values[k])
    &&& forall|k: int| 0 <= k < values.len() - 1 ==> #[trigger] has_plus_behind(ts, i, k)
    &&& !is_char_at(ts, next, '+')
}

/// The texts, one after the other.
pub open spec fn concatenated(texts: Seq<Seq<char>>) -> Seq<char>
    decreases texts.len(),
{
    if texts.len() == 0 {
        seq![]
    } else {
        texts[0] + concatenated(texts.drop_first())
    }
}

/// Do string literals tell the source: their texts as one, and the token of the
/// first, which is the whole text only if it is the only one?
pub open spec fn is_string_source(
    ts: Seq<TokenView>,
    i: int,
    values: Seq<Seq<char>>,
    next: int,
    source: Option<SourceView>,
) -> bool {
    are_strings_at(ts, i, values, next) && source == Some(
        SourceView {
            src: QuerySrcView::String(concatenated(values)),
            at: i as usize,
            token: if values.len() == 1 {
                Some(i as usize)
            } else {
                None
            },
        },
    )
}

/// Is the source told by string literals from the `i`-th to the `next`-th token?
pub open spec fn tells_string(
    ts: Seq<TokenView>,
    i: int,
    next: int,
    source: Option<SourceView>,
) -> bool {
    exists|values: Seq<Seq<char>>| #[trigger] is_string_source(ts, i, values, next, source)
}

/// Is the source the file that the `i`-th token names?
pub open spec fn tells_file(ts: Seq<TokenView>, i: int, source: Option<SourceView>) -> bool {
    source matches Some(told) && told.at == i as usize && told.token is None && (
    told.src matches QuerySrcView::File(file) && is_string_at(ts, i, file))
}

/// Is the input `after` that `before` with the value for `key`, which is written
/// from the `i`-th to the `next`-th token, and nothing else changed?
pub open spec fn is_value(
    ts: Seq<TokenView>,
    key: Seq<char>,
    i: int,
    before: PartialInputView,
    after: PartialInputView,
    next: int,
) -> bool {
    let same_source = after.source == before.source;
    let same_args = after.args == before.args;
    let same_type = after.record_type == before.record_type;
    let same_check = after.checked == before.checked;
    if key == "source"@ {
        tells_string(ts, i, next, after.source) && same_args && same_type && same_check
    } else if key == "source_file"@ {
        next == i + 1 && tells_file(ts, i, after.source) && same_args && same_type && same_check
    } else if key == "args"@ {
        &&& next == i + 1 <= ts.len()
        &&& ts[i] matches TokenView::Group(Delimiter::Bracket, content) && input::args_from(
            i,
            content,
            0,
            before.args,
        ) == Ok::<_, InputErrorView>(after.args)
        &&& same_source && same_type && same_check
    } else if key == "record"@ {
        &&& before.record_type is Generated
        &&& after.record_type matches RecordTypeView::Given(ty) && expr::type_at(ts, i) == Ok::<
            _,
            Seq<char>,
        >((ty, next))
        &&& same_source && same_args && same_check
    } else if key == "scalar"@ {
        &&& before.record_type is Generated
        &&& after.record_type is Scalar
        &&& next == i + 1 <= ts.len()
        &&& ts[i] == TokenView::Ident("_"@) || is_char_at(ts, i, '_')
        &&& same_source && same_args && same_check
    } else if key == "checked"@ {
        &&& next == i + 1 <= ts.len()
        &&& ts[i] == TokenView::Ident(
            if after.checked {
                "true"@
            } else {
                "false"@
            },
        )
        &&& same_source && same_args && same_type
    } else {
        false
    }
}

/// Is the `i`-th token no string literal?
pub open spec fn is_no_string_at(ts: Seq<TokenView>, i: int) -> bool {
    forall|s: Seq<char>| !#[trigger] is_string_at(ts, i, s)
}

/// Is there a `+` behind each of the string literals from the `i`-th token on, and
/// none behind the last of these, and is that the error?
pub open spec fn is_cut_short(
    ts: Seq<TokenView>,
    i: int,
    values: Seq<Seq<char>>,
    e: InputErrorView,
) -> bool {
    let end = i + 2 * values.len();
    &&& forall|k: int| 0 <= k < values.len() ==> is_string_at(ts, i + 2 * k, #[trigger] values[k])
    &&& forall|k: int| 0 <= k < values.len() ==> #[trigger] has_plus_behind(ts, i, k)
    &&& is_no_string_at(ts, end)
    &&& is_error_here(ts, end, "expected string literal"@, e)
}

pub open spec fn lacks_string(ts: Seq<TokenView>, i: int, e: InputErrorView) -> bool {
    exists|values: Seq<Seq<char>>| #[trigger] is_cut_short(ts, i, values, e)
}

/// Is there no value for `key` at the `i`-th token, and does the error say why?
pub open spec fn is_no_value(
    ts: Seq<TokenView>,
    key: Seq<char>,
    i: int,
    before: PartialInputView,
    e: InputErrorView,
) -> bool {
    if key == "source"@ {
        lacks_string(ts, i, e)
    } else if key == "source_file"@ {
        is_no_string_at(ts, i) && is_error_here(
            ts,
            i,
            "expected string literal"@,
            e,
        )
    } else if key == "args"@ {
        if i < ts.len() && ts[i] is Group && ts[i]->Group_0 is Bracket {
            input::args_from(i, ts[i]->Group_1, 0, before.args) matches Err(inner) && e.message
                == inner.message && e.at == i && e.arg_at == Some(inner.at as usize)
        } else {
            is_error_here(ts, i, "expected square brackets"@, e)
        }
    } else if (key == "record"@ || key == "scalar"@) && !(before.record_type is Generated) {
        is_error_here(ts, i, "colliding `scalar` or `record` key"@, e)
    } else if key == "record"@ {
        expr::type_at(ts, i) matches Err(message) && e.message == message && e.at == i
            && e.arg_at is None
    } else if key == "scalar"@ {
        is_error_here(ts, i, "expected `_`"@, e)
    } else if key == "checked"@ {
        is_error_here(ts, i, "expected boolean literal"@, e)
    } else {
        e.message == "unexpected input key: "@ + key && e.at == i - 2 && e.arg_at is None
    }
}

pub proof fn lemma_char_at(ts: Seq<TokenView>, i: int, c: char)
    ensures
        tokens::is_punct(ts, i, c) <==> is_char_at(ts, i, c),
{
    if 0 <= i < ts.len() {
        if let TokenView::Punct(_, joint) = ts[i] {
            assert(joint || !joint);
        }
    }
}

proof fn lemma_concatenated(first: Seq<Seq<char>>, last: Seq<char>)
    ensures
        concatenated(first.push(last)) == concatenated(first) + last,
    decreases first.len(),
{
    if first.len() == 0 {
        assert(first.push(last).drop_first() =~= seq![]);
        assert(concatenated(first.push(last).drop_first()) =~= seq![]);
        assert(concatenated(first.push(last)) =~= concatenated(first) + last);
    } else {
        assert(first.push(last).drop_first() =~= first.drop_first().push(last));
        lemma_concatenated(first.drop_first(), last);
        assert(concatenated(first.push(last)) =~= concatenated(first) + last);
    }
}

proof fn lemma_joined(values: Seq<Seq<char>>)
    ensures
        input::joined(values) == concatenated(values),
    decreases values.len(),
{
    if values.len() > 0 {
        lemma_joined(values.drop_last());
        assert(values.drop_last().push(values.last()) =~= values);
        lemma_concatenated(values.drop_last(), values.last());
    }
}

proof fn lemma_strings(ts: Seq<TokenView>, start: int, i: int, values: Seq<Seq<char>>)
    requires
        0 <= start,
        i == start + 2 * values.len(),
        forall|k: int|
            0 <= k < values.len() ==> is_string_at(ts, start + 2 * k, #[trigger] values[k]),
        forall|k: int| 0 <= k < values.len() ==> #[trigger] has_plus_behind(ts, start, k),
    ensures
        match input::literals_at(ts, i, values) {
            Ok((all, next)) => are_strings_at(ts, start, all, next) && i < next <= ts.len(),
            Err(e) => lacks_string(ts, start, e),
        },
    decreases ts.len() - i,
{
    match input::literal_at(ts, i) {
        None => {
            let e = input::literals_at(ts, i, values)->Err_0;
            assert(is_no_string_at(ts, i));
            assert(is_error_here(ts, i, "expected string literal"@, e));
            assert(is_cut_short(ts, start, values, e));
        },
        Some(value) => {
            let more = values.push(value);
            assert(is_string_at(ts, i, value));
            assert forall|k: int| 0 <= k < more.len() implies is_string_at(
                ts,
                start + 2 * k,
                #[trigger] more[k],
            ) by {
                if k < values.len() {
                    assert(more[k] == values[k]);
                }
            }
            lemma_char_at(ts, i + 1, '+');
            if tokens::is_punct(ts, i + 1, '+') {
                assert(has_plus_behind(ts, start, values.len() as int));
                lemma_strings(ts, start, i + 2, more);
            }
        },
    }
}

/// An entry sets what its key says to the value behind it, and changes nothing
/// else; or the error says what is wrong with the value.
pub proof fn law_value(ts: Seq<TokenView>, key: Seq<char>, i: int, before: PartialInputView)
    requires
        0 <= i <= ts.len(),
    ensures
        match input::with_value(ts, key, i, before) {
            Ok((after, next)) => is_value(ts, key, i, before, after, next) && i < next <= ts.len(),
            Err(e) => is_no_value(ts, key, i, before, e),
        },
{
    lemma_char_at(ts, i, '_');
    if key == "source"@ {
        lemma_strings(ts, i, i, seq![]);
        if let Ok((values, next)) = input::literals_at(ts, i, seq![]) {
            lemma_joined(values);
            let source = Some(input::string_source(values, i as usize));
            assert(is_string_source(ts, i, values, next, source));
            assert(tells_string(ts, i, next, source));
        }
    } else if key == "source_file"@ {
        if input::literal_at(ts, i) is None {
            assert(is_no_string_at(ts, i));
        }
    } else if key == "record"@ {
        if let Ok(rest) = expr::type_rest(
            tokens::tokens_text(ts.subrange(i, ts.len() as int)),
        ) {
            tokens::lemma_rest_start(ts, ts.len(), rest);
        }
    }
}

/// Is an entry written at the `i`-th token: a key, `=` and the value?
pub open spec fn is_entry(
    ts: Seq<TokenView>,
    i: int,
    before: PartialInputView,
    after: PartialInputView,
    next: int,
) -> bool {
    &&& 0 <= i < ts.len()
    &&& ts[i] matches TokenView::Ident(key) && is_char_at(ts, i + 1, '=') && is_value(
        ts,
        key,
        i + 2,
        before,
        after,
        next,
    )
}

/// Is it one of the keys that have a meaning?
pub open spec fn is_known(key: Seq<char>) -> bool {
    key == "source"@ || key == "source_file"@ || key == "args"@ || key == "record"@ || key
        == "scalar"@ || key == "checked"@
}

/// Is there a fault in the entry at the `i`-th token, and is it the error?
pub open spec fn is_no_entry(
    ts: Seq<TokenView>,
    i: int,
    before: PartialInputView,
    e: InputErrorView,
) -> bool {
    if 0 <= i < ts.len() && ts[i] is Ident {
        let key = ts[i]->Ident_0;
        if !is_known(key) && !expr::is_name(key) {
            e.at == i && e.arg_at is None && e.message == "expected identifier, found keyword `"@
                + key + "`"@
        } else if !is_char_at(ts, i + 1, '=') {
            e.at == i + 1 && e.arg_at is None && e.message == "expected `=`"@
        } else {
            is_no_value(ts, key, i + 2, before, e)
        }
    } else {
        is_error_here(ts, i, "expected identifier"@, e)
    }
}

/// The input after an entry, and where the entry ends.
pub struct EntryStop {
    pub input: PartialInputView,
    pub next: int,
}

/// Do the entries, with a comma before each but the first, lead from the `i`-th
/// token to the `j`-th, and from one input to the other?
pub open spec fn enters(
    ts: Seq<TokenView>,
    i: int,
    is_first: bool,
    before: PartialInputView,
    stops: Seq<EntryStop>,
    j: int,
    after: PartialInputView,
) -> bool
    decreases stops.len(),
{
    if stops.len() == 0 {
        i == j && before == after
    } else {
        let stop = stops[0];
        &&& if is_first {
            is_entry(ts, i, before, stop.input, stop.next)
        } else {
            is_char_at(ts, i, ',') && is_entry(ts, i + 1, before, stop.input, stop.next)
        }
        &&& enters(ts, stop.next, false, stop.input, stops.drop_first(), j, after)
    }
}

/// Is there a fault at the `j`-th token, and is it the error?
pub open spec fn is_entry_fault(
    ts: Seq<TokenView>,
    j: int,
    is_first: bool,
    before: PartialInputView,
    e: InputErrorView,
) -> bool {
    &&& 0 <= j < ts.len()
    &&& if is_first {
        is_no_entry(ts, j, before, e)
    } else if is_char_at(ts, j, ',') {
        is_no_entry(ts, j + 1, before, e)
    } else {
        e.at == j && e.arg_at is None && e.message == "expected `,`"@
    }
}

/// Is it what comes of reading the entries?
pub open spec fn is_entries_result(
    ts: Seq<TokenView>,
    i: int,
    is_first: bool,
    before: PartialInputView,
    stops: Seq<EntryStop>,
    j: int,
    between: PartialInputView,
    r: Result<PartialInputView, InputErrorView>,
) -> bool {
    &&& enters(ts, i, is_first, before, stops, j, between)
    &&& match r {
        Ok(input) => j == ts.len() && input == between,
        Err(e) => is_entry_fault(ts, j, is_first && stops.len() == 0, between, e),
    }
}

proof fn lemma_entries(ts: Seq<TokenView>, i: int, is_first: bool, before: PartialInputView) -> (r:
    (Seq<EntryStop>, int, PartialInputView))
    requires
        0 <= i <= ts.len(),
    ensures
        is_entries_result(
            ts,
            i,
            is_first,
            before,
            r.0,
            r.1,
            r.2,
            input::entries_from(ts, i, is_first, before),
        ),
    decreases ts.len() - i,
{
    if i == ts.len() {
        (seq![], i, before)
    } else {
        lemma_char_at(ts, i, ',');
        if !is_first && !tokens::is_punct(ts, i, ',') {
            (seq![], i, before)
        } else {
            let at = if is_first {
                i
            } else {
                i + 1
            };
            lemma_char_at(ts, at + 1, '=');
            if at + 2 <= ts.len() && ts[at] is Ident {
                law_value(ts, ts[at]->Ident_0, at + 2, before);
            }
            match input::with_entry(ts, at, before) {
                Err(_) => (seq![], i, before),
                Ok((more, next)) => {
                    let (stops, j, between) = lemma_entries(ts, next, false, more);
                    let all = seq![EntryStop { input: more, next }] + stops;
                    assert(all.drop_first() =~= stops);
                    (all, j, between)
                },
            }
        }
    }
}

/// What a macro is called with when nothing is said.
pub open spec fn is_nothing_said(input: PartialInputView) -> bool {
    &&& input.source is None
    &&& input.args.positional.len() == 0 && input.args.positional_at.len() == 0
    &&& input.args.named.len() == 0 && input.args.named_at.len() == 0
    &&& input.args.rest is None && input.args.rest_at is None
    &&& input.record_type is Generated
    &&& input.checked
}

/// Is it what comes of reading the whole input?
pub open spec fn is_input_result(
    ts: Seq<TokenView>,
    stops: Seq<EntryStop>,
    j: int,
    start: PartialInputView,
    between: PartialInputView,
    r: Result<PartialInputView, InputErrorView>,
) -> bool {
    &&& is_nothing_said(start)
    &&& enters(ts, 0, true, start, stops, j, between)
    &&& match r {
        Ok(input) => j == ts.len() && input == between && input.source is Some,
        Err(e) => {
            ||| is_entry_fault(ts, j, stops.len() == 0, between, e)
            ||| j == ts.len() && between.source is None && is_error_here(
                ts,
                j,
                "expected `source` or `source_file` key"@,
                e,
            )
        },
    }
}

/// The input of a macro is its entries, one after the other, with commas between
/// them; what no entry sets is as if nothing was said. It is rejected at the
/// first fault, and if it does not tell the source.
pub proof fn law_input(ts: Seq<TokenView>)
    ensures
        exists|
            stops: Seq<EntryStop>,
            j: int,
            start: PartialInputView,
            between: PartialInputView,
        | #[trigger]
            is_input_result(ts, stops, j, start, between, input::input_meaning(ts)),
{
    let start = input::no_input();
    let (stops, j, between) = lemma_entries(ts, 0, true, start);
    assert(is_input_result(ts, stops, j, start, between, input::input_meaning(ts)));
}

/// The SQL text is what was written, or what the file holds, and nothing else
/// changes when it is filled in.
pub proof fn law_resolved_input(input: PartialInputView, file: Option<SourceFileView>)
    requires
        input.source is Some,
        input.source->0.src is File ==> file is Some,
    ensures
        ({
            let r = input::resolved_input(input, file);
            &&& match input.source->0.src {
                QuerySrcView::String(sql) => r.sql == sql && r.file_path is None,
                QuerySrcView::File(_) => r.sql == (file->0).sql && r.file_path == Some(
                    (file->0).path,
                ),
            }
            &&& r.src_at == input.source->0.at
            &&& r.sql_token == input.source->0.token
            &&& r.record_type == input.record_type
            &&& r.args == input.args
            &&& r.checked == input.checked
        }),
{
}

} // verus!
