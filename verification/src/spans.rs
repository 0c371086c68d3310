//! Tokens that know where they are written.
use crate::input;
use crate::input::{element_kind, ElementKind};
use crate::text::same_text;
use crate::tokens;
use crate::tokens::{Delimiter, Token, TokenView};
use vstd::prelude::*;

verus! {

/// A token, or a delimited group of them, with its span.
#[derive(Debug)]
pub enum SpannedToken<S> {
    Ident(String, S),
    /// A punctuation character, and whether the next one follows directly.
    Punct(char, bool, S),
    Literal(String, S),
    Group(Delimiter, Vec<SpannedToken<S>>, S),
}

/// What a token is, apart from its span.
pub open spec fn spanned_view<S>(t: SpannedToken<S>) -> TokenView
    decreases t,
{
    match t {
        SpannedToken::Ident(s, _) => TokenView::Ident(s@),
        SpannedToken::Punct(c, joint, _) => TokenView::Punct(c, joint),
        SpannedToken::Literal(s, _) => TokenView::Literal(s@),
        SpannedToken::Group(d, ts, _) => TokenView::Group(
            d,
            Seq::new(
                ts@.len(),
                |i: int|
                    if 0 <= i < ts@.len() {
                        spanned_view(ts@[i])
                    } else {
                        arbitrary()
                    },
            ),
        ),
    }
}

/// What the tokens are, apart from their spans.
pub open spec fn spanned_views<S>(ts: Seq<SpannedToken<S>>) -> Seq<TokenView> {
    Seq::new(ts.len(), |i: int| spanned_view(ts[i]))
}

/// Has the token the span `span`, and have all tokens in it?
pub open spec fn spanned_by<S>(t: SpannedToken<S>, span: S) -> bool
    decreases t,
{
    match t {
        SpannedToken::Ident(_, s) => s == span,
        SpannedToken::Punct(_, _, s) => s == span,
        SpannedToken::Literal(_, s) => s == span,
        SpannedToken::Group(_, ts, s) => s == span && all_spanned_by(ts@, span),
    }
}

/// Have the tokens the span `span`, and have all tokens in them?
pub open spec fn all_spanned_by<S>(ts: Seq<SpannedToken<S>>, span: S) -> bool
    decreases ts,
{
    ts.len() > 0 ==> all_spanned_by(ts.drop_last(), span) && spanned_by(ts.last(), span)
}

fn respan_token<S: Copy>(t: &SpannedToken<S>, span: S) -> (r: SpannedToken<S>)
    ensures
        spanned_view(r) == spanned_view(*t),
        spanned_by(r, span),
    decreases t,
{
    match t {
        SpannedToken::Ident(s, _) => SpannedToken::Ident(s.clone(), span),
        SpannedToken::Punct(c, joint, _) => SpannedToken::Punct(*c, *joint, span),
        SpannedToken::Literal(s, _) => SpannedToken::Literal(s.clone(), span),
        SpannedToken::Group(d, ts, _) => {
            let mut out: Vec<SpannedToken<S>> = Vec::new();
            let mut i: usize = 0;
            while i < ts.len()
                invariant
                    t matches SpannedToken::Group(_, inner, _) && *inner == *ts,
                    i <= ts@.len(),
                    out@.len() == i,
                    forall|j: int|
                        0 <= j < i ==> spanned_view(#[trigger] out@[j]) == spanned_view(ts@[j]),
                    all_spanned_by(out@, span),
                decreases ts@.len() - i,
            {
                assert(decreases_to!(*t => t->Group_1));
                assert(decreases_to!(*ts => ts@));
                assert(decreases_to!(ts@ => ts@[i as int]));
                let ghost before = out@;
                out.push(respan_token(&ts[i], span));
                assert(out@.drop_last() =~= before);
                i += 1;
            }
            let r = SpannedToken::Group(*d, out, span);
            assert(spanned_view(r)->Group_1 =~= spanned_view(*t)->Group_1);
            r
        },
    }
}

/// Sets the span of every token to `span`. Tokens that were made of text have no
/// span in which the names of the user's scope are found.
pub fn respan<S: Copy>(ts: &Vec<SpannedToken<S>>, span: S) -> (r: Vec<SpannedToken<S>>)
    ensures
        spanned_views(r@) == spanned_views(ts@),
        all_spanned_by(r@, span),
{
    let mut out: Vec<SpannedToken<S>> = Vec::new();
    let mut i: usize = 0;
    while i < ts.len()
        invariant
            i <= ts@.len(),
            out@.len() == i,
            forall|j: int|
                0 <= j < i ==> spanned_view(#[trigger] out@[j]) == spanned_view(ts@[j]),
            all_spanned_by(out@, span),
        decreases ts@.len() - i,
    {
        let ghost before = out@;
        out.push(respan_token(&ts[i], span));
        assert(out@.drop_last() =~= before);
        i += 1;
    }
    assert(spanned_views(out@) =~= spanned_views(ts@));
    out
}

fn without_span<S>(t: &SpannedToken<S>) -> (r: Token)
    ensures
        r@ == spanned_view(*t),
    decreases t,
{
    match t {
        SpannedToken::Ident(s, _) => Token::Ident(s.clone()),
        SpannedToken::Punct(c, joint, _) => Token::Punct(*c, *joint),
        SpannedToken::Literal(s, _) => Token::Literal(s.clone()),
        SpannedToken::Group(d, ts, _) => {
            let mut out: Vec<Token> = Vec::new();
            let mut i: usize = 0;
            while i < ts.len()
                invariant
                    t matches SpannedToken::Group(_, inner, _) && *inner == *ts,
                    i <= ts@.len(),
                    out@.len() == i,
                    forall|j: int| 0 <= j < i ==> (#[trigger] out@[j])@ == spanned_view(ts@[j]),
                decreases ts@.len() - i,
            {
                assert(decreases_to!(*t => t->Group_1));
                assert(decreases_to!(*ts => ts@));
                assert(decreases_to!(ts@ => ts@[i as int]));
                out.push(without_span(&ts[i]));
                i += 1;
            }
            let r = Token::Group(*d, out);
            assert(r@->Group_1 =~= spanned_view(*t)->Group_1);
            r
        },
    }
}

/// The tokens without their spans.
pub fn without_spans<S>(ts: &Vec<SpannedToken<S>>) -> (r: Vec<Token>)
    ensures
        tokens::token_views(r@) == spanned_views(ts@),
{
    let mut out: Vec<Token> = Vec::new();
    let mut i: usize = 0;
    while i < ts.len()
        invariant
            i <= ts@.len(),
            out@.len() == i,
            forall|j: int| 0 <= j < i ==> (#[trigger] out@[j])@ == spanned_view(ts@[j]),
        decreases ts@.len() - i,
    {
        out.push(without_span(&ts[i]));
        i += 1;
    }
    assert(tokens::token_views(out@) =~= spanned_views(ts@));
    out
}

/// The tokens that stand for a token when invisible groups are opened: what
/// stands in them stands in their place, with the span that it has.
pub open spec fn opened<S>(t: SpannedToken<S>) -> Seq<SpannedToken<S>>
    decreases t,
{
    match t {
        SpannedToken::Group(Delimiter::Invisible, ts, _) => opened_all(ts@),
        _ => seq![t],
    }
}

/// The tokens, with invisible groups opened.
pub open spec fn opened_all<S>(ts: Seq<SpannedToken<S>>) -> Seq<SpannedToken<S>>
    decreases ts,
{
    if ts.len() == 0 {
        seq![]
    } else {
        opened_all(ts.drop_last()) + opened(ts.last())
    }
}

fn open_into<S>(out: &mut Vec<SpannedToken<S>>, t: SpannedToken<S>)
    ensures
        final(out)@ == old(out)@ + opened(t),
    decreases t,
{
    match t {
        SpannedToken::Group(Delimiter::Invisible, ts, span) => {
            let ghost all = ts@;
            let ghost start = out@;
            assert(start =~= start + opened_all(all.take(0)));
            for inner in it: ts
                invariant
                    it.seq() == all,
                    t == SpannedToken::Group(Delimiter::Invisible, ts, span),
                    ts@ == all,
                    out@ == start + opened_all(all.take(it.index() as int)),
            {
                let ghost k = it.index() as int;
                proof {
                    assert(inner == all[k]);
                    assert(decreases_to!(t => t->Group_1));
                    assert(decreases_to!(ts => ts@));
                    assert(decreases_to!(ts@ => ts@[k]));
                    assert(all.take(k + 1).drop_last() =~= all.take(k));
                    assert(all.take(k + 1).last() == inner);
                }
                open_into(out, inner);
                assert(out@ =~= start + opened_all(all.take(k + 1)));
            }
            assert(all.take(all.len() as int) =~= all);
        },
        _ => {
            let ghost before = out@;
            out.push(t);
            assert(out@ =~= before + seq![t]);
        },
    }
}

/// Opens the invisible groups among the tokens: to what is not an expression,
/// they are as if they were not there.
pub fn open_groups<S>(ts: Vec<SpannedToken<S>>) -> (r: Vec<SpannedToken<S>>)
    ensures
        r@ == opened_all(ts@),
{
    let mut out: Vec<SpannedToken<S>> = Vec::new();
    let ghost all = ts@;
    assert(out@ =~= opened_all(all.take(0)));
    for t in it: ts
        invariant
            it.seq() == all,
            out@ == opened_all(all.take(it.index() as int)),
    {
        let ghost k = it.index() as int;
        proof {
            assert(all.take(k + 1).drop_last() =~= all.take(k));
            assert(all.take(k + 1).last() == t);
        }
        open_into(&mut out, t);
    }
    assert(all.take(all.len() as int) =~= all);
    out
}

/// Appends what a token is made of, with invisible groups opened.
fn open_without_spans<S>(out: &mut Vec<Token>, t: &SpannedToken<S>)
    ensures
        tokens::token_views(final(out)@) == tokens::token_views(old(out)@) + spanned_views(
            opened(*t),
        ),
    decreases t,
{
    match t {
        SpannedToken::Group(Delimiter::Invisible, ts, span) => {
            let ghost start = tokens::token_views(out@);
            let mut i: usize = 0;
            assert(start =~= start + spanned_views(opened_all(ts@.take(0))));
            while i < ts.len()
                invariant
                    *t == SpannedToken::Group(Delimiter::Invisible, *ts, *span),
                    i <= ts@.len(),
                    tokens::token_views(out@) == start + spanned_views(
                        opened_all(ts@.take(i as int)),
                    ),
                decreases ts@.len() - i,
            {
                proof {
                    assert(decreases_to!(*t => t->Group_1));
                    assert(decreases_to!(*ts => ts@));
                    assert(decreases_to!(ts@ => ts@[i as int]));
                    assert(ts@.take(i + 1).drop_last() =~= ts@.take(i as int));
                }
                open_without_spans(out, &ts[i]);
                i += 1;
                assert(tokens::token_views(out@) =~= start + spanned_views(
                    opened_all(ts@.take(i as int)),
                ));
            }
            assert(ts@.take(i as int) =~= ts@);
        },
        _ => {
            let ghost before = out@;
            out.push(without_span(t));
            assert(tokens::token_views(out@) =~= tokens::token_views(before) + spanned_views(
                seq![*t],
            ));
        },
    }
}

/// Is the `j`-th token of an argument list an invisible group at the start of an
/// element, that hides how the element is written: `..expr`, or `name = expr`?
pub open spec fn hides_kind<S>(ts: Seq<SpannedToken<S>>, j: int) -> bool {
    let ahead = spanned_views(opened(ts[j]) + ts.skip(j + 1));
    &&& ts[j] is Group
    &&& ts[j]->Group_0 is Invisible
    &&& j == 0 || tokens::is_punct(spanned_views(ts), j - 1, ',')
    &&& ahead.len() > 0
    &&& !(input::kind_at(ahead, 0) is Positional)
}

/// The first `n` tokens of an argument list, with those groups opened that hide
/// how an element is written.
pub open spec fn kinds_shown<S>(ts: Seq<SpannedToken<S>>, n: nat) -> Seq<SpannedToken<S>>
    decreases n,
{
    if n == 0 {
        seq![]
    } else {
        kinds_shown(ts, (n - 1) as nat) + if hides_kind(ts, n - 1) {
            opened(ts[n - 1])
        } else {
            seq![ts[n - 1]]
        }
    }
}

fn is_comma<S>(t: &SpannedToken<S>) -> (r: bool)
    ensures
        r == (spanned_view(*t) is Punct && spanned_view(*t)->Punct_0 == ','),
{
    match t {
        SpannedToken::Punct(c, _, _) => *c == ',',
        _ => false,
    }
}

fn hides<S>(ts: &Vec<SpannedToken<S>>, j: usize) -> (r: bool)
    requires
        j < ts@.len(),
    ensures
        r == hides_kind(ts@, j as int),
{
    if !matches!(ts[j], SpannedToken::Group(Delimiter::Invisible, _, _)) {
        return false;
    }
    if j > 0 && !is_comma(&ts[j - 1]) {
        return false;
    }
    let mut ahead: Vec<Token> = Vec::new();
    open_without_spans(&mut ahead, &ts[j]);
    let ghost start = spanned_views(opened(ts@[j as int]));
    assert(tokens::token_views(ahead@) =~= start);
    let n: usize = ts.len();
    let mut i: usize = j + 1;
    assert(start =~= start + spanned_views(ts@.subrange(j + 1, j + 1)));
    while i < n
        invariant
            j < i <= n == ts@.len(),
            tokens::token_views(ahead@) == start + spanned_views(ts@.subrange(j + 1, i as int)),
        decreases n - i,
    {
        let ghost before = ahead@;
        ahead.push(without_span(&ts[i]));
        proof {
            assert(tokens::token_views(ahead@) =~= tokens::token_views(before).push(
                spanned_view(ts@[i as int]),
            ));
            assert(spanned_views(ts@.subrange(j + 1, i + 1)) =~= spanned_views(
                ts@.subrange(j + 1, i as int),
            ).push(spanned_view(ts@[i as int])));
            assert(tokens::token_views(ahead@) =~= start + spanned_views(
                ts@.subrange(j + 1, i + 1),
            ));
        }
        i += 1;
    }
    assert(ts@.subrange(j + 1, i as int) =~= ts@.skip(j + 1));
    assert(tokens::token_views(ahead@) =~= spanned_views(opened(ts@[j as int]) + ts@.skip(j + 1)));
    assert(tokens::token_views(ahead@).len() == ahead@.len());
    ahead.len() > 0 && !matches!(element_kind(&ahead, 0), ElementKind::Positional)
}

/// Opens those invisible groups of an argument list that hide how an element is
/// written. Others stay, as the operands that they are.
pub fn show_kinds<S>(ts: Vec<SpannedToken<S>>) -> (r: Vec<SpannedToken<S>>)
    ensures
        r@ == kinds_shown(ts@, ts@.len()),
{
    let n: usize = ts.len();
    let mut flags: Vec<bool> = Vec::new();
    let mut j: usize = 0;
    while j < n
        invariant
            j <= n == ts@.len(),
            flags@.len() == j,
            forall|i: int| 0 <= i < j ==> #[trigger] flags@[i] == hides_kind(ts@, i),
        decreases n - j,
    {
        flags.push(hides(&ts, j));
        j += 1;
    }
    let ghost all = ts@;
    let mut out: Vec<SpannedToken<S>> = Vec::new();
    let mut k: usize = 0;
    assert(out@ =~= kinds_shown(all, 0));
    for t in it: ts
        invariant
            it.seq() == all,
            n == all.len() == flags@.len(),
            k == it.index(),
            forall|i: int| 0 <= i < n ==> #[trigger] flags@[i] == hides_kind(all, i),
            out@ == kinds_shown(all, k as nat),
    {
        assert(t == all[k as int]);
        if flags[k] {
            open_into(&mut out, t);
        } else {
            let ghost before = out@;
            out.push(t);
            assert(out@ =~= before + seq![t]);
        }
        k += 1;
    }
    out
}

/// Is the `k`-th token the list behind `args =`?
pub open spec fn is_args_list<S>(ts: Seq<SpannedToken<S>>, k: int) -> bool {
    let views = spanned_views(ts);
    &&& ts[k] is Group
    &&& ts[k]->Group_0 is Bracket
    &&& tokens::is_punct(views, k - 1, '=')
    &&& input::is_ident(views, k - 2, "args"@)
}

/// Is `r` the `k`-th token of the input, with the kinds of arguments shown? Only
/// the list of arguments changes, and it keeps its span.
pub open spec fn is_shown<S>(ts: Seq<SpannedToken<S>>, k: int, r: SpannedToken<S>) -> bool {
    if is_args_list(ts, k) {
        &&& r is Group
        &&& r->Group_0 is Bracket
        &&& r->Group_1@ == kinds_shown(ts[k]->Group_1@, ts[k]->Group_1@.len())
        &&& r->Group_2 == ts[k]->Group_2
    } else {
        r == ts[k]
    }
}

fn at_args_list<S>(ts: &Vec<SpannedToken<S>>, k: usize) -> (r: bool)
    requires
        k < ts@.len(),
    ensures
        r == is_args_list(ts@, k as int),
{
    if k < 2 {
        return false;
    }
    let list: bool = matches!(ts[k], SpannedToken::Group(Delimiter::Bracket, _, _));
    let eq: bool = match &ts[k - 1] {
        SpannedToken::Punct(c, _, _) => *c == '=',
        _ => false,
    };
    let key: bool = match &ts[k - 2] {
        SpannedToken::Ident(name, _) => same_text(name.as_str(), "args"),
        _ => false,
    };
    list && eq && key
}

/// Opens the invisible groups in argument lists that hide how an element is
/// written.
pub fn show_args<S>(ts: Vec<SpannedToken<S>>) -> (r: Vec<SpannedToken<S>>)
    ensures
        r@.len() == ts@.len(),
        forall|k: int| 0 <= k < ts@.len() ==> is_shown(ts@, k, #[trigger] r@[k]),
{
    let n: usize = ts.len();
    let mut flags: Vec<bool> = Vec::new();
    let mut j: usize = 0;
    while j < n
        invariant
            j <= n == ts@.len(),
            flags@.len() == j,
            forall|i: int| 0 <= i < j ==> #[trigger] flags@[i] == is_args_list(ts@, i),
        decreases n - j,
    {
        flags.push(at_args_list(&ts, j));
        j += 1;
    }
    let ghost all = ts@;
    let mut out: Vec<SpannedToken<S>> = Vec::new();
    let mut k: usize = 0;
    for t in it: ts
        invariant
            it.seq() == all,
            n == all.len() == flags@.len(),
            k == it.index(),
            out@.len() == k,
            forall|i: int| 0 <= i < n ==> #[trigger] flags@[i] == is_args_list(all, i),
            forall|i: int| 0 <= i < k ==> is_shown(all, i, #[trigger] out@[i]),
    {
        assert(t == all[k as int]);
        let shown = if flags[k] {
            match t {
                SpannedToken::Group(Delimiter::Bracket, inner, span) => {
                    SpannedToken::Group(Delimiter::Bracket, show_kinds(inner), span)
                },
                _ => t,
            }
        } else {
            t
        };
        out.push(shown);
        k += 1;
    }
    out
}

} // verus!
