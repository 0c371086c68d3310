//! What it means that tokens are written, read as expressions, and freed of
//! invisible groups.
use crate::expr;
use crate::expr::{ExprForm, ExprView};
use crate::input::ElementKindView;
use crate::list_laws;
use crate::resolve_laws;
use crate::spans;
use crate::spans::SpannedToken;
use crate::tokens;
use crate::tokens::{Delimiter, TokenView};
use vstd::prelude::*;

verus! {

// -- Writing tokens -------------------------------------------------------

/// The tokens, none of them a group, one after the other, with a space behind
/// each but the last and those that the next one follows directly.
pub open spec fn flat_text(ts: Seq<TokenView>) -> Seq<char>
    decreases ts.len(),
{
    if ts.len() == 0 {
        seq![]
    } else {
        let one = match ts[0] {
            TokenView::Ident(s) => s,
            TokenView::Punct(c, _) => seq![c],
            TokenView::Literal(s) => s,
            TokenView::Group(_, _) => seq![],
        };
        if ts.len() == 1 {
            one
        } else if ts[0] matches TokenView::Punct(_, true) {
            one + flat_text(ts.drop_first())
        } else {
            one + seq![' '] + flat_text(ts.drop_first())
        }
    }
}

pub open spec fn is_flat(ts: Seq<TokenView>) -> bool {
    forall|k: int| 0 <= k < ts.len() ==> !((#[trigger] ts[k]) is Group)
}

proof fn lemma_flat_push(ts: Seq<TokenView>, t: TokenView)
    requires
        is_flat(ts),
        !(t is Group),
        ts.len() > 0,
    ensures
        flat_text(ts.push(t)) == flat_text(ts) + (if ts.last() matches TokenView::Punct(_, true) {
            seq![]
        } else {
            seq![' ']
        }) + flat_text(seq![t]),
    decreases ts.len(),
{
    let all = ts.push(t);
    assert(all.drop_first() =~= ts.drop_first().push(t));
    if ts.len() == 1 {
        assert(all.drop_first() =~= seq![t]);
        assert(flat_text(all) =~= flat_text(ts) + (if ts.last() matches TokenView::Punct(_, true) {
            seq![]
        } else {
            seq![' ']
        }) + flat_text(seq![t]));
    } else {
        let rest = ts.drop_first();
        assert forall|k: int| 0 <= k < rest.len() implies !((#[trigger] rest[k]) is Group) by {
            assert(rest[k] == ts[k + 1]);
        }
        lemma_flat_push(rest, t);
        assert(rest.last() == ts.last());
        assert(flat_text(all) =~= flat_text(ts) + (if ts.last() matches TokenView::Punct(_, true) {
            seq![]
        } else {
            seq![' ']
        }) + flat_text(seq![t]));
    }
}

/// Tokens without groups are written one after the other, with a space between
/// each two unless the next follows directly.
pub proof fn law_flat_text(ts: Seq<TokenView>)
    requires
        is_flat(ts),
    ensures
        tokens::tokens_text(ts) == flat_text(ts),
    decreases ts.len(),
{
    if ts.len() > 0 {
        let front = ts.drop_last();
        let t = ts.last();
        assert forall|k: int| 0 <= k < front.len() implies !((#[trigger] front[k]) is Group) by {
            assert(front[k] == ts[k]);
        }
        assert(!(ts[ts.len() - 1] is Group));
        law_flat_text(front);
        assert(front.push(t) =~= ts);
        assert(tokens::token_text(t, tokens::ends_in_hash(front)) == flat_text(seq![t]));
        if front.len() > 0 {
            lemma_flat_push(front, t);
        } else {
            assert(tokens::tokens_text(front) =~= seq![]);
            assert(tokens::tokens_text(ts) =~= flat_text(seq![t]));
            assert(ts =~= seq![t]);
        }
    }
}

/// A group is written in its delimiters, and an invisible one that stays an
/// operand in parentheses. A path, a literal, a block, a macro, and what is
/// neither an expression nor a type, is written without.
pub proof fn law_group_text(ts: Seq<TokenView>)
    ensures
        ({
            let s = tokens::tokens_text(ts);
            let paren = tokens::token_text(TokenView::Group(Delimiter::Parenthesis, ts), false);
            let brace = tokens::token_text(TokenView::Group(Delimiter::Brace, ts), false);
            let bracket = tokens::token_text(TokenView::Group(Delimiter::Bracket, ts), false);
            let invisible = tokens::token_text(TokenView::Group(Delimiter::Invisible, ts), false);
            let is_expr = expr::expr_rest(s) == Ok::<nat, Seq<char>>(0);
            let is_type = expr::type_rest(s) == Ok::<nat, Seq<char>>(0);
            let form = expr::form_of(s);
            &&& paren == seq!['('] + s + seq![')']
            &&& brace == seq!['{'] + s + seq!['}']
            &&& bracket == seq!['['] + s + seq![']']
            &&& invisible == s || invisible == paren
            &&& is_expr && (form is Path || form is Lit || form is Block || form is Macro)
                ==> invisible == s
            &&& is_expr && !(form is Path || form is Lit || form is Block || form is Macro)
                ==> invisible == paren
            &&& !is_expr && !is_type && !(ts.len() > 0 && ts[0] == TokenView::Ident("let"@))
                ==> invisible == s
            &&& !is_expr && is_type && !expr::is_type_path(s) ==> invisible == paren
        }),
{
}

/// Does an attribute follow the tokens, if one in brackets does?
pub open spec fn announces_attribute(ts: Seq<TokenView>) -> bool {
    let n = ts.len() as int;
    ||| list_laws::is_char_at(ts, n - 1, '#')
    ||| list_laws::is_char_at(ts, n - 1, '!') && list_laws::is_char_at(ts, n - 2, '#')
}

/// One more token is written behind the others, with a space between unless it
/// follows directly. All that stands in the brackets of an attribute, if it is an
/// invisible group, is written without one.
pub proof fn law_one_more_token(ts: Seq<TokenView>, t: TokenView)
    ensures
        tokens::tokens_text(ts.push(t)) == tokens::tokens_text(ts) + (if ts.len() == 0 || (
        ts.last() matches TokenView::Punct(_, true)) {
            seq![]
        } else {
            seq![' ']
        }) + (if announces_attribute(ts) && (t matches TokenView::Group(
            Delimiter::Bracket,
            content,
        ) && content.len() == 1 && content[0] is Group && content[0]->Group_0 is Invisible) {
            seq!['['] + tokens::tokens_text(t->Group_1[0]->Group_1) + seq![']']
        } else {
            tokens::token_text(t, false)
        }),
{
    let n = ts.len() as int;
    assert(ts.push(t).drop_last() =~= ts);
    list_laws::lemma_char_at(ts, n - 1, '#');
    list_laws::lemma_char_at(ts, n - 1, '!');
    list_laws::lemma_char_at(ts, n - 2, '#');
    assert(tokens::ends_in_hash(ts) == announces_attribute(ts));
    let all = ts.push(t);
    assert(all.last() == t);
    assert(tokens::tokens_text(all) == tokens::tokens_text(ts) + tokens::gap(ts)
        + tokens::token_text(t, tokens::ends_in_hash(ts)));
    assert(tokens::gap(ts) =~= if ts.len() == 0 || (ts.last() matches TokenView::Punct(_, true)) {
        seq![]
    } else {
        seq![' ']
    });
    if let TokenView::Group(d, content) = t {
        if content.len() == 1 && content[0] is Group && content[0]->Group_0 is Invisible
            && d is Bracket {
            assert(tokens::token_text(t, true) == seq!['['] + tokens::tokens_text(
                content[0]->Group_1,
            ) + seq![']']);
        } else {
            assert(tokens::token_text(t, true) == tokens::token_text(t, false));
        }
    }
}

// -- Reading tokens -------------------------------------------------------

/// As how many token trees the tokens from the `i`-th to the `j`-th are written.
pub open spec fn width_of(ts: Seq<TokenView>, i: int, j: int) -> nat
    decreases j - i,
{
    if i >= j {
        0
    } else {
        tokens::token_width(ts[i]) + width_of(ts, i + 1, j)
    }
}

/// A token is written as one token tree, unless it is an invisible group that is
/// written without delimiters: then as many as its tokens are.
pub proof fn law_width(t: TokenView)
    ensures
        !(t is Group) ==> tokens::token_width(t) == 1,
        t matches TokenView::Group(d, ts) ==> tokens::token_width(t) == if d is Invisible
            && tokens::token_text(t, false) == tokens::tokens_text(ts) {
            width_of(ts, 0, ts.len() as int)
        } else {
            1
        },
{
    if let TokenView::Group(d, ts) = t {
        let s = tokens::tokens_text(ts);
        assert((seq!['('] + s + seq![')']).len() == s.len() + 2);
        lemma_tokens_width(ts);
    }
}

proof fn lemma_tokens_width(ts: Seq<TokenView>)
    ensures
        tokens::tokens_width(ts) == width_of(ts, 0, ts.len() as int),
    decreases ts.len(),
{
    if ts.len() > 0 {
        let front = ts.drop_last();
        let n = front.len() as int;
        lemma_tokens_width(front);
        lemma_same_width(front, ts, 0, n);
        lemma_width_more(ts, 0, n);
    }
}

proof fn lemma_same_width(a: Seq<TokenView>, b: Seq<TokenView>, i: int, j: int)
    requires
        0 <= i <= j <= a.len(),
        a.len() <= b.len(),
        forall|k: int| 0 <= k < j ==> #[trigger] a[k] == b[k],
    ensures
        width_of(a, i, j) == width_of(b, i, j),
    decreases j - i,
{
    if i < j {
        assert(a[i] == b[i]);
        lemma_same_width(a, b, i + 1, j);
    }
}

proof fn lemma_width_more(ts: Seq<TokenView>, i: int, j: int)
    requires
        i <= j,
    ensures
        width_of(ts, i, j + 1) == width_of(ts, i, j) + tokens::token_width(ts[j]),
    decreases j - i,
{
    if i < j {
        lemma_width_more(ts, i + 1, j);
    } else {
        assert(width_of(ts, j + 1, j + 1) == 0);
    }
}

/// The tokens that are written as the last `rest` token trees are found, if there
/// are any that are written as just as many.
pub proof fn law_rest_start(ts: Seq<TokenView>, n: nat, rest: nat)
    ensures
        match tokens::rest_start(ts, n, rest) {
            Some(start) => start <= n && width_of(ts, start as int, n as int) == rest,
            None => forall|start: int|
                0 <= start <= n ==> #[trigger] width_of(ts, start, n as int) != rest,
        },
    decreases n,
{
    if rest > 0 && n > 0 {
        let m = (n - 1) as nat;
        let w = tokens::token_width(ts[n - 1]);
        assert forall|start: int| 0 <= start < n implies #[trigger] width_of(ts, start, n as int)
            == width_of(ts, start, m as int) + w by {
            lemma_width_more(ts, start, m as int);
        }
        if w <= rest {
            law_rest_start(ts, m, (rest - w) as nat);
        }
    }
}

/// Is it the expression that the text is, taken for what it is?
pub open spec fn is_taken_for(s: Seq<char>, e: ExprView) -> bool {
    match expr::form_of(s) {
        ExprForm::Lit => e == ExprView::Lit(s),
        ExprForm::Path => e == ExprView::Path(s),
        ExprForm::MethodCall => e == ExprView::MethodCall(s),
        ExprForm::Field => e == ExprView::Field(expr::FieldAccessView::Written(s)),
        ExprForm::Cast(ty) => e == ExprView::Cast(s, ty),
        _ => e == ExprView::Other(s),
    }
}

/// Is the expression all that the tokens are? An invisible group that is all
/// there is stays one.
pub open spec fn is_all_of(ts: Seq<TokenView>, e: ExprView) -> bool
    decreases ts,
{
    if ts.len() == 1 && ts[0] is Group && ts[0]->Group_0 is Invisible {
        e is Group && is_all_of(ts[0]->Group_1, *(e->Group_0))
    } else {
        resolve_laws::is_read_from(tokens::tokens_text(ts), e)
    }
}

/// Are the tokens no expression, and does the message say why?
pub open spec fn is_none_of(ts: Seq<TokenView>, message: Seq<char>) -> bool
    decreases ts,
{
    if ts.len() == 1 && ts[0] is Group && ts[0]->Group_0 is Invisible {
        is_none_of(ts[0]->Group_1, message)
    } else {
        resolve_laws::is_unreadable(tokens::tokens_text(ts), message)
    }
}

proof fn lemma_grouped(ts: Seq<TokenView>)
    ensures
        match expr::grouped_expr(ts) {
            Ok(e) => is_all_of(ts, e),
            Err(message) => is_none_of(ts, message),
        },
    decreases ts,
{
    if ts.len() == 1 && ts[0] is Group && ts[0]->Group_0 is Invisible {
        lemma_grouped(ts[0]->Group_1);
    }
}

/// Is there nothing but an invisible group at the `i`-th token, up to a comma or
/// the end?
pub open spec fn is_lone_group(ts: Seq<TokenView>, i: int) -> bool {
    &&& 0 <= i < ts.len()
    &&& ts[i] is Group && ts[i]->Group_0 is Invisible
    &&& i + 1 == ts.len() || list_laws::is_char_at(ts, i + 1, ',')
}

/// Does the message say why what is left of the tokens from the `i`-th on, `rest`
/// token trees, cannot be told from what was read?
pub open spec fn leaves_nothing(
    ts: Seq<TokenView>,
    i: int,
    rest: nat,
    message: Seq<char>,
    wanted: Seq<char>,
) -> bool {
    ||| message == "expected `,`"@ && forall|start: int|
        0 <= start <= ts.len() ==> #[trigger] width_of(ts, start, ts.len() as int) != rest
    ||| message == wanted && exists|start: int|
        0 <= start <= i && #[trigger] width_of(ts, start, ts.len() as int) == rest
}

/// Where there is no expression, the error is that of the text.
pub proof fn law_no_expr_at(ts: Seq<TokenView>, i: int)
    requires
        0 <= i <= ts.len(),
    ensures
        expr::expr_at(ts, i) matches Err(message) ==> if is_lone_group(ts, i) {
            is_none_of(ts[i]->Group_1, message)
        } else {
            match expr::expr_rest(tokens::tokens_text(ts.skip(i))) {
                Err(why) => message == why,
                Ok(rest) => leaves_nothing(ts, i, rest, message, "expected an expression"@),
            }
        },
        expr::type_at(ts, i) matches Err(message) ==> match expr::type_rest(
            tokens::tokens_text(ts.skip(i)),
        ) {
            Err(why) => message == why,
            Ok(rest) => leaves_nothing(ts, i, rest, message, "expected a type"@),
        },
{
    let n = ts.len() as int;
    let s = tokens::tokens_text(ts.skip(i));
    assert(ts.subrange(i, n) =~= ts.skip(i));
    list_laws::lemma_char_at(ts, i + 1, ',');
    if is_lone_group(ts, i) {
        lemma_grouped(ts[i]->Group_1);
    } else if let Ok(rest) = expr::expr_rest(s) {
        law_rest_start(ts, ts.len(), rest);
        if let Some(start) = tokens::rest_start(ts, ts.len(), rest) {
            assert(width_of(ts, start as int, n) == rest);
        }
    }
    if let Ok(rest) = expr::type_rest(s) {
        law_rest_start(ts, ts.len(), rest);
        if let Some(start) = tokens::rest_start(ts, ts.len(), rest) {
            assert(width_of(ts, start as int, n) == rest);
        }
    }
}

/// An expression is what is written from its first token to where the text that
/// it leaves begins; a lone group is what is written in it.
pub proof fn law_expr_at(ts: Seq<TokenView>, i: int)
    requires
        0 <= i <= ts.len(),
    ensures
        expr::expr_at(ts, i) matches Ok((e, next)) ==> i < next <= ts.len() && if is_lone_group(
            ts,
            i,
        ) {
            next == i + 1 && e is Group && is_all_of(ts[i]->Group_1, *(e->Group_0))
        } else {
            &&& is_taken_for(tokens::tokens_text(ts.subrange(i, next)), e)
            &&& expr::expr_rest(tokens::tokens_text(ts.skip(i))) == Ok::<_, Seq<char>>(
                width_of(ts, next, ts.len() as int),
            )
        },
{
    let n = ts.len() as int;
    assert(ts.subrange(i, n) =~= ts.skip(i));
    if i + 1 < n {
        if let TokenView::Punct(_, joint) = ts[i + 1] {
            assert(joint || !joint);
        }
    }
    if is_lone_group(ts, i) {
        lemma_grouped(ts[i]->Group_1);
    } else if let Ok(rest) = expr::expr_rest(tokens::tokens_text(ts.subrange(i, n))) {
        law_rest_start(ts, ts.len(), rest);
    }
}

/// A type is what is written from its first token to where the text that it
/// leaves begins.
pub proof fn law_type_at(ts: Seq<TokenView>, i: int)
    requires
        0 <= i <= ts.len(),
    ensures
        expr::type_at(ts, i) matches Ok((ty, next)) ==> i < next <= ts.len() && ty
            == tokens::tokens_text(ts.subrange(i, next)) && expr::type_rest(
            tokens::tokens_text(ts.skip(i)),
        ) == Ok::<_, Seq<char>>(width_of(ts, next, ts.len() as int)),
{
    let n = ts.len() as int;
    assert(ts.subrange(i, n) =~= ts.skip(i));
    if let Ok(rest) = expr::type_rest(tokens::tokens_text(ts.subrange(i, n))) {
        law_rest_start(ts, ts.len(), rest);
    }
}

// -- Opening invisible groups ---------------------------------------------

pub open spec fn is_invisible<S>(t: SpannedToken<S>) -> bool {
    t is Group && t->Group_0 is Invisible
}

proof fn lemma_opened_concat<S>(a: Seq<SpannedToken<S>>, b: Seq<SpannedToken<S>>)
    ensures
        spans::opened_all(a + b) == spans::opened_all(a) + spans::opened_all(b),
    decreases b.len(),
{
    if b.len() == 0 {
        assert(a + b =~= a);
        assert(spans::opened_all(a) + spans::opened_all(b) =~= spans::opened_all(a));
    } else {
        lemma_opened_concat(a, b.drop_last());
        assert((a + b).drop_last() =~= a + b.drop_last());
        assert((a + b).last() == b.last());
        assert(spans::opened_all(a + b) =~= spans::opened_all(a) + spans::opened_all(b));
    }
}

/// Opening tokens opens each of them where it stands; one that is no invisible
/// group stays just as it is, span included, and what is in an invisible group
/// takes its place.
pub proof fn law_opened<S>(
    a: Seq<SpannedToken<S>>,
    t: SpannedToken<S>,
    b: Seq<SpannedToken<S>>,
)
    ensures
        spans::opened_all(a + seq![t] + b) == spans::opened_all(a) + (if is_invisible(t) {
            spans::opened_all(t->Group_1@)
        } else {
            seq![t]
        }) + spans::opened_all(b),
        spans::opened_all(Seq::<SpannedToken<S>>::empty()) == Seq::<SpannedToken<S>>::empty(),
{
    lemma_opened_concat(a + seq![t], b);
    lemma_opened_concat(a, seq![t]);
    let one = seq![t];
    assert(one.drop_last() =~= seq![]);
    assert(spans::opened_all(one.drop_last()) =~= seq![]);
    assert(one.last() == t);
    assert(spans::opened_all(one) == spans::opened_all(one.drop_last()) + spans::opened(t));
    assert(spans::opened_all(one) =~= spans::opened(t));
}

/// Is how the element is written told by an invisible group that begins it: `..`
/// or `name =`?
pub open spec fn is_hidden<S>(ts: Seq<SpannedToken<S>>, j: int) -> bool {
    let ahead = spans::spanned_views(spans::opened(ts[j]) + ts.skip(j + 1));
    &&& is_invisible(ts[j])
    &&& j == 0 || list_laws::is_char_at(spans::spanned_views(ts), j - 1, ',')
    &&& ahead.len() > 0
    &&& !list_laws::is_of_kind(ahead, 0, ElementKindView::Positional)
}

proof fn lemma_hidden<S>(ts: Seq<SpannedToken<S>>, j: int)
    requires
        0 <= j < ts.len(),
    ensures
        spans::hides_kind(ts, j) <==> is_hidden(ts, j),
{
    let views = spans::spanned_views(ts);
    list_laws::lemma_char_at(views, j - 1, ',');
    let ahead = spans::spanned_views(spans::opened(ts[j]) + ts.skip(j + 1));
    if ahead.len() > 0 {
        list_laws::lemma_kind(ahead, 0);
        match crate::input::kind_at(ahead, 0) {
            ElementKindView::Named(name) => {
                assert(list_laws::has_name(ahead, 0, name));
            },
            _ => {},
        }
    }
}

/// Of an argument list, the groups are opened that hide how an element is
/// written, and every other token stays just as it is.
pub proof fn law_kinds_shown<S>(ts: Seq<SpannedToken<S>>, n: nat)
    requires
        n < ts.len(),
    ensures
        spans::kinds_shown(ts, 0) == Seq::<SpannedToken<S>>::empty(),
        spans::kinds_shown(ts, n + 1) == spans::kinds_shown(ts, n) + (if is_hidden(ts, n as int) {
            spans::opened_all(ts[n as int]->Group_1@)
        } else {
            seq![ts[n as int]]
        }),
{
    lemma_hidden(ts, n as int);
}

/// The list of arguments is the one in brackets behind `args =`; all other tokens
/// stay just as they are.
pub proof fn law_shown<S>(ts: Seq<SpannedToken<S>>, k: int, r: SpannedToken<S>)
    requires
        0 <= k < ts.len(),
        spans::is_shown(ts, k, r),
    ensures
        ({
            let views = spans::spanned_views(ts);
            let is_list = ts[k] is Group && ts[k]->Group_0 is Bracket && k >= 2
                && list_laws::is_char_at(views, k - 1, '=') && views[k - 2] == TokenView::Ident(
                "args"@,
            );
            if is_list {
                r is Group && r->Group_0 is Bracket && r->Group_2 == ts[k]->Group_2 && r->Group_1@
                    == spans::kinds_shown(ts[k]->Group_1@, ts[k]->Group_1@.len())
            } else {
                r == ts[k]
            }
        }),
{
    list_laws::lemma_char_at(spans::spanned_views(ts), k - 1, '=');
}

} // verus!
