//! Rust tokens, as a macro is handed them.
use crate::expr;
use crate::expr::{accepts_type_path, expr_form, skip_expr, skip_type, ExprForm};
use crate::text::same_text;
use vstd::prelude::*;

verus! {

/// What encloses a group of tokens.
#[derive(Debug, Clone, Copy, PartialEq, Eq, Structural)]
pub enum Delimiter {
    Parenthesis,
    Brace,
    Bracket,
    /// Nothing that is written: what a `macro_rules` fragment was replaced with.
    Invisible,
}

/// A token, or a delimited group of them.
#[derive(Debug)]
pub enum Token {
    Ident(String),
    /// A punctuation character, and whether the next one follows directly.
    Punct(char, bool),
    /// A literal, as it is written.
    Literal(String),
    Group(Delimiter, Vec<Token>),
}

/// A [`Token`], with its texts as sequences.
pub enum TokenView {
    Ident(Seq<char>),
    Punct(char, bool),
    Literal(Seq<char>),
    Group(Delimiter, Seq<TokenView>),
}

/// The view of a token.
pub open spec fn token_view(t: Token) -> TokenView
    decreases t,
{
    match t {
        Token::Ident(s) => TokenView::Ident(s@),
        Token::Punct(c, joint) => TokenView::Punct(c, joint),
        Token::Literal(s) => TokenView::Literal(s@),
        Token::Group(d, ts) => TokenView::Group(
            d,
            Seq::new(
                ts@.len(),
                |i: int|
                    if 0 <= i < ts@.len() {
                        token_view(ts@[i])
                    } else {
                        arbitrary()
                    },
            ),
        ),
    }
}

impl View for Token {
    type V = TokenView;

    open spec fn view(&self) -> TokenView {
        token_view(*self)
    }
}

/// The tokens, each by its view.
pub open spec fn token_views(ts: Seq<Token>) -> Seq<TokenView> {
    Seq::new(ts.len(), |i: int| ts[i]@)
}

pub open spec fn opening(d: Delimiter) -> char {
    match d {
        Delimiter::Brace => '{',
        Delimiter::Bracket => '[',
        _ => '(',
    }
}

pub open spec fn closing(d: Delimiter) -> char {
    match d {
        Delimiter::Brace => '}',
        Delimiter::Bracket => ']',
        _ => ')',
    }
}

/// Do the tokens begin with `let`?
pub open spec fn begins_let(ts: Seq<TokenView>) -> bool {
    ts.len() > 0 && ts[0] == TokenView::Ident("let"@)
}

/// Do the tokens of an invisible group, with the text `text`, stay one operand
/// or type of what is around them?
///
/// What follows a path may belong to it, as in `path::rest`, `path { field }` and
/// `path!()`. Blocks, literals and macros are looked for inside of the group,
/// and so is whatever is neither an expression nor a type: an item, a pattern or
/// a visibility. A `let` is not.
pub open spec fn is_operand(ts: Seq<TokenView>, text: Seq<char>) -> bool {
    if expr::expr_rest(text) == Ok::<nat, Seq<char>>(0) {
        match expr::form_of(text) {
            ExprForm::Lit | ExprForm::Path | ExprForm::Block | ExprForm::Macro => false,
            _ => true,
        }
    } else {
        begins_let(ts) || (expr::type_rest(text) == Ok::<nat, Seq<char>>(0) && !expr::is_type_path(
            text,
        ))
    }
}

/// Is a group written without delimiters?
pub open spec fn is_bare(d: Delimiter, ts: Seq<TokenView>, text: Seq<char>) -> bool {
    d is Invisible && !is_operand(ts, text)
}

/// How a token is written, where `attribute` says whether it follows a `#`. An
/// invisible group that stays one operand is written in parentheses.
pub open spec fn token_text(t: TokenView, attribute: bool) -> Seq<char>
    decreases t,
{
    match t {
        TokenView::Ident(s) => s,
        TokenView::Punct(c, _) => seq![c],
        TokenView::Literal(s) => s,
        TokenView::Group(d, ts) => {
            let text = if attribute && d is Bracket && ts.len() == 1 && ts[0] is Group
                && ts[0]->Group_0 is Invisible {
                tokens_text(ts[0]->Group_1)
            } else {
                tokens_text(ts)
            };
            if is_bare(d, ts, text) {
                text
            } else {
                seq![opening(d)] + text + seq![closing(d)]
            }
        },
    }
}

/// Does a `#`, or `#!`, come last, so that an attribute may follow?
pub open spec fn ends_in_hash(ts: Seq<TokenView>) -> bool {
    is_punct(ts, ts.len() - 1, '#') || (is_punct(ts, ts.len() - 1, '!') && is_punct(
        ts,
        ts.len() - 2,
        '#',
    ))
}

/// How tokens are written: with a space between each two, but for a punctuation
/// character that the next one follows directly.
pub open spec fn tokens_text(ts: Seq<TokenView>) -> Seq<char>
    decreases ts,
{
    if ts.len() == 0 {
        Seq::empty()
    } else {
        tokens_text(ts.drop_last()) + gap(ts.drop_last()) + token_text(
            ts.last(),
            ends_in_hash(ts.drop_last()),
        )
    }
}

/// What is written between tokens and the next one.
pub open spec fn gap(ts: Seq<TokenView>) -> Seq<char> {
    if ts.len() == 0 {
        Seq::empty()
    } else {
        match ts.last() {
            TokenView::Punct(_, true) => Seq::empty(),
            _ => seq![' '],
        }
    }
}

/// Appends what is written between the tokens before the `i`-th one, from the
/// `from`-th on, and the `i`-th one.
fn push_gap(out: &mut String, ts: &Vec<Token>, from: usize, i: usize)
    requires
        from <= i <= ts@.len(),
    ensures
        final(out)@ == old(out)@ + gap(token_views(ts@).subrange(from as int, i as int)),
{
    let ghost before = token_views(ts@).subrange(from as int, i as int);
    if from < i {
        assert(before.last() == ts@[i - 1]@);
        match &ts[i - 1] {
            Token::Punct(_, true) => {},
            _ => out.push(' '),
        }
    }
    assert(out@ =~= old(out)@ + gap(before));
}

/// Does a `#`, or `#!`, stand before the `i`-th token, from the `from`-th on?
fn follows_hash(ts: &Vec<Token>, from: usize, i: usize) -> (r: bool)
    requires
        from <= i <= ts@.len(),
    ensures
        r == ends_in_hash(token_views(ts@).subrange(from as int, i as int)),
{
    let ghost before = token_views(ts@).subrange(from as int, i as int);
    assert(forall|k: int| from <= k < i ==> before[k - from] == #[trigger] token_views(ts@)[k]);
    assert(from < i ==> before[before.len() - 1] == token_views(ts@)[i - 1]);
    assert(from + 1 < i ==> before[before.len() - 2] == token_views(ts@)[i - 2]);
    if i == from {
        false
    } else if has_punct(ts, i - 1, '#') {
        true
    } else {
        i - from >= 2 && has_punct(ts, i - 1, '!') && has_punct(ts, i - 2, '#')
    }
}

fn written_bare(d: Delimiter, ts: &Vec<Token>, text: &str) -> (r: bool)
    ensures
        r == is_bare(d, token_views(ts@), text@),
{
    match d {
        Delimiter::Invisible => {},
        _ => {
            return false;
        },
    }
    if let Ok(rest) = skip_expr(text) {
        if rest == 0 {
            return matches!(
                expr_form(text),
                ExprForm::Lit | ExprForm::Path | ExprForm::Block | ExprForm::Macro
            );
        }
    }
    let ghost views = token_views(ts@);
    if ts.len() > 0 {
        assert(views[0] == ts@[0]@);
        if let Token::Ident(name) = &ts[0] {
            if same_text(name.as_str(), "let") {
                return false;
            }
        }
    }
    assert(!begins_let(views));
    match skip_type(text) {
        Ok(rest) => rest != 0 || accepts_type_path(text),
        Err(_) => true,
    }
}

fn push_tokens(out: &mut String, ts: &Vec<Token>)
    ensures
        final(out)@ == old(out)@ + tokens_text(token_views(ts@)),
    decreases *ts,
{
    let ghost start = out@;
    let ghost views = token_views(ts@);
    let mut i: usize = 0;
    assert(views.subrange(0, 0) =~= seq![]);
    assert(start =~= start + tokens_text(views.subrange(0, 0)));
    while i < ts.len()
        invariant
            0 <= i <= ts.len(),
            views == token_views(ts@),
            out@ == start + tokens_text(views.subrange(0, i as int)),
        decreases ts.len() - i,
    {
        assert(decreases_to!(*ts => ts@));
        assert(decreases_to!(ts@ => ts@[i as int]));
        push_gap(out, ts, 0, i);
        push_token(out, &ts[i], follows_hash(ts, 0, i));
        proof {
            let more = views.subrange(0, i + 1);
            assert(more.drop_last() =~= views.subrange(0, i as int));
            assert(more.last() == ts@[i as int]@);
            assert(out@ =~= start + tokens_text(more));
        }
        i += 1;
    }
    assert(views.subrange(0, i as int) =~= views);
}

fn push_token(out: &mut String, t: &Token, attribute: bool)
    ensures
        final(out)@ == old(out)@ + token_text(t@, attribute),
    decreases *t,
{
    match t {
        Token::Ident(s) => {
            out.append(s.as_str());
        },
        Token::Punct(c, _) => {
            out.push(*c);
            assert(out@ =~= old(out)@ + token_text(t@, attribute));
        },
        Token::Literal(s) => {
            out.append(s.as_str());
        },
        Token::Group(d, ts) => {
            let ghost views = token_views(ts@);
            let mut inner = String::new();
            let mut alone: bool = false;
            proof {
                assert(t@ == TokenView::Group(*d, views)) by {
                    assert(t@->Group_1 =~= views);
                }
                assert(decreases_to!(*t => t->Group_1));
            }
            if attribute && *d == Delimiter::Bracket && ts.len() == 1 {
                assert(views[0] == ts@[0]@);
                if let Token::Group(Delimiter::Invisible, meta) = &ts[0] {
                    proof {
                        assert(decreases_to!(*ts => ts@));
                        assert(decreases_to!(ts@ => ts@[0]));
                        assert(decreases_to!(ts@[0] => ts@[0]->Group_1));
                        assert(ts@[0]@->Group_1 =~= token_views(meta@));
                    }
                    push_tokens(&mut inner, meta);
                    alone = true;
                }
            }
            if !alone {
                push_tokens(&mut inner, ts);
            }
            if written_bare(*d, ts, inner.as_str()) {
                out.append(inner.as_str());
                return;
            }
            out.push(
                match d {
                    Delimiter::Brace => '{',
                    Delimiter::Bracket => '[',
                    _ => '(',
                },
            );
            out.append(inner.as_str());
            out.push(
                match d {
                    Delimiter::Brace => '}',
                    Delimiter::Bracket => ']',
                    _ => ')',
                },
            );
            assert(out@ =~= old(out)@ + token_text(t@, attribute));
        },
    }
}

/// How the tokens from the `from`-th one to the one before the `to`-th are
/// written.
pub fn print_tokens(ts: &Vec<Token>, from: usize, to: usize) -> (r: String)
    requires
        from <= to <= ts@.len(),
    ensures
        r@ == tokens_text(token_views(ts@).subrange(from as int, to as int)),
{
    let ghost views = token_views(ts@);
    let mut out = String::new();
    let mut i: usize = from;
    while i < to
        invariant
            from <= i <= to <= ts@.len(),
            views == token_views(ts@),
            out@ == tokens_text(views.subrange(from as int, i as int)),
        decreases to - i,
    {
        push_gap(&mut out, ts, from, i);
        push_token(&mut out, &ts[i], follows_hash(ts, from, i));
        proof {
            let more = views.subrange(from as int, i + 1);
            assert(more.drop_last() =~= views.subrange(from as int, i as int));
            assert(more.last() == ts@[i as int]@);
            assert(out@ =~= tokens_text(more));
        }
        i += 1;
    }
    out
}

/// As how many token trees a token is written.
pub open spec fn token_width(t: TokenView) -> nat
    decreases t,
{
    match t {
        TokenView::Group(d, ts) => if is_bare(d, ts, tokens_text(ts)) {
            tokens_width(ts)
        } else {
            1
        },
        _ => 1,
    }
}

/// As how many token trees tokens are written.
pub open spec fn tokens_width(ts: Seq<TokenView>) -> nat
    decreases ts,
{
    if ts.len() == 0 {
        0
    } else {
        tokens_width(ts.drop_last()) + token_width(ts.last())
    }
}

/// The index from which the tokens before the `n`-th are written as `rest` token
/// trees. There is none if these begin in the middle of a token.
pub open spec fn rest_start(ts: Seq<TokenView>, n: nat, rest: nat) -> Option<nat>
    decreases n,
{
    if rest == 0 {
        Some(n)
    } else if n == 0 || token_width(ts[n - 1]) > rest {
        None
    } else {
        rest_start(ts, (n - 1) as nat, (rest - token_width(ts[n - 1])) as nat)
    }
}

pub proof fn lemma_rest_start(ts: Seq<TokenView>, n: nat, rest: nat)
    ensures
        rest_start(ts, n, rest) matches Some(start) ==> start <= n,
    decreases n,
{
    if rest > 0 && n > 0 && token_width(ts[n - 1]) <= rest {
        lemma_rest_start(ts, (n - 1) as nat, (rest - token_width(ts[n - 1])) as nat);
    }
}

/// How many of `rest` token trees stand before the token that they end with.
fn rest_before(t: &Token, rest: usize) -> (r: Option<usize>)
    ensures
        match r {
            Some(left) => token_width(t@) + left == rest,
            None => token_width(t@) > rest,
        },
    decreases t,
{
    match t {
        Token::Group(d, ts) => {
            let ghost views = token_views(ts@);
            assert(t@->Group_1 =~= views);
            assert(views.subrange(0, views.len() as int) =~= views);
            if written_bare(*d, ts, print_tokens(ts, 0, ts.len()).as_str()) {
                let mut i: usize = ts.len();
                let mut left: usize = rest;
                assert(views.take(i as int) =~= views);
                while i > 0
                    invariant
                        *t == Token::Group(*d, *ts),
                        0 <= i <= ts.len(),
                        views == token_views(ts@),
                        token_width(t@) == tokens_width(views),
                        left <= rest,
                        tokens_width(views) - tokens_width(views.take(i as int)) == rest - left,
                    decreases i,
                {
                    assert(decreases_to!(*t => t->Group_1));
                    assert(decreases_to!(*ts => ts@));
                    assert(decreases_to!(ts@ => ts@[i - 1]));
                    assert(views.take(i as int).drop_last() =~= views.take(i - 1));
                    assert(views.take(i as int).last() == ts@[i - 1]@);
                    match rest_before(&ts[i - 1], left) {
                        Some(n) => {
                            left = n;
                        },
                        None => {
                            return None;
                        },
                    }
                    i -= 1;
                }
                return Some(left);
            }
        },
        _ => {},
    }
    if rest > 0 {
        Some(rest - 1)
    } else {
        None
    }
}

/// The index from which the tokens are written as `rest` token trees.
pub fn find_rest(ts: &Vec<Token>, rest: usize) -> (r: Option<usize>)
    ensures
        match r {
            Some(start) => start <= ts@.len() && rest_start(
                token_views(ts@),
                ts@.len(),
                rest as nat,
            ) == Some(start as nat),
            None => rest_start(token_views(ts@), ts@.len(), rest as nat) is None,
        },
{
    let ghost views = token_views(ts@);
    let mut n: usize = ts.len();
    let mut left: usize = rest;
    while left > 0
        invariant
            n <= ts@.len(),
            views == token_views(ts@),
            rest_start(views, ts@.len(), rest as nat) == rest_start(views, n as nat, left as nat),
        decreases n,
    {
        if n == 0 {
            return None;
        }
        match rest_before(&ts[n - 1], left) {
            Some(before) => {
                left = before;
            },
            None => {
                return None;
            },
        }
        n -= 1;
    }
    Some(n)
}

/// Is the `i`-th token there, and the punctuation character `c`?
pub open spec fn is_punct(ts: Seq<TokenView>, i: int, c: char) -> bool {
    0 <= i < ts.len() && ts[i] is Punct && ts[i]->Punct_0 == c
}

/// Do the punctuation characters `c` and `d` follow each other directly from
/// the `i`-th token on?
pub open spec fn is_joint(ts: Seq<TokenView>, i: int, c: char, d: char) -> bool {
    is_punct(ts, i, c) && ts[i]->Punct_1 && is_punct(ts, i + 1, d)
}

/// Is the `i`-th token there, and the punctuation character `c`?
pub fn has_punct(ts: &Vec<Token>, i: usize, c: char) -> (r: bool)
    ensures
        r == is_punct(token_views(ts@), i as int, c),
{
    if i < ts.len() {
        assert(token_views(ts@)[i as int] == ts@[i as int]@);
        match &ts[i] {
            Token::Punct(p, _) => *p == c,
            _ => false,
        }
    } else {
        false
    }
}

/// Do the punctuation characters `c` and `d` follow each other directly from
/// the `i`-th token on?
pub fn has_joint(ts: &Vec<Token>, i: usize, c: char, d: char) -> (r: bool)
    ensures
        r == is_joint(token_views(ts@), i as int, c, d),
{
    if i < ts.len() {
        assert(token_views(ts@)[i as int] == ts@[i as int]@);
        match &ts[i] {
            Token::Punct(p, true) => *p == c && has_punct(ts, i + 1, d),
            _ => false,
        }
    } else {
        false
    }
}

} // verus!
