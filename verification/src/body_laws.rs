//! What it means that a placeholder has a body, and what the body asks for, told
//! by how it is written.
use crate::cut_laws;
use crate::grammar;
use crate::grammar::{IdentView, Stretch};
use crate::parse_laws;
use crate::placeholders::Kleene;
use crate::text;
use vstd::prelude::*;

verus! {

// -- String literals, character literals and comments of Rust -------------

/// How many backslashes stand directly before `p`, none of them before `lo`.
pub open spec fn backslashes(b: Seq<u8>, lo: int, p: int) -> nat
    decreases p - lo,
{
    if lo < p && b[p - 1] == 92 {
        backslashes(b, lo, p - 1) + 1
    } else {
        0
    }
}

/// Is the first `"` at or behind `lo` without a backslash that takes it the one
/// at `q`?
pub open spec fn closes_string(b: Seq<u8>, lo: int, q: int) -> bool {
    &&& lo <= q < b.len()
    &&& b[q] == 34
    &&& backslashes(b, lo, q) % 2 == 0
    &&& forall|m: int| lo <= m < q && #[trigger] b[m] == 34 ==> backslashes(b, lo, m) % 2 == 1
}

/// Is the stretch a string literal with escapes?
pub open spec fn is_escaped_string(b: Seq<u8>, s: int, e: int) -> bool {
    b[s] == 34 && closes_string(b, s + 1, e - 1)
}

/// Is the byte at `m` a `"`, and are there `n` times `#` behind it?
pub open spec fn is_raw_quote(b: Seq<u8>, m: int, n: int) -> bool {
    &&& 0 <= m && m + n < b.len()
    &&& b[m] == 34
    &&& forall|h: int| m < h <= m + n ==> #[trigger] b[h] == 35
}

/// Does a raw string literal with `n` times `#` begin at `s`?
pub open spec fn opens_raw_string(b: Seq<u8>, s: int, n: int) -> bool {
    &&& 0 <= n && s + 1 + n < b.len()
    &&& b[s] == 114
    &&& forall|h: int| s < h <= s + n ==> #[trigger] b[h] == 35
    &&& b[s + 1 + n] == 34
}

/// Is the stretch a raw string literal with `n` times `#`?
pub open spec fn is_raw_string(b: Seq<u8>, s: int, e: int, n: int) -> bool {
    &&& opens_raw_string(b, s, n)
    &&& s + 2 + n <= e - 1 - n
    &&& is_raw_quote(b, e - 1 - n, n)
    &&& forall|m: int| s + 2 + n <= m < e - 1 - n ==> !#[trigger] is_raw_quote(b, m, n)
}

/// Is the stretch a character literal: an escape up to the next quote, or one
/// character, of which all but the first byte go on?
pub open spec fn is_char_literal(b: Seq<u8>, s: int, e: int) -> bool {
    &&& s + 3 <= e <= b.len()
    &&& b[s] == 39 && b[e - 1] == 39
    &&& if b[s + 1] == 92 {
        s + 4 <= e && forall|k: int| s + 3 <= k < e - 1 ==> #[trigger] b[k] != 39
    } else {
        forall|k: int| s + 2 <= k < e - 1 ==> 0x80 <= #[trigger] b[k] < 0xC0
    }
}

/// Is the stretch a comment?
pub open spec fn is_rust_comment(b: Seq<u8>, s: int, e: int) -> bool {
    ||| cut_laws::two_at(b, s, 47, 47) && s + 2 <= e && (forall|k: int|
        s + 2 <= k < e ==> #[trigger] b[k] != 10) && (e < b.len() ==> b[e] == 10)
    ||| cut_laws::is_block_comment(b, s, e)
}

/// Does none of these begin at `s`?
pub open spec fn nothing_begins(b: Seq<u8>, s: int) -> bool {
    &&& forall|e: int| !#[trigger] is_escaped_string(b, s, e)
    &&& forall|e: int, n: int| !#[trigger] is_raw_string(b, s, e, n)
    &&& forall|e: int| !#[trigger] is_char_literal(b, s, e)
    &&& !cut_laws::two_at(b, s, 47, 47)
    &&& !cut_laws::two_at(b, s, 47, 42)
}

/// A stretch of a Rust expression.
pub struct RustPiece {
    pub start: int,
    pub end: int,
    pub is_string: bool,
}

/// Is it one: a string literal, a character literal, a comment, or a byte where
/// none of these begins?
pub open spec fn is_rust_piece(b: Seq<u8>, p: RustPiece) -> bool {
    &&& 0 <= p.start < p.end <= b.len()
    &&& if p.is_string {
        is_escaped_string(b, p.start, p.end) || exists|n: int| is_raw_string(b, p.start, p.end, n)
    } else {
        ||| is_char_literal(b, p.start, p.end)
        ||| is_rust_comment(b, p.start, p.end)
        ||| p.end == p.start + 1 && nothing_begins(b, p.start)
    }
}

/// Do the stretches make up what is written from `lo` to `hi`?
pub open spec fn rust_covers(b: Seq<u8>, ps: Seq<RustPiece>, lo: int, hi: int) -> bool {
    &&& forall|k: int| 0 <= k < ps.len() ==> is_rust_piece(b, #[trigger] ps[k])
    &&& ps.len() == 0 ==> lo == hi
    &&& ps.len() > 0 ==> ps[0].start == lo && ps.last().end == hi
    &&& forall|k: int| 0 < k < ps.len() ==> (#[trigger] ps[k]).start == ps[k - 1].end
}

/// Do the stretches from `lo` on come to one that holds `m`, and is that one a
/// string literal just if `is_string` says so?
pub open spec fn comes_to(b: Seq<u8>, ps: Seq<RustPiece>, lo: int, m: int, is_string: bool) -> bool {
    &&& ps.len() > 0
    &&& rust_covers(b, ps, lo, ps.last().end)
    &&& ps.last().start <= m < ps.last().end
    &&& ps.last().is_string == is_string
}

/// Does `m` stand in a string literal of the expression that begins at `lo`?
pub open spec fn in_string(b: Seq<u8>, lo: int, m: int) -> bool {
    exists|ps: Seq<RustPiece>| #[trigger] comes_to(b, ps, lo, m, true)
}

/// Does `m` stand outside of all string literals?
pub open spec fn in_code(b: Seq<u8>, lo: int, m: int) -> bool {
    exists|ps: Seq<RustPiece>| #[trigger] comes_to(b, ps, lo, m, false)
}

// -- Where a body ends ----------------------------------------------------

/// How many parentheses are open behind the bytes. A `)` that closes none is
/// ordinary text.
pub open spec fn parens_open(s: Seq<u8>) -> nat
    decreases s.len(),
{
    if s.len() == 0 {
        0
    } else if s.last() == 40 {
        parens_open(s.drop_last()) + 1
    } else if s.last() == 41 && parens_open(s.drop_last()) > 0 {
        (parens_open(s.drop_last()) - 1) as nat
    } else {
        parens_open(s.drop_last())
    }
}

/// Is what stands at `m` in parentheses, and in no string literal?
pub open spec fn is_sheltered(b: Seq<u8>, lo: int, m: int) -> bool {
    parens_open(b.subrange(lo, m)) > 0 && in_code(b, lo, m)
}

/// Is the first `}` that is not sheltered, in the body that begins at `lo`, the
/// one at `k`?
pub open spec fn ends_body(b: Seq<u8>, lo: int, k: int) -> bool {
    &&& 0 <= lo <= k < b.len()
    &&& b[k] == 125
    &&& parens_open(b.subrange(lo, k)) == 0 || in_string(b, lo, k)
    &&& forall|m: int| lo <= m < k && #[trigger] b[m] == 125 ==> is_sheltered(b, lo, m)
}

/// Is every `}` sheltered?
pub open spec fn never_ends(b: Seq<u8>, lo: int) -> bool {
    forall|m: int| lo <= m < b.len() && #[trigger] b[m] == 125 ==> is_sheltered(b, lo, m)
}

proof fn lemma_string(b: Seq<u8>, lo: int, i: int)
    requires
        0 <= lo <= i <= b.len(),
        backslashes(b, lo, i) % 2 == 0,
        forall|m: int| lo <= m < i && #[trigger] b[m] == 34 ==> backslashes(b, lo, m) % 2 == 1,
    ensures
        match grammar::rust_string_end(b, i) {
            Some(e) => i < e <= b.len() && closes_string(b, lo, e - 1),
            None => forall|m: int|
                lo <= m < b.len() && #[trigger] b[m] == 34 ==> backslashes(b, lo, m) % 2 == 1,
        },
    decreases b.len() - i,
{
    if i < b.len() {
        if b[i] == 34 {
        } else if b[i] == 92 && i + 1 < b.len() {
            assert(backslashes(b, lo, i + 1) == backslashes(b, lo, i) + 1);
            assert(b[i + 1] == 92 ==> backslashes(b, lo, i + 2) == backslashes(b, lo, i + 1) + 1);
            assert(b[i + 1] != 92 ==> backslashes(b, lo, i + 2) == 0);
            lemma_string(b, lo, i + 2);
        } else if b[i] == 92 {
            assert(grammar::rust_string_end(b, i + 1) is None);
        } else {
            assert(backslashes(b, lo, i + 1) == 0);
            lemma_string(b, lo, i + 1);
        }
    }
}

proof fn lemma_hashes(b: Seq<u8>, i: int)
    requires
        0 <= i <= b.len(),
    ensures
        i <= grammar::hashes_end(b, i) <= b.len(),
        forall|h: int| i <= h < grammar::hashes_end(b, i) ==> #[trigger] b[h] == 35,
        grammar::hashes_end(b, i) < b.len() ==> b[grammar::hashes_end(b, i)] != 35,
    decreases b.len() - i,
{
    if i < b.len() && b[i] == 35 {
        lemma_hashes(b, i + 1);
    }
}

proof fn lemma_raw(b: Seq<u8>, lo: int, i: int, n: int)
    requires
        0 <= lo <= i <= b.len(),
        0 <= n,
        forall|m: int| lo <= m < i ==> !#[trigger] is_raw_quote(b, m, n),
    ensures
        match grammar::raw_string_end(b, i, n) {
            Some(e) => i <= e - 1 - n && e <= b.len() && is_raw_quote(b, e - 1 - n, n) && forall|m: int|
                lo <= m < e - 1 - n ==> !#[trigger] is_raw_quote(b, m, n),
            None => forall|m: int| lo <= m ==> !#[trigger] is_raw_quote(b, m, n),
        },
    decreases b.len() - i,
{
    if i < b.len() {
        lemma_hashes(b, i + 1);
        let h = grammar::hashes_end(b, i + 1);
        if b[i] == 34 && h >= i + 1 + n {
            assert(is_raw_quote(b, i, n));
        } else {
            assert(!is_raw_quote(b, i, n)) by {
                if is_raw_quote(b, i, n) {
                    assert(i < h <= i + n);
                    assert(b[h] == 35);
                }
            }
            lemma_raw(b, lo, i + 1, n);
        }
    }
}

proof fn lemma_find(b: Seq<u8>, i: int, c: u8)
    requires
        0 <= i,
    ensures
        match grammar::find_byte(b, i, c) {
            Some(at) => i <= at < b.len() && b[at] == c && forall|k: int|
                i <= k < at ==> #[trigger] b[k] != c,
            None => forall|k: int| i <= k < b.len() ==> #[trigger] b[k] != c,
        },
    decreases b.len() - i,
{
    if i < b.len() && b[i] != c {
        lemma_find(b, i + 1, c);
    }
}

proof fn lemma_scalar(b: Seq<u8>, i: int)
    requires
        0 <= i <= b.len(),
    ensures
        i <= grammar::scalar_end(b, i) <= b.len(),
        forall|k: int| i <= k < grammar::scalar_end(b, i) ==> 0x80 <= #[trigger] b[k] < 0xC0,
        grammar::scalar_end(b, i) < b.len() ==> !(0x80 <= b[grammar::scalar_end(b, i)] < 0xC0),
    decreases b.len() - i,
{
    if i < b.len() && 0x80 <= b[i] < 0xC0 {
        lemma_scalar(b, i + 1);
    }
}

proof fn lemma_char(b: Seq<u8>, s: int)
    requires
        0 <= s < b.len(),
        b[s] == 39,
    ensures
        match grammar::char_literal_end(b, s + 1) {
            Some(e) => is_char_literal(b, s, e),
            None => forall|e: int| !#[trigger] is_char_literal(b, s, e),
        },
{
    if grammar::at(b, s + 1, 92) {
        lemma_find(b, s + 3, 39);
        if grammar::find_byte(b, s + 3, 39) is None {
            assert forall|e: int| !#[trigger] is_char_literal(b, s, e) by {
                if is_char_literal(b, s, e) {
                    assert(b[e - 1] == 39);
                }
            }
        }
    } else if s + 2 <= b.len() {
        lemma_scalar(b, s + 2);
        let end = grammar::scalar_end(b, s + 2);
        if !grammar::at(b, end, 39) {
            assert forall|e: int| !#[trigger] is_char_literal(b, s, e) by {
                if is_char_literal(b, s, e) {
                    if e - 1 < end {
                        assert(0x80 <= b[e - 1] < 0xC0);
                    } else if e - 1 > end {
                        assert(0x80 <= b[end] < 0xC0);
                    }
                }
            }
        }
    } else {
        assert(grammar::scalar_end(b, s + 2) == s + 2);
    }
}

/// What begins at `i` is found.
proof fn lemma_stretch(b: Seq<u8>, i: int)
    requires
        0 <= i < b.len(),
    ensures
        ({
            let st = grammar::stretch_at(b, i);
            if i < st.end {
                is_rust_piece(b, RustPiece { start: i, end: st.end, is_string: st.is_string })
            } else {
                nothing_begins(b, i)
            }
        }),
{
    let c = b[i];
    assert(c != 34 ==> forall|e: int| !#[trigger] is_escaped_string(b, i, e));
    assert(c != 114 ==> forall|e: int, n: int| !#[trigger] is_raw_string(b, i, e, n));
    assert(c != 39 ==> forall|e: int| !#[trigger] is_char_literal(b, i, e));
    if c == 34 {
        lemma_string(b, i + 1, i + 1);
        if grammar::rust_string_end(b, i + 1) is None {
            assert forall|e: int| !#[trigger] is_escaped_string(b, i, e) by {
                if is_escaped_string(b, i, e) {
                    assert(b[e - 1] == 34);
                }
            }
        }
    } else if c == 114 {
        lemma_hashes(b, i + 1);
        let h = grammar::hashes_end(b, i + 1);
        let n = h - (i + 1);
        assert forall|m: int| opens_raw_string(b, i, m) implies m == n by {
            if m < n {
                assert(b[i + 1 + m] == 35);
            } else if m > n {
                assert(b[h] == 35);
            }
        }
        if grammar::at(b, h, 34) {
            assert(opens_raw_string(b, i, n));
            lemma_raw(b, h + 1, h + 1, n);
            match grammar::raw_string_end(b, h + 1, n) {
                Some(e) => {
                    assert(is_raw_string(b, i, e, n));
                },
                None => {
                    assert forall|e: int, m: int| !#[trigger] is_raw_string(b, i, e, m) by {
                        if is_raw_string(b, i, e, m) {
                            assert(is_raw_quote(b, e - 1 - n, n));
                        }
                    }
                },
            }
        } else {
            assert forall|e: int, m: int| !#[trigger] is_raw_string(b, i, e, m) by {
                if is_raw_string(b, i, e, m) {
                    assert(opens_raw_string(b, i, m));
                }
            }
        }
    } else if c == 39 {
        lemma_char(b, i);
    } else if cut_laws::two_at(b, i, 47, 47) {
        cut_laws::lemma_line(b, i + 2);
    } else if cut_laws::two_at(b, i, 47, 42) {
        cut_laws::lemma_block_comment(b, i);
    }
}

proof fn lemma_one_more_byte(b: Seq<u8>, lo: int, i: int)
    requires
        0 <= lo <= i < b.len(),
    ensures
        parens_open(b.subrange(lo, i + 1)) == grammar::depth_past(
            b[i],
            parens_open(b.subrange(lo, i)),
        ),
{
    assert(b.subrange(lo, i + 1).drop_last() =~= b.subrange(lo, i));
    assert(b.subrange(lo, i + 1).last() == b[i]);
}

proof fn lemma_ends_from(b: Seq<u8>, lo: int, i: int, last: Stretch, ps: Seq<RustPiece>)
    requires
        0 <= lo <= i <= b.len(),
        forall|m: int| lo <= m < i && #[trigger] b[m] == 125 ==> is_sheltered(b, lo, m),
        i < last.end ==> comes_to(b, ps, lo, i, last.is_string) && ps.last().end == last.end,
        last.end <= i ==> rust_covers(b, ps, lo, i),
    ensures
        match grammar::body_end_from(b, i, parens_open(b.subrange(lo, i)), last) {
            Some(end) => ends_body(b, lo, end),
            None => never_ends(b, lo),
        },
    decreases b.len() - i,
{
    if i < b.len() {
        let now = grammar::stretch_over(b, i, last);
        let more = if i < last.end {
            ps
        } else {
            lemma_stretch(b, i);
            if i < now.end {
                ps.push(RustPiece { start: i, end: now.end, is_string: now.is_string })
            } else {
                ps.push(RustPiece { start: i, end: i + 1, is_string: false })
            }
        };
        let is_string = i < now.end && now.is_string;
        if i >= last.end {
            let p = more.last();
            assert(is_rust_piece(b, p));
            assert(more.drop_last() =~= ps);
            assert forall|k: int| 0 <= k < more.len() implies is_rust_piece(
                b,
                #[trigger] more[k],
            ) by {
                if k < ps.len() {
                    assert(more[k] == ps[k]);
                }
            }
            assert forall|k: int| 0 < k < more.len() implies (#[trigger] more[k]).start == more[k
                - 1].end by {
                if k < ps.len() {
                    assert(more[k] == ps[k] && more[k - 1] == ps[k - 1]);
                }
            }
        }
        assert(comes_to(b, more, lo, i, is_string));
        if b[i] == 125 && (parens_open(b.subrange(lo, i)) == 0 || is_string) {
        } else {
            lemma_one_more_byte(b, lo, i);
            lemma_ends_from(b, lo, i + 1, now, more);
        }
    }
}

/// The body that begins at `lo` ends at the first `}` that neither stands in
/// parentheses nor, in them, in a string literal.
pub proof fn law_body_end(b: Seq<u8>, lo: int)
    requires
        0 <= lo <= b.len(),
    ensures
        match grammar::body_end(b, lo) {
            Some(end) => ends_body(b, lo, end),
            None => never_ends(b, lo),
        },
{
    assert(b.subrange(lo, lo) =~= seq![]);
    lemma_ends_from(b, lo, lo, Stretch { end: lo, is_string: false }, seq![]);
}

// -- What a body asks for -------------------------------------------------

/// A letter or an underscore, and then letters, digits and underscores.
pub open spec fn is_word(s: Seq<char>) -> bool {
    &&& s.len() > 0
    &&& !('0' <= s[0] <= '9')
    &&& forall|i: int|
        0 <= i < s.len() ==> 'a' <= #[trigger] s[i] <= 'z' || 'A' <= s[i] <= 'Z' || s[i] == '_'
            || '0' <= s[i] <= '9'
}

/// Digits.
pub open spec fn is_number(s: Seq<char>) -> bool {
    s.len() > 0 && forall|i: int| 0 <= i < s.len() ==> '0' <= #[trigger] s[i] <= '9'
}

/// The number that is written with the digits.
pub open spec fn number(s: Seq<char>) -> int
    decreases s.len(),
{
    if s.len() == 0 {
        0
    } else {
        number(s.drop_last()) * 10 + (s.last() as int - '0' as int)
    }
}

/// Is there no white space at either end?
pub open spec fn is_trimmed(s: Seq<char>) -> bool {
    s.len() > 0 ==> !text::is_white_space(s[0]) && !text::is_white_space(s.last())
}

/// Is the body written with the head and the marker, and with white space around
/// them?
pub open spec fn is_written_with(
    body: Seq<char>,
    before: Seq<char>,
    head: Seq<char>,
    space: Seq<char>,
    kleene: Option<Kleene>,
    after: Seq<char>,
) -> bool {
    &&& body == before + head + space + parse_laws::marker_text(kleene) + after
    &&& parse_laws::all_white_space(before)
    &&& parse_laws::all_white_space(space)
    &&& parse_laws::all_white_space(after)
    &&& is_trimmed(head)
    &&& kleene is None ==> head.len() > 0 && head.last() != '*' && head.last() != '+'
}

/// Is the body made of the head and the marker?
pub open spec fn is_made_of(body: Seq<char>, head: Seq<char>, kleene: Option<Kleene>) -> bool {
    exists|before: Seq<char>, space: Seq<char>, after: Seq<char>| #[trigger]
        is_written_with(body, before, head, space, kleene, after)
}

/// Is the text in the parentheses of the head `t`, with white space around it?
pub open spec fn is_enclosed(head: Seq<char>, l: Seq<char>, t: Seq<char>, r: Seq<char>) -> bool {
    &&& head == seq!['('] + l + t + r + seq![')']
    &&& parse_laws::all_white_space(l)
    &&& parse_laws::all_white_space(r)
    &&& is_trimmed(t)
}

/// Is the head `t` in parentheses, with white space around it?
pub open spec fn is_in_parens(head: Seq<char>, t: Seq<char>) -> bool {
    exists|l: Seq<char>, r: Seq<char>| #[trigger] is_enclosed(head, l, t, r)
}

/// Does the head ask for `ident`: a number for the argument with that index, a
/// name for itself, and what stands in parentheses for an expression?
pub open spec fn asks_for(head: Seq<char>, ident: IdentView) -> bool {
    match ident {
        IdentView::Positional(i) => is_number(head) && number(head) == i && i <= 65535,
        IdentView::Named(name) => head == name && is_word(name),
        IdentView::Expr(t) => is_in_parens(head, t),
    }
}

/// Does the body ask for `ident`, as a spread if there is a marker?
pub open spec fn describes(body: Seq<char>, ident: IdentView, kleene: Option<Kleene>) -> bool {
    exists|head: Seq<char>| #[trigger] is_made_of(body, head, kleene) && asks_for(head, ident)
}

/// Does the body ask for anything?
pub open spec fn is_describable(body: Seq<char>) -> bool {
    exists|ident: IdentView, kleene: Option<Kleene>| #[trigger] describes(body, ident, kleene)
}

/// Is the message why the head of a body asks for nothing?
pub open spec fn rejects_head(head: Seq<char>, message: Seq<char>) -> bool {
    ||| head.len() == 0 && message == "Kleene marker `*`/`+` requires an expression before it"@
    ||| head.len() > 0 && head[0] == '(' && head.last() != ')' && message
        == "mismatched `(` in placeholder; expected `(...)`"@
    ||| is_number(head) && number(head) > 65535 && message == "positional placeholder index `"@
        + head + "` is not a valid integer"@
    ||| head.len() > 0 && head[0] != '(' && !is_number(head) && !is_word(head) && message
        == "invalid placeholder body `"@ + head
        + "`; expected an integer, identifier, or `(expr)`"@
}

/// Is the message why the body asks for nothing?
pub open spec fn rejects(body: Seq<char>, message: Seq<char>) -> bool {
    ||| parse_laws::all_white_space(body) && message
        == "empty placeholder `{}`; expected an index, name, or `(expr)`"@
    ||| exists|head: Seq<char>, kleene: Option<Kleene>| #[trigger]
        is_made_of(body, head, kleene) && rejects_head(head, message)
}

proof fn lemma_number(s: Seq<char>)
    requires
        forall|i: int| 0 <= i < s.len() ==> '0' <= #[trigger] s[i] <= '9',
    ensures
        number(s) == text::digits_value(s),
    decreases s.len(),
{
    if s.len() > 0 {
        let front = s.drop_last();
        assert forall|i: int| 0 <= i < front.len() implies '0' <= #[trigger] front[i] <= '9' by {
            assert(front[i] == s[i]);
        }
        lemma_number(front);
        assert('0' <= s[s.len() - 1] <= '9');
    }
}

proof fn lemma_start(s: Seq<char>) -> (w: Seq<char>)
    ensures
        s == w + text::trim_start_spec(s),
        parse_laws::all_white_space(w),
        text::trim_start_spec(s).len() > 0 ==> !text::is_white_space(text::trim_start_spec(s)[0]),
    decreases s.len(),
{
    if s.len() > 0 && text::is_white_space(s[0]) {
        let w = lemma_start(s.drop_first());
        let t = text::trim_start_spec(s);
        assert(s =~= seq![s[0]] + s.drop_first());
        assert(seq![s[0]] + (w + t) =~= (seq![s[0]] + w) + t);
        seq![s[0]] + w
    } else {
        assert(s =~= Seq::<char>::empty() + s);
        seq![]
    }
}

proof fn lemma_end(s: Seq<char>) -> (w: Seq<char>)
    ensures
        s == text::trim_end_spec(s) + w,
        parse_laws::all_white_space(w),
        text::trim_end_spec(s).len() > 0 ==> !text::is_white_space(text::trim_end_spec(s).last()),
    decreases s.len(),
{
    if s.len() > 0 && text::is_white_space(s.last()) {
        let w = lemma_end(s.drop_last());
        let t = text::trim_end_spec(s);
        assert(s =~= s.drop_last().push(s.last()));
        assert((t + w).push(s.last()) =~= t + w.push(s.last()));
        w.push(s.last())
    } else {
        assert(s =~= s + Seq::<char>::empty());
        seq![]
    }
}

/// White space, what is trimmed, and white space.
proof fn lemma_trim(s: Seq<char>) -> (r: (Seq<char>, Seq<char>))
    ensures
        s == r.0 + text::trim_spec(s) + r.1,
        parse_laws::all_white_space(r.0),
        parse_laws::all_white_space(r.1),
        is_trimmed(text::trim_spec(s)),
{
    let w = lemma_start(s);
    let t = text::trim_start_spec(s);
    let v = lemma_end(t);
    let u = text::trim_end_spec(t);
    assert(s =~= w + u + v);
    if u.len() > 0 {
        assert(t[0] == u[0]);
    }
    (w, v)
}

/// A body asks for what is written in it, and is rejected, with the message that
/// says why, if it asks for nothing.
pub proof fn law_body(body: Seq<char>)
    ensures
        match grammar::body_meaning(body) {
            Ok((ident, kleene)) => describes(body, ident, kleene),
            Err(message) => rejects(body, message),
        },
{
    let trimmed = text::trim_spec(body);
    let (before, after) = lemma_trim(body);
    if trimmed.len() == 0 {
        assert forall|i: int| 0 <= i < body.len() implies text::is_white_space(
            #[trigger] body[i],
        ) by {
            if i < before.len() {
                assert(body[i] == before[i]);
            } else {
                assert(body[i] == after[i - before.len()]);
            }
        }
    } else {
        let (head, kleene) = grammar::split_marker(trimmed);
        let space = if kleene is Some {
            lemma_end(trimmed.drop_last())
        } else {
            seq![]
        };
        if kleene is Some {
            assert(trimmed =~= trimmed.drop_last().push(trimmed.last()));
            if head.len() > 0 {
                assert(head[0] == trimmed[0]);
            }
        }
        assert(trimmed =~= head + space + parse_laws::marker_text(kleene));
        assert(body =~= before + head + space + parse_laws::marker_text(kleene) + after);
        assert(is_written_with(body, before, head, space, kleene, after));
        assert(is_made_of(body, head, kleene));
        if head.len() > 0 {
            lemma_head(head);
        }
    }
}

/// The head of a body asks for what it is read as.
proof fn lemma_head(head: Seq<char>)
    requires
        head.len() > 0,
    ensures
        match grammar::ident_of(head) {
            Ok(ident) => asks_for(head, ident),
            Err(message) => rejects_head(head, message),
        },
{
    if head[0] == '(' {
        if head.last() == ')' {
            let inner = head.subrange(1, head.len() - 1);
            let (l, r) = lemma_trim(inner);
            let t = text::trim_spec(inner);
            assert(head =~= seq!['('] + inner + seq![')']);
            assert(seq!['('] + (l + t + r) + seq![')'] =~= seq!['('] + l + t + r + seq![')']);
            assert(is_enclosed(head, l, t, r));
            assert(is_in_parens(head, t));
        } else {
            assert(rejects_head(head, "mismatched `(` in placeholder; expected `(...)`"@));
        }
    } else if grammar::all_digits(head) {
        assert forall|i: int| 0 <= i < head.len() implies '0' <= #[trigger] head[i] <= '9' by {
            assert(text::is_digit(head[i]));
        }
        lemma_number(head);
        assert(is_number(head));
        if text::digits_value(head) <= u16::MAX {
            assert(asks_for(head, IdentView::Positional(text::digits_value(head))));
        } else {
            assert(rejects_head(
                head,
                "positional placeholder index `"@ + head + "` is not a valid integer"@,
            ));
        }
    } else {
        if is_number(head) {
            assert(grammar::all_digits(head));
        }
        lemma_word(head);
    }
}

/// An identifier is a word.
pub proof fn lemma_word(s: Seq<char>)
    ensures
        grammar::is_ident(s) <==> is_word(s),
{
    if is_word(s) {
        assert forall|i: int| 0 <= i < s.len() implies grammar::is_ident_start(#[trigger] s[i])
            || text::is_digit(s[i]) by {}
        assert(grammar::is_ident(s));
    }
    if grammar::is_ident(s) {
        assert forall|i: int| 0 <= i < s.len() implies 'a' <= #[trigger] s[i] <= 'z' || 'A' <= s[i]
            <= 'Z' || s[i] == '_' || '0' <= s[i] <= '9' by {
            assert(grammar::is_ident_start(s[i]) || text::is_digit(s[i]));
        }
        assert(is_word(s));
    }
}

} // verus!
