//! What it means that a SQL text is cut at its placeholders, told without a
//! lexer: which stretches of bytes there are, and that they make up the text.
use crate::body_laws;
use crate::context_laws;
use crate::grammar;
use crate::grammar::{FragmentView, ParseErrorView, Step};
use vstd::prelude::*;
use vstd::utf8::*;

verus! {

// -- Stretches of a SQL text ----------------------------------------------

/// Do the bytes `c` and `d` stand at `i`?
pub open spec fn two_at(b: Seq<u8>, i: int, c: u8, d: u8) -> bool {
    0 <= i && i + 1 < b.len() && b[i] == c && b[i + 1] == d
}

/// The bytes with every `quote` among them doubled.
pub open spec fn doubled(c: Seq<u8>, quote: u8) -> Seq<u8>
    decreases c.len(),
{
    if c.len() == 0 {
        seq![]
    } else if c[0] == quote {
        seq![quote, quote] + doubled(c.drop_first(), quote)
    } else {
        seq![c[0]] + doubled(c.drop_first(), quote)
    }
}

/// Do the bytes from `i` to `j`, behind the opening `quote`, hold `c` with its
/// quotes doubled, and a closing quote that is not? Without a closing quote they
/// reach to the end of the text.
pub open spec fn is_quoted_text(b: Seq<u8>, i: int, j: int, quote: u8, c: Seq<u8>) -> bool {
    ||| b.subrange(i, j) == doubled(c, quote).push(quote) && (j < b.len() ==> b[j] != quote)
    ||| j == b.len() && b.subrange(i, j) == doubled(c, quote)
}

/// Is the stretch a string literal or a quoted identifier?
pub open spec fn is_quoted(b: Seq<u8>, i: int, j: int) -> bool {
    &&& b[i] == 39 || b[i] == 34
    &&& exists|c: Seq<u8>| #[trigger] is_quoted_text(b, i + 1, j, b[i], c)
}

/// Is the stretch a line comment, up to the line feed that ends it?
pub open spec fn is_line_comment(b: Seq<u8>, i: int, j: int) -> bool {
    &&& two_at(b, i, 45, 45)
    &&& i + 2 <= j
    &&& forall|k: int| i + 2 <= k < j ==> #[trigger] b[k] != 10
    &&& j < b.len() ==> b[j] == 10
}

/// A part of a block comment.
pub enum Mark {
    /// `/*`
    Opens,
    /// `*/`
    Closes,
    /// A byte of neither.
    Other(u8),
}

pub open spec fn mark_text(m: Mark) -> Seq<u8> {
    match m {
        Mark::Opens => seq![47u8, 42u8],
        Mark::Closes => seq![42u8, 47u8],
        Mark::Other(c) => seq![c],
    }
}

/// The bytes that the marks stand for.
pub open spec fn marks_text(ms: Seq<Mark>) -> Seq<u8>
    decreases ms.len(),
{
    if ms.len() == 0 {
        seq![]
    } else {
        mark_text(ms[0]) + marks_text(ms.drop_first())
    }
}

/// How many more comments the marks open than they close.
pub open spec fn nesting(ms: Seq<Mark>) -> int
    decreases ms.len(),
{
    if ms.len() == 0 {
        0
    } else {
        nesting(ms.drop_first()) + match ms[0] {
            Mark::Opens => 1,
            Mark::Closes => -1int,
            Mark::Other(_) => 0,
        }
    }
}

/// Do the marks, from `i` to `j`, close the `depth` comments that are open, and
/// no sooner than at their end? Without that they reach to the end of the text.
/// A byte stands for itself only where neither `/*` nor `*/` does.
pub open spec fn closes_comments(b: Seq<u8>, i: int, j: int, depth: int, ms: Seq<Mark>) -> bool {
    &&& b.subrange(i, j) == marks_text(ms)
    &&& forall|k: int| 0 <= k < ms.len() ==> depth + nesting(#[trigger] ms.take(k)) > 0
    &&& forall|k: int|
        0 <= k < ms.len() && (#[trigger] ms[k]) is Other ==> !two_at(
            b,
            i + marks_text(ms.take(k)).len(),
            47,
            42,
        ) && !two_at(b, i + marks_text(ms.take(k)).len(), 42, 47)
    &&& depth + nesting(ms) == 0 || j == b.len()
}

/// Is the stretch a block comment with all comments nested in it?
pub open spec fn is_block_comment(b: Seq<u8>, i: int, j: int) -> bool {
    &&& two_at(b, i, 47, 42)
    &&& exists|ms: Seq<Mark>| #[trigger] closes_comments(b, i + 2, j, 1, ms)
}

/// A letter, a digit or an underscore.
pub open spec fn is_word_byte(c: u8) -> bool {
    97 <= c <= 122 || 65 <= c <= 90 || c == 95 || 48 <= c <= 57
}

/// Is `$tag$` written from `i` to `e`?
pub open spec fn is_delimiter(b: Seq<u8>, i: int, e: int) -> bool {
    &&& 0 <= i && i + 2 <= e <= b.len()
    &&& b[i] == 36 && b[e - 1] == 36
    &&& forall|k: int| i < k < e - 1 ==> is_word_byte(#[trigger] b[k])
    &&& i + 2 < e ==> !(48 <= b[i + 1] <= 57)
}

/// Do the bytes at `k` repeat those from `i` to `e`?
pub open spec fn repeats(b: Seq<u8>, i: int, e: int, k: int) -> bool {
    k + (e - i) <= b.len() && b.subrange(k, k + (e - i)) == b.subrange(i, e)
}

/// Is the stretch a dollar-quoted block: from its delimiter, which ends at `e`,
/// to the first one like it behind that, or else to the end of the text?
pub open spec fn is_dollar_block(b: Seq<u8>, i: int, j: int, e: int) -> bool {
    &&& is_delimiter(b, i, e)
    &&& {
        ||| e + (e - i) <= j && repeats(b, i, e, j - (e - i)) && forall|k: int|
            e <= k < j - (e - i) ==> !#[trigger] repeats(b, i, e, k)
        ||| j == b.len() && forall|k: int| e <= k ==> !#[trigger] repeats(b, i, e, k)
    }
}

/// Is the stretch one byte at which nothing begins?
pub open spec fn is_single_byte(b: Seq<u8>, i: int, j: int) -> bool {
    &&& j == i + 1
    &&& b[i] != 39 && b[i] != 34 && b[i] != 123 && b[i] != 125
    &&& !two_at(b, i, 45, 45) && !two_at(b, i, 47, 42)
    &&& forall|e: int| !#[trigger] is_delimiter(b, i, e)
}

/// Is the stretch one that stays as it is?
pub open spec fn is_text(b: Seq<u8>, i: int, j: int) -> bool {
    ||| is_quoted(b, i, j)
    ||| is_line_comment(b, i, j)
    ||| is_block_comment(b, i, j)
    ||| exists|e: int| is_dollar_block(b, i, j, e)
    ||| is_single_byte(b, i, j)
}

/// Is the stretch a doubled brace?
pub open spec fn is_escape(b: Seq<u8>, i: int, j: int) -> bool {
    j == i + 2 && (two_at(b, i, 123, 123) || two_at(b, i, 125, 125))
}

/// Does a placeholder begin at `i`?
pub open spec fn opens_hole(b: Seq<u8>, i: int) -> bool {
    b[i] == 123 && !two_at(b, i, 123, 123)
}

/// Is the stretch a placeholder, from its `{` to the `}` that ends its body?
pub open spec fn is_hole(b: Seq<u8>, i: int, j: int) -> bool {
    opens_hole(b, i) && body_laws::ends_body(b, i + 1, j - 1)
}

/// A stretch of a SQL text.
pub enum Piece {
    /// Text that stays as it is.
    Text(int, int),
    /// A doubled brace.
    Escape(int, int),
    /// A placeholder.
    Hole(int, int),
}

pub open spec fn piece_start(p: Piece) -> int {
    match p {
        Piece::Text(i, _) => i,
        Piece::Escape(i, _) => i,
        Piece::Hole(i, _) => i,
    }
}

pub open spec fn piece_end(p: Piece) -> int {
    match p {
        Piece::Text(_, j) => j,
        Piece::Escape(_, j) => j,
        Piece::Hole(_, j) => j,
    }
}

pub open spec fn is_piece(b: Seq<u8>, p: Piece) -> bool {
    0 <= piece_start(p) < piece_end(p) <= b.len() && match p {
        Piece::Text(i, j) => is_text(b, i, j),
        Piece::Escape(i, j) => is_escape(b, i, j),
        Piece::Hole(i, j) => is_hole(b, i, j) && body_laws::is_describable(
            decode_utf8(b.subrange(i + 1, j - 1)),
        ),
    }
}

/// Do the pieces make up the text from `i` to `j`, each where the one before it
/// ends?
pub open spec fn covers(b: Seq<u8>, ps: Seq<Piece>, i: int, j: int) -> bool {
    &&& forall|k: int| 0 <= k < ps.len() ==> is_piece(b, #[trigger] ps[k])
    &&& ps.len() == 0 ==> i == j
    &&& ps.len() > 0 ==> piece_start(ps[0]) == i && piece_end(ps.last()) == j
    &&& forall|k: int|
        0 < k < ps.len() ==> piece_start(#[trigger] ps[k]) == piece_end(ps[k - 1])
}

/// What a piece gives to the literal that it is in: the bytes as they are, or one
/// brace for two.
pub open spec fn piece_text(b: Seq<u8>, p: Piece) -> Seq<u8> {
    match p {
        Piece::Text(i, j) => b.subrange(i, j),
        Piece::Escape(i, _) => seq![b[i]],
        Piece::Hole(_, _) => seq![],
    }
}

/// What the pieces give to the literal that they are in.
pub open spec fn pieces_text(b: Seq<u8>, ps: Seq<Piece>) -> Seq<u8>
    decreases ps.len(),
{
    if ps.len() == 0 {
        seq![]
    } else {
        piece_text(b, ps[0]) + pieces_text(b, ps.drop_first())
    }
}

/// Is the fragment the placeholder that is written at `hole`?
pub open spec fn is_written_at(b: Seq<u8>, hole: Piece, f: FragmentView) -> bool {
    &&& hole is Hole
    &&& f is Placeholder
    &&& f->Placeholder_0.start == piece_start(hole)
    &&& f->Placeholder_0.end == piece_end(hole)
    &&& body_laws::describes(
        decode_utf8(b.subrange(piece_start(hole) + 1, piece_end(hole) - 1)),
        f->Placeholder_0.ident,
        f->Placeholder_0.kleene,
    )
}

/// The literal with the given bytes, if there are any.
pub open spec fn literal_of(run: Seq<u8>) -> Seq<FragmentView> {
    if run.len() == 0 {
        seq![]
    } else {
        seq![FragmentView::Literal(decode_utf8(run))]
    }
}

/// Are the fragments those of the pieces, where `run` is the text since the last
/// placeholder? Each stretch of pieces without a placeholder is one literal,
/// unless it gives no text, and each placeholder is a fragment, in their order.
pub open spec fn lays_out(b: Seq<u8>, ps: Seq<Piece>, run: Seq<u8>, fs: Seq<FragmentView>) -> bool
    decreases ps.len(),
{
    let before = literal_of(run);
    if ps.len() == 0 {
        fs == before
    } else if ps[0] is Hole {
        &&& before.len() < fs.len()
        &&& fs.take(before.len() as int) == before
        &&& is_written_at(b, ps[0], fs[before.len() as int])
        &&& lays_out(b, ps.drop_first(), seq![], fs.skip(before.len() as int + 1))
    } else {
        lays_out(b, ps.drop_first(), run + piece_text(b, ps[0]), fs)
    }
}

/// Is there a fault at `i`, and is it the error?
pub open spec fn is_fault(b: Seq<u8>, i: int, e: ParseErrorView) -> bool {
    &&& 0 <= i < b.len()
    &&& context_laws::is_context(b, e.byte_position, e.context)
    &&& {
        ||| b[i] == 125 && !two_at(b, i, 125, 125) && e.byte_position == i && e.message
            == "unmatched `}` in SQL; use `}}` for a literal `}`"@
        ||| opens_hole(b, i) && body_laws::never_ends(b, i + 1) && e.byte_position == i && e.message
            == "unterminated `{` in SQL; expected `}`"@
        ||| e.byte_position == i + 1 && exists|j: int| #[trigger]
            is_hole(b, i, j) && body_laws::rejects(
                decode_utf8(b.subrange(i + 1, j - 1)),
                e.message,
            )
    }
}

// -- What the lexer does --------------------------------------------------

proof fn lemma_doubled_front(c: Seq<u8>, x: u8, quote: u8)
    ensures
        doubled(seq![x] + c, quote) == (if x == quote {
            seq![quote, quote]
        } else {
            seq![x]
        }) + doubled(c, quote),
{
    assert((seq![x] + c).drop_first() =~= c);
}

proof fn lemma_quoted(b: Seq<u8>, i: int, quote: u8) -> (c: Seq<u8>)
    requires
        0 <= i <= b.len(),
    ensures
        is_quoted_text(b, i, grammar::quote_end(b, i, quote), quote, c),
        i <= grammar::quote_end(b, i, quote) <= b.len(),
    decreases b.len() - i,
{
    grammar::lemma_quote_end(b, i, quote);
    let j = grammar::quote_end(b, i, quote);
    if i == b.len() {
        assert(b.subrange(i, j) =~= doubled(seq![], quote));
        seq![]
    } else if b[i] != quote {
        let rest = lemma_quoted(b, i + 1, quote);
        lemma_doubled_front(rest, b[i], quote);
        assert(b.subrange(i, j) =~= seq![b[i]] + b.subrange(i + 1, j));
        let c = seq![b[i]] + rest;
        if b.subrange(i + 1, j) == doubled(rest, quote).push(quote) {
            assert(b.subrange(i, j) =~= doubled(c, quote).push(quote));
        }
        c
    } else if grammar::at(b, i + 1, quote) {
        let rest = lemma_quoted(b, i + 2, quote);
        lemma_doubled_front(rest, quote, quote);
        assert(b.subrange(i, j) =~= seq![quote, quote] + b.subrange(i + 2, j));
        let c = seq![quote] + rest;
        if b.subrange(i + 2, j) == doubled(rest, quote).push(quote) {
            assert(b.subrange(i, j) =~= doubled(c, quote).push(quote));
        }
        c
    } else {
        assert(b.subrange(i, j) =~= doubled(seq![], quote).push(quote));
        seq![]
    }
}

pub proof fn lemma_line(b: Seq<u8>, i: int)
    requires
        0 <= i <= b.len(),
    ensures
        i <= grammar::line_end(b, i) <= b.len(),
        forall|k: int| i <= k < grammar::line_end(b, i) ==> #[trigger] b[k] != 10,
        grammar::line_end(b, i) < b.len() ==> b[grammar::line_end(b, i)] == 10,
    decreases b.len() - i,
{
    if i < b.len() && b[i] != 10 {
        lemma_line(b, i + 1);
    }
}

proof fn lemma_comment_front(
    b: Seq<u8>,
    i: int,
    j: int,
    depth: int,
    m: Mark,
    rest: Seq<Mark>,
)
    requires
        0 <= i,
        i + mark_text(m).len() <= j <= b.len(),
        depth > 0,
        b.subrange(i, i + mark_text(m).len()) == mark_text(m),
        m is Other ==> !two_at(b, i, 47, 42) && !two_at(b, i, 42, 47),
        closes_comments(
            b,
            i + mark_text(m).len(),
            j,
            depth + (match m {
                Mark::Opens => 1int,
                Mark::Closes => -1int,
                Mark::Other(_) => 0int,
            }),
            rest,
        ),
    ensures
        closes_comments(b, i, j, depth, seq![m] + rest),
{
    let ms = seq![m] + rest;
    let w = mark_text(m).len();
    let d = match m {
        Mark::Opens => 1int,
        Mark::Closes => -1int,
        Mark::Other(_) => 0int,
    };
    assert(ms.drop_first() =~= rest);
    assert(b.subrange(i, j) =~= b.subrange(i, i + w) + b.subrange(i + w, j));
    assert forall|k: int| 0 < k <= ms.len() implies nesting(#[trigger] ms.take(k)) == d + nesting(
        rest.take(k - 1),
    ) && marks_text(ms.take(k)) == mark_text(m) + marks_text(rest.take(k - 1)) by {
        assert(ms.take(k).drop_first() =~= rest.take(k - 1));
        assert(ms.take(k)[0] == m);
    }
    assert(ms.take(0) =~= seq![]);
    assert forall|k: int| 0 <= k < ms.len() implies depth + nesting(#[trigger] ms.take(k)) > 0 by {
        if k > 0 {
            assert(depth + d + nesting(rest.take(k - 1)) > 0);
        }
    }
    assert forall|k: int| 0 <= k < ms.len() && (#[trigger] ms[k]) is Other implies !two_at(
        b,
        i + marks_text(ms.take(k)).len(),
        47,
        42,
    ) && !two_at(b, i + marks_text(ms.take(k)).len(), 42, 47) by {
        if k > 0 {
            assert(ms[k] == rest[k - 1]);
            assert(nesting(ms.take(k)) == d + nesting(rest.take(k - 1)));
        }
    }
}

proof fn lemma_comment(b: Seq<u8>, i: int, depth: nat) -> (ms: Seq<Mark>)
    requires
        0 <= i <= b.len(),
    ensures
        i <= grammar::block_comment_end(b, i, depth) <= b.len(),
        closes_comments(b, i, grammar::block_comment_end(b, i, depth), depth as int, ms),
    decreases b.len() - i,
{
    let j = grammar::block_comment_end(b, i, depth);
    if i == b.len() || depth == 0 {
        assert(b.subrange(i, j) =~= seq![]);
        seq![]
    } else if b[i] == 47 && grammar::at(b, i + 1, 42) {
        let rest = lemma_comment(b, i + 2, depth + 1);
        assert(b.subrange(i, i + 2) =~= mark_text(Mark::Opens));
        lemma_comment_front(b, i, j, depth as int, Mark::Opens, rest);
        seq![Mark::Opens] + rest
    } else if b[i] == 42 && grammar::at(b, i + 1, 47) {
        let rest = lemma_comment(b, i + 2, (depth - 1) as nat);
        assert(b.subrange(i, i + 2) =~= mark_text(Mark::Closes));
        lemma_comment_front(b, i, j, depth as int, Mark::Closes, rest);
        seq![Mark::Closes] + rest
    } else {
        let rest = lemma_comment(b, i + 1, depth);
        assert(b.subrange(i, i + 1) =~= mark_text(Mark::Other(b[i])));
        lemma_comment_front(b, i, j, depth as int, Mark::Other(b[i]), rest);
        seq![Mark::Other(b[i])] + rest
    }
}

pub proof fn lemma_block_comment(b: Seq<u8>, i: int)
    requires
        two_at(b, i, 47, 42),
    ensures
        i + 2 <= grammar::block_comment_end(b, i + 2, 1) <= b.len(),
        is_block_comment(b, i, grammar::block_comment_end(b, i + 2, 1)),
{
    let ms = lemma_comment(b, i + 2, 1);
    assert(closes_comments(b, i + 2, grammar::block_comment_end(b, i + 2, 1), 1, ms));
}

proof fn lemma_tag_run(b: Seq<u8>, i: int)
    requires
        0 <= i <= b.len(),
    ensures
        i <= grammar::tag_run_end(b, i) <= b.len(),
        forall|k: int| i <= k < grammar::tag_run_end(b, i) ==> is_word_byte(#[trigger] b[k]),
        grammar::tag_run_end(b, i) < b.len() ==> !is_word_byte(b[grammar::tag_run_end(b, i)]),
    decreases b.len() - i,
{
    if i < b.len() && grammar::is_tag_byte(b[i]) {
        lemma_tag_run(b, i + 1);
    }
}

proof fn lemma_past_tag(b: Seq<u8>, i: int, e: int, k: int)
    requires
        is_delimiter(b, i, e),
        e <= k <= b.len(),
        forall|m: int| e <= m < k ==> !#[trigger] repeats(b, i, e, m),
    ensures
        is_dollar_block(b, i, grammar::past_tag(b, b.subrange(i, e), k), e),
        k <= grammar::past_tag(b, b.subrange(i, e), k) <= b.len(),
    decreases b.len() - k,
{
    let tag = b.subrange(i, e);
    let n = e - i;
    if k >= b.len() || k + n > b.len() {
        assert forall|m: int| e <= m implies !#[trigger] repeats(b, i, e, m) by {}
    } else if b.subrange(k, k + n) == tag {
        assert(repeats(b, i, e, k));
    } else {
        assert(!repeats(b, i, e, k));
        lemma_past_tag(b, i, e, k + 1);
    }
}

proof fn lemma_dollar(b: Seq<u8>, i: int)
    requires
        0 <= i < b.len(),
        b[i] == 36,
    ensures
        match grammar::dollar_quote_end(b, i) {
            Some(j) => i < j <= b.len() && exists|e: int| is_dollar_block(b, i, j, e),
            None => forall|e: int| !#[trigger] is_delimiter(b, i, e),
        },
{
    let e = grammar::tag_end(b, i);
    if i + 2 <= b.len() {
        lemma_tag_run(b, i + 2);
    }
    if grammar::at(b, e, 36) {
        assert(is_delimiter(b, i, e + 1));
        lemma_past_tag(b, i, e + 1, e + 1);
        let j = grammar::past_tag(b, b.subrange(i, e + 1), e + 1);
        assert(is_dollar_block(b, i, j, e + 1));
    } else {
        assert forall|x: int| !#[trigger] is_delimiter(b, i, x) by {
            if is_delimiter(b, i, x) {
                if x > i + 2 {
                    assert(is_word_byte(b[i + 1]));
                    assert(grammar::is_tag_start(b[i + 1]));
                    if e < x - 1 {
                        assert(is_word_byte(b[e]));
                    } else if e > x - 1 {
                        assert(is_word_byte(b[x - 1]));
                    }
                }
            }
        }
    }
}

/// Each step of the lexer takes a piece, or comes to a fault.
proof fn lemma_step(b: Seq<u8>, i: int)
    requires
        0 <= i < b.len(),
    ensures
        match grammar::step(b, i) {
            Step::Text(j) => is_piece(b, Piece::Text(i, j)),
            Step::Escape(brace) => is_piece(b, Piece::Escape(i, i + 2)) && b[i] == brace,
            Step::Unmatched => b[i] == 125 && !two_at(b, i, 125, 125),
            Step::Open => opens_hole(b, i),
        },
{
    assert(b[i] != 36 ==> forall|e: int| !#[trigger] is_delimiter(b, i, e));
    if b[i] == 39 || b[i] == 34 {
        let c = lemma_quoted(b, i + 1, b[i]);
        assert(is_quoted_text(b, i + 1, grammar::quote_end(b, i + 1, b[i]), b[i], c));
    } else if b[i] == 45 && grammar::at(b, i + 1, 45) {
        lemma_line(b, i + 2);
    } else if b[i] == 47 && grammar::at(b, i + 1, 42) {
        lemma_block_comment(b, i);
    } else if b[i] == 36 {
        lemma_dollar(b, i);
    }
}

proof fn lemma_covers_front(b: Seq<u8>, p: Piece, ps: Seq<Piece>, j: int)
    requires
        is_piece(b, p),
        covers(b, ps, piece_end(p), j),
    ensures
        covers(b, seq![p] + ps, piece_start(p), j),
{
    let all = seq![p] + ps;
    assert forall|k: int| 0 <= k < all.len() implies is_piece(b, #[trigger] all[k]) by {
        if k > 0 {
            assert(all[k] == ps[k - 1]);
        }
    }
    assert forall|k: int| 0 < k < all.len() implies piece_start(#[trigger] all[k]) == piece_end(
        all[k - 1],
    ) by {
        assert(all[k] == ps[k - 1]);
        if k > 1 {
            assert(all[k - 1] == ps[k - 2]);
        }
    }
    if ps.len() > 0 {
        assert(all.last() == ps.last());
    }
}

/// Are these the pieces up to the end or the first fault, and is the result what
/// they ask for?
pub open spec fn is_result(
    b: Seq<u8>,
    i: int,
    run: Seq<u8>,
    ps: Seq<Piece>,
    at: int,
    r: Result<Seq<FragmentView>, ParseErrorView>,
) -> bool {
    &&& covers(b, ps, i, at)
    &&& match r {
        Ok(fs) => at == b.len() && lays_out(b, ps, run, fs),
        Err(e) => is_fault(b, at, e),
    }
}

/// One more piece of text, or doubled brace, in front.
proof fn lemma_text_front(
    b: Seq<u8>,
    p: Piece,
    ps: Seq<Piece>,
    at: int,
    run: Seq<u8>,
    r: Result<Seq<FragmentView>, ParseErrorView>,
)
    requires
        is_piece(b, p),
        !(p is Hole),
        is_result(b, piece_end(p), run + piece_text(b, p), ps, at, r),
    ensures
        is_result(b, piece_start(p), run, seq![p] + ps, at, r),
{
    lemma_covers_front(b, p, ps, at);
    assert((seq![p] + ps).drop_first() =~= ps);
}

/// One more placeholder in front.
proof fn lemma_hole_front(
    b: Seq<u8>,
    p: Piece,
    f: FragmentView,
    ps: Seq<Piece>,
    at: int,
    run: Seq<u8>,
    r: Result<Seq<FragmentView>, ParseErrorView>,
)
    requires
        is_piece(b, p),
        is_written_at(b, p, f),
        is_result(b, piece_end(p), seq![], ps, at, r),
    ensures
        is_result(
            b,
            piece_start(p),
            run,
            seq![p] + ps,
            at,
            grammar::prepend(literal_of(run).push(f), r),
        ),
{
    lemma_covers_front(b, p, ps, at);
    assert((seq![p] + ps).drop_first() =~= ps);
    if let Ok(rest) = r {
        let before = literal_of(run);
        let n = before.len() as int;
        let fs = before.push(f) + rest;
        assert(fs.take(n) =~= before);
        assert(fs.skip(n + 1) =~= rest);
        assert(fs[n] == f);
    }
}

/// What a placeholder is read as, or the fault that it has.
proof fn lemma_hole(b: Seq<u8>, i: int)
    requires
        0 <= i < b.len(),
        opens_hole(b, i),
    ensures
        match grammar::placeholder_at(b, i) {
            Ok(p) => is_piece(b, Piece::Hole(i, p.end)) && is_written_at(
                b,
                Piece::Hole(i, p.end),
                FragmentView::Placeholder(p),
            ),
            Err(e) => is_fault(b, i, e),
        },
{
    body_laws::law_body_end(b, i + 1);
    context_laws::law_context(b, i);
    context_laws::law_context(b, i + 1);
    if let Some(end) = grammar::body_end(b, i + 1) {
        let body = decode_utf8(b.subrange(i + 1, end));
        body_laws::law_body(body);
        assert(is_hole(b, i, end + 1));
        if let Ok((ident, kleene)) = grammar::body_meaning(body) {
            assert(body_laws::describes(body, ident, kleene));
        }
    }
}

proof fn lemma_cut(b: Seq<u8>, i: int, run: Seq<u8>) -> (r: (Seq<Piece>, int))
    requires
        0 <= i <= b.len(),
    ensures
        is_result(b, i, run, r.0, r.1, grammar::fragments_from(b, i, run)),
    decreases b.len() - i,
{
    if i == b.len() {
        let none = Seq::<Piece>::empty();
        assert(lays_out(b, none, run, literal_of(run)));
        (none, i)
    } else {
        grammar::lemma_step_advances(b, i);
        lemma_step(b, i);
        match grammar::step(b, i) {
            Step::Text(j) => {
                let (ps, at) = lemma_cut(b, j, run + b.subrange(i, j));
                let r = grammar::fragments_from(b, i, run);
                lemma_text_front(b, Piece::Text(i, j), ps, at, run, r);
                (seq![Piece::Text(i, j)] + ps, at)
            },
            Step::Escape(brace) => {
                assert(run + seq![brace] =~= run.push(brace));
                let (ps, at) = lemma_cut(b, i + 2, run.push(brace));
                let r = grammar::fragments_from(b, i, run);
                lemma_text_front(b, Piece::Escape(i, i + 2), ps, at, run, r);
                (seq![Piece::Escape(i, i + 2)] + ps, at)
            },
            Step::Unmatched => {
                context_laws::law_context(b, i);
                (seq![], i)
            },
            Step::Open => {
                lemma_hole(b, i);
                match grammar::placeholder_at(b, i) {
                    Err(_) => (seq![], i),
                    Ok(p) => {
                        let (ps, at) = lemma_cut(b, p.end, seq![]);
                        let hole = Piece::Hole(i, p.end);
                        let f = FragmentView::Placeholder(p);
                        let rest = grammar::fragments_from(b, p.end, seq![]);
                        lemma_hole_front(b, hole, f, ps, at, run, rest);
                        (seq![hole] + ps, at)
                    },
                }
            },
        }
    }
}

/// Nothing of a SQL text is lost: it is made up of stretches, each of which is
/// text that stays as it is, a doubled brace or a placeholder, and its fragments
/// are its placeholders and, between them, what the stretches there give, one
/// brace for two. A text with a fault is rejected at its first one.
pub proof fn law_cut(sql: Seq<char>)
    ensures
        exists|ps: Seq<Piece>, at: int| #[trigger]
            is_result(encode_utf8(sql), 0, seq![], ps, at, grammar::parse_meaning(sql)),
{
    let (ps, at) = lemma_cut(encode_utf8(sql), 0, seq![]);
    assert(is_result(encode_utf8(sql), 0, seq![], ps, at, grammar::parse_meaning(sql)));
}

} // verus!
