//! What holds of every SQL text that is cut at its placeholders.
use crate::grammar;
use crate::grammar::{FragmentView, IdentView, ParseErrorView, PlaceholderView, Step, Stretch};
use crate::placeholders::Kleene;
use crate::text;
use vstd::prelude::*;
use vstd::utf8::*;

verus! {

// -- Bytes and characters -------------------------------------------------

/// A character beyond ASCII is encoded without ASCII bytes, and an ASCII
/// character as itself.
proof fn lemma_encode_scalar(c: char)
    ensures
        (c as u32) < 0x80 ==> encode_scalar(c as u32) == seq![c as u8],
        (c as u32) >= 0x80 ==> forall|i: int|
            0 <= i < encode_scalar(c as u32).len() ==> #[trigger] encode_scalar(c as u32)[i] >= 0x80,
        encode_scalar(c as u32).len() > 0,
{
    let v = c as u32;
    char_is_scalar(c);
    if v < 0x80 {
        text::lemma_encode_ascii(c as u8);
        assert(seq![(c as u8) as char] =~= seq![c]);
        assert(seq![c].drop_first() =~= seq![]);
        assert(encode_utf8(Seq::<char>::empty()) =~= seq![]);
        assert(encode_utf8(seq![c]) =~= encode_scalar(v));
    } else {
        assert forall|x: u8| #[trigger] (0xC0u8 | x) >= 0x80 by {
            assert((0xC0u8 | x) >= 0x80) by (bit_vector);
        }
        assert forall|x: u8| #[trigger] (0xE0u8 | x) >= 0x80 by {
            assert((0xE0u8 | x) >= 0x80) by (bit_vector);
        }
        assert forall|x: u8| #[trigger] (0xF0u8 | x) >= 0x80 by {
            assert((0xF0u8 | x) >= 0x80) by (bit_vector);
        }
        assert forall|x: u8| #[trigger] (0x80u8 | x) >= 0x80 by {
            assert((0x80u8 | x) >= 0x80) by (bit_vector);
        }
    }
}

/// A character is an ASCII character just where it is the same number.
proof fn lemma_ascii_cast(d: char, c: u8)
    requires
        c < 0x80,
    ensures
        (d as u32) < 0x80 ==> (d as u8 == c <==> d == c as char),
        (d as u32) >= 0x80 ==> d != c as char,
{
    let v: u32 = d as u32;
    char_u32_cast(d, v);
    assert(v as int == d as int);
    assert((c as char) as int == c as int);
    if v < 0x80 {
        assert(d as u8 as int == d as int);
    }
}

/// A text without an ASCII character is encoded without its byte.
proof fn lemma_absent_byte(s: Seq<char>, c: u8)
    requires
        c < 0x80,
        forall|i: int| 0 <= i < s.len() ==> #[trigger] s[i] != c as char,
    ensures
        forall|i: int| 0 <= i < encode_utf8(s).len() ==> #[trigger] encode_utf8(s)[i] != c,
    decreases s.len(),
{
    if s.len() > 0 {
        lemma_encode_scalar(s[0]);
        let rest = s.drop_first();
        assert forall|i: int| 0 <= i < rest.len() implies #[trigger] rest[i] != c as char by {
            assert(rest[i] == s[i + 1]);
        }
        lemma_absent_byte(rest, c);
        let head = encode_scalar(s[0] as u32);
        lemma_ascii_cast(s[0], c);
        assert forall|i: int| 0 <= i < encode_utf8(s).len() implies #[trigger] encode_utf8(s)[i]
            != c by {
            if i < head.len() {
                assert(encode_utf8(s)[i] == head[i]);
            } else {
                assert(encode_utf8(s)[i] == encode_utf8(rest)[i - head.len()]);
            }
        }
    }
}

/// Only the empty text has no bytes.
proof fn lemma_decoded_len(b: Seq<u8>)
    requires
        valid_utf8(b),
    ensures
        decode_utf8(b).len() > 0 <==> b.len() > 0,
{
}

// -- Where placeholders stand ---------------------------------------------

/// Each of the placeholders lies in the text from `lo` on, from a `{` to a `}`,
/// none overlaps another, and they come in the order in which they stand.
pub open spec fn placeholders_in_place(fragments: Seq<FragmentView>, b: Seq<u8>, lo: int) -> bool {
    &&& forall|k: int|
        0 <= k < fragments.len() ==> ((#[trigger] fragments[k]) matches FragmentView::Placeholder(p)
            ==> lo <= p.start && p.start + 1 < p.end <= b.len() && b[p.start] == 123 && b[p.end - 1]
            == 125)
    &&& forall|j: int, k: int|
        0 <= j < k < fragments.len() && (#[trigger] fragments[j]) is Placeholder && (
        #[trigger] fragments[k]) is Placeholder ==> fragments[j]->Placeholder_0.end
            <= fragments[k]->Placeholder_0.start
}

/// Each index of a placeholder fits 16 bits, and each name is an identifier.
pub open spec fn idents_valid(fragments: Seq<FragmentView>) -> bool {
    forall|k: int|
        0 <= k < fragments.len() ==> ((#[trigger] fragments[k]) matches FragmentView::Placeholder(p)
            ==> match p.ident {
            IdentView::Positional(i) => i <= u16::MAX,
            IdentView::Named(name) => grammar::is_ident(name),
            IdentView::Expr(_) => true,
        })
}

/// No literal is empty, and between two literals there is a placeholder.
pub open spec fn literals_maximal(fragments: Seq<FragmentView>) -> bool {
    &&& forall|k: int|
        0 <= k < fragments.len() ==> ((#[trigger] fragments[k]) matches FragmentView::Literal(s)
            ==> s.len() > 0)
    &&& forall|j: int, k: int|
        0 <= j < k < fragments.len() && k == j + 1 ==> (#[trigger] fragments[j]) is Placeholder || (
        #[trigger] fragments[k]) is Placeholder
}

/// Does the error lie within the text, at the byte that is at fault?
pub open spec fn is_at_fault(b: Seq<u8>, e: ParseErrorView) -> bool {
    let at = e.byte_position;
    &&& 0 <= at < b.len()
    &&& is_char_boundary(b, at)
    &&& e == grammar::error_at(b, at, e.message)
    &&& {
        ||| b[at] == 125 && e.message == "unmatched `}` in SQL; use `}}` for a literal `}`"@
        ||| b[at] == 123 && grammar::body_end(b, at + 1) is None && e.message
            == "unterminated `{` in SQL; expected `}`"@
        ||| 0 < at && b[at - 1] == 123 && (grammar::body_end(b, at) matches Some(end)
            && grammar::body_meaning(decode_utf8(b.subrange(at, end))) == Err::<
            (IdentView, Option<Kleene>),
            _,
        >(e.message))
    }
}

proof fn lemma_fragments(b: Seq<u8>, i: int, current: Seq<u8>, run_start: int)
    requires
        valid_utf8(b),
        valid_utf8(current),
        0 <= run_start <= i <= b.len(),
        is_char_boundary(b, run_start),
    ensures
        grammar::fragments_from(b, i, current + b.subrange(run_start, i)) matches Ok(fragments)
            ==> placeholders_in_place(fragments, b, i) && idents_valid(fragments)
            && literals_maximal(fragments),
        grammar::fragments_from(b, i, current + b.subrange(run_start, i)) matches Err(e) ==> i
            <= e.byte_position && is_at_fault(b, e),
    decreases b.len() - i,
{
    let text = current + b.subrange(run_start, i);
    if i == b.len() {
        is_char_boundary_start_end_of_seq(b);
        lemma_run(b, current, run_start, i);
    } else {
        grammar::lemma_step_advances(b, i);
        match grammar::step(b, i) {
            Step::Text(end) => {
                assert(text + b.subrange(i, end) =~= current + b.subrange(run_start, end));
                lemma_fragments(b, end, current, run_start);
            },
            Step::Escape(brace) => {
                text::lemma_ascii_boundaries(b, i);
                text::lemma_ascii_boundaries(b, i + 1);
                lemma_run(b, current, run_start, i);
                text::lemma_encode_ascii(brace);
                encode_utf8_valid_utf8(seq![brace as char]);
                valid_utf8_concat(text, seq![brace]);
                assert(text + seq![brace] =~= text.push(brace));
                assert(text.push(brace) + b.subrange(i + 2, i + 2) =~= text.push(brace));
                lemma_fragments(b, i + 2, text.push(brace), i + 2);
            },
            Step::Unmatched => {
                text::lemma_ascii_boundaries(b, i);
            },
            Step::Open => {
                text::lemma_ascii_boundaries(b, i);
                grammar::lemma_body_end(b, i + 1);
                lemma_run(b, current, run_start, i);
                if let Ok(p) = grammar::placeholder_at(b, i) {
                    text::lemma_ascii_boundaries(b, p.end - 1);
                    assert(Seq::<u8>::empty() + b.subrange(p.end, p.end) =~= seq![]);
                    lemma_fragments(b, p.end, seq![], p.end);
                    if let Ok(rest) = grammar::fragments_from(b, p.end, seq![]) {
                        let first = grammar::flush(text).push(FragmentView::Placeholder(p));
                        let all = first + rest;
                        let n = first.len() as int;
                        assert(first[n - 1] == FragmentView::Placeholder(p));
                        assert forall|k: int| n <= k < all.len() implies #[trigger] all[k] == rest[k
                            - n] by {}
                        assert forall|k: int| 0 <= k < n implies #[trigger] all[k] == first[k] by {}
                        assert(placeholders_in_place(all, b, i));
                        assert(idents_valid(all));
                        assert(literals_maximal(all));
                    }
                }
            },
        }
    }
}

/// What is read between two boundaries is text.
proof fn lemma_run(b: Seq<u8>, current: Seq<u8>, run_start: int, i: int)
    requires
        valid_utf8(b),
        valid_utf8(current),
        0 <= run_start <= i <= b.len(),
        is_char_boundary(b, run_start),
        is_char_boundary(b, i),
    ensures
        valid_utf8(current + b.subrange(run_start, i)),
{
    text::lemma_boundary_in_prefix(b, run_start, i);
    let p = b.subrange(0, i);
    valid_utf8_split(p, run_start);
    assert(p.subrange(run_start, p.len() as int) =~= b.subrange(run_start, i));
    valid_utf8_concat(current, b.subrange(run_start, i));
}

/// Placeholders stand in the text from a `{` to a `}`, do not overlap, and come
/// in the order in which they stand; their indices fit 16 bits, and their names
/// are identifiers.
pub proof fn law_placeholders_in_place(sql: Seq<char>)
    ensures
        grammar::parse_meaning(sql) matches Ok(fragments) ==> placeholders_in_place(
            fragments,
            encode_utf8(sql),
            0,
        ) && idents_valid(fragments),
{
    lemma_whole(sql);
}

/// No literal fragment is empty, and no two stand side by side.
pub proof fn law_literals_maximal(sql: Seq<char>)
    ensures
        grammar::parse_meaning(sql) matches Ok(fragments) ==> literals_maximal(fragments),
{
    lemma_whole(sql);
}

/// An error lies within the text, at the start of a character: at a `}` that
/// nothing opened, at a `{` that nothing closes, or just past the `{` of a
/// placeholder whose body its message rejects.
pub proof fn law_error_position(sql: Seq<char>)
    ensures
        grammar::parse_meaning(sql) matches Err(e) ==> is_at_fault(encode_utf8(sql), e),
{
    lemma_whole(sql);
}

proof fn lemma_whole(sql: Seq<char>)
    ensures
        grammar::parse_meaning(sql) matches Ok(fragments) ==> placeholders_in_place(
            fragments,
            encode_utf8(sql),
            0,
        ) && idents_valid(fragments) && literals_maximal(fragments),
        grammar::parse_meaning(sql) matches Err(e) ==> is_at_fault(encode_utf8(sql), e),
{
    let b = encode_utf8(sql);
    encode_utf8_valid_utf8(sql);
    is_char_boundary_start_end_of_seq(b);
    assert(Seq::<u8>::empty() + b.subrange(0, 0) =~= seq![]);
    lemma_fragments(b, 0, seq![], 0);
}

// -- Text that passes through ---------------------------------------------

/// The fragments of a text without placeholders.
pub open spec fn one_literal(s: Seq<char>) -> Seq<FragmentView> {
    if s.len() == 0 {
        seq![]
    } else {
        seq![FragmentView::Literal(s)]
    }
}

/// The bytes of a text make one literal of it.
proof fn lemma_flush(s: Seq<char>)
    ensures
        grammar::flush(encode_utf8(s)) == one_literal(s),
{
    encode_utf8_decode_utf8(s);
    encode_utf8_valid_utf8(s);
    lemma_decoded_len(encode_utf8(s));
    assert(grammar::flush(encode_utf8(s)) =~= one_literal(s));
}

proof fn lemma_without_braces(b: Seq<u8>, i: int, text: Seq<u8>)
    requires
        0 <= i <= b.len(),
        forall|k: int| i <= k < b.len() ==> #[trigger] b[k] != 123 && b[k] != 125,
    ensures
        grammar::fragments_from(b, i, text) == Ok::<_, ParseErrorView>(
            grammar::flush(text + b.skip(i)),
        ),
    decreases b.len() - i,
{
    if i == b.len() {
        assert(text + b.skip(i) =~= text);
    } else {
        grammar::lemma_step_advances(b, i);
        if let Step::Text(end) = grammar::step(b, i) {
            lemma_without_braces(b, end, text + b.subrange(i, end));
            assert(text + b.subrange(i, end) + b.skip(end) =~= text + b.skip(i));
        } else {
            assert(b[i] == 123 || b[i] == 125);
        }
    }
}

/// SQL without braces has no placeholders and stays as it is: queries with
/// native placeholders are not affected.
pub proof fn law_text_without_braces(sql: Seq<char>)
    requires
        forall|i: int| 0 <= i < sql.len() ==> #[trigger] sql[i] != '{' && sql[i] != '}',
    ensures
        grammar::parse_meaning(sql) == Ok::<_, ParseErrorView>(one_literal(sql)),
        !grammar::has_placeholder(one_literal(sql)),
{
    let b = encode_utf8(sql);
    assert('{' == 123u8 as char && '}' == 125u8 as char);
    lemma_absent_byte(sql, 123);
    lemma_absent_byte(sql, 125);
    lemma_without_braces(b, 0, seq![]);
    assert(Seq::<u8>::empty() + b.skip(0) =~= b);
    lemma_flush(sql);
}

/// A text that is one region without placeholder syntax (a string literal, a
/// comment or a dollar-quoted block) stays as it is, whatever braces are in it.
pub proof fn law_region_passes_through(sql: Seq<char>)
    requires
        sql.len() > 0,
        grammar::step(encode_utf8(sql), 0) == Step::Text(encode_utf8(sql).len() as int),
    ensures
        grammar::parse_meaning(sql) == Ok::<_, ParseErrorView>(seq![FragmentView::Literal(sql)]),
{
    let b = encode_utf8(sql);
    lemma_flush(sql);
    encode_utf8_first_scalar(sql);
    assert(b.len() > 0);
    assert(Seq::<u8>::empty() + b.subrange(0, b.len() as int) =~= b);
    reveal_with_fuel(grammar::fragments_from, 2);
}

/// The text with every `quote` in it doubled.
pub open spec fn doubled(s: Seq<char>, quote: char) -> Seq<char>
    decreases s.len(),
{
    if s.len() == 0 {
        seq![]
    } else if s[0] == quote {
        seq![quote, quote] + doubled(s.drop_first(), quote)
    } else {
        seq![s[0]] + doubled(s.drop_first(), quote)
    }
}

proof fn lemma_quote_end_over(b: Seq<u8>, i: int, w: int, quote: u8)
    requires
        0 <= i,
        0 <= w,
        i + w <= b.len(),
        forall|k: int| i <= k < i + w ==> #[trigger] b[k] != quote,
    ensures
        grammar::quote_end(b, i, quote) == grammar::quote_end(b, i + w, quote),
    decreases w,
{
    if w > 0 {
        lemma_quote_end_over(b, i + 1, w - 1, quote);
    }
}

/// The encoding of one more character in front.
proof fn lemma_encode_cons(c: char, s: Seq<char>)
    ensures
        encode_utf8(seq![c] + s) == encode_scalar(c as u32) + encode_utf8(s),
{
    assert((seq![c] + s).drop_first() =~= s);
}

proof fn lemma_quoted(b: Seq<u8>, i: int, s: Seq<char>, quote: char)
    requires
        0 <= i <= b.len(),
        quote == '\'' || quote == '"',
        b.skip(i) == encode_utf8(doubled(s, quote)).push(quote as u8),
    ensures
        grammar::quote_end(b, i, quote as u8) == b.len(),
    decreases s.len(),
{
    let q = quote as u8;
    if s.len() == 0 {
        assert(b.skip(i) =~= seq![q]);
        assert(b.skip(i)[0] == b[i]);
    } else {
        let rest = s.drop_first();
        let tail = encode_utf8(doubled(rest, quote)).push(q);
        let head = encode_scalar(s[0] as u32);
        lemma_encode_scalar(s[0]);
        if s[0] == quote {
            assert(seq![quote, quote] + doubled(rest, quote) =~= seq![quote] + (seq![quote]
                + doubled(rest, quote)));
            lemma_encode_cons(quote, seq![quote] + doubled(rest, quote));
            lemma_encode_cons(quote, doubled(rest, quote));
            assert(head == seq![q]);
            assert(b.skip(i) =~= seq![q, q] + tail);
            assert(b.skip(i)[0] == b[i] && b.skip(i)[1] == b[i + 1]);
            assert(b.skip(i + 2) =~= b.skip(i).skip(2));
            assert(b.skip(i + 2) =~= tail);
            lemma_quoted(b, i + 2, rest, quote);
        } else {
            lemma_encode_cons(s[0], doubled(rest, quote));
            let w = head.len() as int;
            assert(b.skip(i) =~= head + tail);
            lemma_absent_byte(seq![s[0]], q);
            assert(seq![s[0]] + Seq::<char>::empty() =~= seq![s[0]]);
            lemma_encode_cons(s[0], seq![]);
            assert(encode_utf8(Seq::<char>::empty()) =~= seq![]);
            assert(encode_utf8(seq![s[0]]) =~= head);
            assert forall|k: int| i <= k < i + w implies #[trigger] b[k] != q by {
                assert(b.skip(i)[k - i] == b[k]);
                assert(b.skip(i)[k - i] == head[k - i]);
            }
            lemma_quote_end_over(b, i, w, q);
            assert(b.skip(i + w) =~= b.skip(i).skip(w));
            assert(b.skip(i + w) =~= tail);
            lemma_quoted(b, i + w, rest, quote);
        }
    }
}

/// Any text at all passes through unchanged when it is written as a SQL string
/// literal or a quoted identifier, with the quotes in it doubled.
pub proof fn law_quoted_text_passes_through(s: Seq<char>, quote: char)
    requires
        quote == '\'' || quote == '"',
    ensures
        grammar::parse_meaning((seq![quote] + doubled(s, quote)).push(quote)) == Ok::<
            _,
            ParseErrorView,
        >(seq![FragmentView::Literal((seq![quote] + doubled(s, quote)).push(quote))]),
{
    let sql = (seq![quote] + doubled(s, quote)).push(quote);
    let b = encode_utf8(sql);
    let q = quote as u8;
    assert(sql =~= seq![quote] + (doubled(s, quote) + seq![quote]));
    lemma_encode_cons(quote, doubled(s, quote) + seq![quote]);
    text::lemma_encode_concat(doubled(s, quote), seq![quote]);
    text::lemma_encode_ascii(q);
    assert(seq![q as char] =~= seq![quote]);
    lemma_encode_scalar(quote);
    assert(b.skip(1) =~= encode_utf8(doubled(s, quote)).push(q));
    lemma_quoted(b, 1, s, quote);
    assert(b[0] == q);
    law_region_passes_through(sql);
}

proof fn lemma_line_end_over(b: Seq<u8>, i: int)
    requires
        0 <= i <= b.len(),
        forall|k: int| i <= k < b.len() ==> #[trigger] b[k] != 10,
    ensures
        grammar::line_end(b, i) == b.len(),
    decreases b.len() - i,
{
    if i < b.len() {
        lemma_line_end_over(b, i + 1);
    }
}

/// A line comment passes through unchanged, whatever braces are in it.
pub proof fn law_line_comment_passes_through(s: Seq<char>)
    requires
        forall|i: int| 0 <= i < s.len() ==> #[trigger] s[i] != '\n',
    ensures
        grammar::parse_meaning(seq!['-', '-'] + s) == Ok::<_, ParseErrorView>(
            seq![FragmentView::Literal(seq!['-', '-'] + s)],
        ),
{
    let sql = seq!['-', '-'] + s;
    let b = encode_utf8(sql);
    assert(sql =~= seq!['-'] + (seq!['-'] + s));
    lemma_encode_cons('-', seq!['-'] + s);
    lemma_encode_cons('-', s);
    lemma_encode_scalar('-');
    assert(b =~= seq![45u8, 45u8] + encode_utf8(s));
    assert('\n' == 10u8 as char);
    lemma_absent_byte(s, 10);
    assert forall|k: int| 2 <= k < b.len() implies #[trigger] b[k] != 10 by {
        assert(b[k] == encode_utf8(s)[k - 2]);
    }
    lemma_line_end_over(b, 2);
    law_region_passes_through(sql);
}

/// `c` and `d`, `n` times.
pub open spec fn repeated(c: char, d: char, n: nat) -> Seq<char>
    decreases n,
{
    if n == 0 {
        seq![]
    } else {
        seq![c, d] + repeated(c, d, (n - 1) as nat)
    }
}

/// Two ASCII characters are encoded as themselves, as often as they come.
proof fn lemma_encode_repeated(c: char, d: char, n: nat)
    requires
        (c as u32) < 0x80,
        (d as u32) < 0x80,
    ensures
        encode_utf8(repeated(c, d, n)).len() == 2 * n,
        forall|k: int|
            0 <= k < 2 * n ==> #[trigger] encode_utf8(repeated(c, d, n))[k] == if k % 2 == 0 {
                c as u8
            } else {
                d as u8
            },
    decreases n,
{
    if n > 0 {
        let rest = repeated(c, d, (n - 1) as nat);
        lemma_encode_repeated(c, d, (n - 1) as nat);
        assert(repeated(c, d, n) =~= seq![c] + (seq![d] + rest));
        lemma_encode_cons(c, seq![d] + rest);
        lemma_encode_cons(d, rest);
        lemma_encode_scalar(c);
        lemma_encode_scalar(d);
        assert(encode_utf8(repeated(c, d, n)) =~= seq![c as u8, d as u8] + encode_utf8(rest));
    } else {
        assert(encode_utf8(repeated(c, d, n)) =~= seq![]);
    }
}

proof fn lemma_comment_opens(b: Seq<u8>, k: nat, n: nat)
    requires
        1 <= k <= n,
        2 * n <= b.len(),
        forall|j: int| 0 <= j < 2 * n ==> #[trigger] b[j] == if j % 2 == 0 {
            47u8
        } else {
            42u8
        },
    ensures
        grammar::block_comment_end(b, 2 * k as int, k) == grammar::block_comment_end(b, 2 * n as int, n),
    decreases n - k,
{
    if k < n {
        assert(b[2 * k as int] == 47 && b[2 * k as int + 1] == 42);
        lemma_comment_opens(b, k + 1, n);
    }
}

proof fn lemma_comment_body(b: Seq<u8>, i: int, end: int, depth: nat)
    requires
        0 <= i <= end <= b.len(),
        depth > 0,
        forall|j: int| i <= j < end ==> #[trigger] b[j] != 47 && b[j] != 42,
    ensures
        grammar::block_comment_end(b, i, depth) == grammar::block_comment_end(b, end, depth),
    decreases end - i,
{
    if i < end {
        lemma_comment_body(b, i + 1, end, depth);
    }
}

proof fn lemma_comment_closes(b: Seq<u8>, i: int, depth: nat)
    requires
        0 <= i,
        i + 2 * depth == b.len(),
        forall|j: int| i <= j < b.len() ==> #[trigger] b[j] == if (j - i) % 2 == 0 {
            42u8
        } else {
            47u8
        },
    ensures
        grammar::block_comment_end(b, i, depth) == b.len(),
    decreases depth,
{
    if depth > 0 {
        assert(b[i] == 42 && b[i + 1] == 47);
        assert forall|j: int| i + 2 <= j < b.len() implies #[trigger] b[j] == if (j - (i + 2)) % 2
            == 0 {
            42u8
        } else {
            47u8
        } by {
            assert((j - (i + 2)) % 2 == (j - i) % 2);
        }
        lemma_comment_closes(b, i + 2, (depth - 1) as nat);
    }
}

/// A block comment, nested however deep, passes through unchanged, whatever
/// braces are in it.
pub proof fn law_block_comment_passes_through(s: Seq<char>, depth: nat)
    requires
        depth > 0,
        forall|i: int| 0 <= i < s.len() ==> #[trigger] s[i] != '*' && s[i] != '/',
    ensures
        grammar::parse_meaning(repeated('/', '*', depth) + s + repeated('*', '/', depth))
            == Ok::<_, ParseErrorView>(
            seq![
                FragmentView::Literal(
                    repeated('/', '*', depth) + s + repeated('*', '/', depth),
                ),
            ],
        ),
{
    let opens = repeated('/', '*', depth);
    let closes = repeated('*', '/', depth);
    let sql = opens + s + closes;
    let b = encode_utf8(sql);
    let n = 2 * depth as int;
    let m = encode_utf8(s).len() as int;
    text::lemma_encode_concat(opens + s, closes);
    text::lemma_encode_concat(opens, s);
    lemma_encode_repeated('/', '*', depth);
    lemma_encode_repeated('*', '/', depth);
    assert('*' == 42u8 as char && '/' == 47u8 as char);
    lemma_absent_byte(s, 42);
    lemma_absent_byte(s, 47);
    assert(b.len() == n + m + n);
    assert forall|j: int| 0 <= j < n implies #[trigger] b[j] == if j % 2 == 0 {
        47u8
    } else {
        42u8
    } by {
        assert(b[j] == encode_utf8(opens)[j]);
    }
    assert forall|j: int| n <= j < n + m implies #[trigger] b[j] != 47 && b[j] != 42 by {
        assert(b[j] == encode_utf8(s)[j - n]);
    }
    assert forall|j: int| n + m <= j < b.len() implies #[trigger] b[j] == if (j - (n + m)) % 2 == 0 {
        42u8
    } else {
        47u8
    } by {
        assert(b[j] == encode_utf8(closes)[j - (n + m)]);
    }
    lemma_comment_opens(b, 1, depth);
    lemma_comment_body(b, n, n + m, depth);
    lemma_comment_closes(b, n + m, depth);
    assert(b[0] == 47 && b[1] == 42);
    assert(sql.len() > 0) by {
        assert(opens.len() > 0);
    }
    law_region_passes_through(sql);
}

/// Does `d` nowhere follow `c` directly?
pub open spec fn has_no_pair(s: Seq<char>, c: char, d: char) -> bool {
    forall|i: int, j: int|
        0 <= i < j < s.len() && j == i + 1 ==> !(#[trigger] s[i] == c && #[trigger] s[j] == d)
}

/// Two ASCII characters that nowhere follow each other do so nowhere in the
/// encoding.
proof fn lemma_no_pair(s: Seq<char>, c: u8, d: u8)
    requires
        c < 0x80,
        d < 0x80,
        has_no_pair(s, c as char, d as char),
    ensures
        forall|i: int|
            0 <= i < encode_utf8(s).len() - 1 ==> !(#[trigger] encode_utf8(s)[i] == c
                && encode_utf8(s)[i + 1] == d),
    decreases s.len(),
{
    if s.len() > 0 {
        let rest = s.drop_first();
        let head = encode_scalar(s[0] as u32);
        let b = encode_utf8(s);
        lemma_encode_scalar(s[0]);
        lemma_ascii_cast(s[0], c);
        assert(seq![s[0]] + rest =~= s);
        lemma_encode_cons(s[0], rest);
        assert forall|k: int| 0 <= k < rest.len() implies #[trigger] rest[k] == s[k + 1] by {}
        lemma_no_pair(rest, c, d);
        if rest.len() > 0 {
            let tail = rest.drop_first();
            assert(seq![rest[0]] + tail =~= rest);
            lemma_encode_cons(rest[0], tail);
            lemma_encode_scalar(rest[0]);
            lemma_ascii_cast(rest[0], d);
            assert(s[1] == rest[0]);
            assert(encode_utf8(rest)[0] == encode_scalar(rest[0] as u32)[0]);
        } else {
            assert(encode_utf8(rest) =~= seq![]);
        }
        assert forall|i: int| 0 <= i < b.len() - 1 implies !(#[trigger] b[i] == c && b[i + 1]
            == d) by {
            if i < head.len() {
                assert(b[i] == head[i]);
                if i + 1 >= head.len() {
                    assert(b[i + 1] == encode_utf8(rest)[0]);
                }
            } else {
                assert(b[i] == encode_utf8(rest)[i - head.len()]);
                assert(b[i + 1] == encode_utf8(rest)[i + 1 - head.len()]);
            }
        }
    }
}

proof fn lemma_comment_text(b: Seq<u8>, i: int, end: int, depth: nat)
    requires
        0 <= i <= end <= b.len(),
        depth > 0,
        forall|k: int|
            i <= k < end ==> !(#[trigger] b[k] == 47 && grammar::at(b, k + 1, 42)) && !(b[k] == 42
                && grammar::at(b, k + 1, 47)),
    ensures
        grammar::block_comment_end(b, i, depth) == grammar::block_comment_end(b, end, depth),
    decreases end - i,
{
    if i < end {
        assert(!(b[i] == 47 && grammar::at(b, i + 1, 42)));
        lemma_comment_text(b, i + 1, end, depth);
    }
}

/// A block comment is closed by `*/` and by nothing else: asterisks and slashes
/// that stand alone in it, and braces, pass through unchanged.
pub proof fn law_only_its_end_closes_a_comment(s: Seq<char>)
    requires
        has_no_pair(s, '/', '*'),
        has_no_pair(s, '*', '/'),
        s.len() > 0 ==> s.last() != '/',
    ensures
        grammar::parse_meaning(seq!['/', '*'] + s + seq!['*', '/']) == Ok::<_, ParseErrorView>(
            seq![FragmentView::Literal(seq!['/', '*'] + s + seq!['*', '/'])],
        ),
{
    let sql = seq!['/', '*'] + s + seq!['*', '/'];
    let b = encode_utf8(sql);
    let y = encode_utf8(s);
    let n = y.len() as int;
    text::lemma_encode_concat(seq!['/', '*'] + s, seq!['*', '/']);
    text::lemma_encode_concat(seq!['/', '*'], s);
    assert(is_ascii_chars(seq!['/', '*']) && is_ascii_chars(seq!['*', '/']));
    is_ascii_chars_encode_utf8(seq!['/', '*']);
    is_ascii_chars_encode_utf8(seq!['*', '/']);
    assert(encode_utf8(seq!['/', '*']) =~= seq![47u8, 42u8]);
    assert(encode_utf8(seq!['*', '/']) =~= seq![42u8, 47u8]);
    assert(b =~= seq![47u8, 42u8] + y + seq![42u8, 47u8]);
    assert('*' == 42u8 as char && '/' == 47u8 as char);
    lemma_no_pair(s, 47, 42);
    lemma_no_pair(s, 42, 47);
    if s.len() > 0 {
        let front = s.drop_last();
        assert(s =~= front + seq![s.last()]);
        text::lemma_encode_concat(front, seq![s.last()]);
        assert(seq![s.last()] =~= seq![s.last()] + Seq::<char>::empty());
        lemma_encode_cons(s.last(), seq![]);
        assert(encode_utf8(Seq::<char>::empty()) =~= seq![]);
        lemma_encode_scalar(s.last());
        lemma_ascii_cast(s.last(), 47);
        let w = encode_scalar(s.last() as u32);
        assert(y =~= encode_utf8(front) + w);
        assert(y.last() == w.last());
    }
    assert forall|k: int| 2 <= k < n + 2 implies !(#[trigger] b[k] == 47 && grammar::at(
        b,
        k + 1,
        42,
    )) && !(b[k] == 42 && grammar::at(b, k + 1, 47)) by {
        assert(b[k] == y[k - 2]);
        if k + 1 < n + 2 {
            assert(b[k + 1] == y[k + 1 - 2]);
        } else {
            assert(b[k + 1] == 42);
            assert(b[k] == y.last());
        }
    }
    lemma_comment_text(b, 2, n + 2, 1);
    assert(b[0] == 47 && b[1] == 42 && b[n + 2] == 42 && b[n + 3] == 47);
    assert(grammar::block_comment_end(b, n + 4, 0) == n + 4);
    assert(grammar::block_comment_end(b, n + 2, 1) == n + 4);
    law_region_passes_through(sql);
}

/// The tag of a dollar-quoted block: empty, or an identifier.
pub open spec fn is_tag(tag: Seq<char>) -> bool {
    tag.len() == 0 || grammar::is_ident(tag)
}

proof fn lemma_tag_bytes(tag: Seq<char>)
    requires
        is_tag(tag),
    ensures
        encode_utf8(tag).len() == tag.len(),
        forall|i: int|
            0 <= i < tag.len() ==> grammar::is_tag_byte(#[trigger] encode_utf8(tag)[i]),
        tag.len() > 0 ==> grammar::is_tag_start(encode_utf8(tag)[0]),
{
    assert forall|i: int| 0 <= i < tag.len() implies (#[trigger] tag[i] as u32) < 0x80 by {}
    assert(is_ascii_chars(tag));
    is_ascii_chars_encode_utf8(tag);
}

proof fn lemma_tag_run(b: Seq<u8>, i: int, end: int)
    requires
        0 <= i <= end < b.len(),
        forall|k: int| i <= k < end ==> grammar::is_tag_byte(#[trigger] b[k]),
        b[end] == 36,
    ensures
        grammar::tag_run_end(b, i) == end,
    decreases end - i,
{
    if i < end {
        lemma_tag_run(b, i + 1, end);
    }
}

proof fn lemma_past_tag_over(b: Seq<u8>, tag: Seq<u8>, i: int, at: int)
    requires
        0 <= i <= at,
        tag.len() > 0,
        at + tag.len() == b.len(),
        forall|k: int| i <= k < at ==> #[trigger] b[k] != tag[0],
        b.subrange(at, b.len() as int) == tag,
    ensures
        grammar::past_tag(b, tag, i) == b.len(),
    decreases at - i,
{
    if i < at {
        assert(b.subrange(i, i + tag.len())[0] == b[i]);
        lemma_past_tag_over(b, tag, i + 1, at);
    }
}

/// A dollar-quoted block passes through unchanged, whatever braces are in it.
pub proof fn law_dollar_quote_passes_through(tag: Seq<char>, s: Seq<char>)
    requires
        is_tag(tag),
        forall|i: int| 0 <= i < s.len() ==> #[trigger] s[i] != '$',
    ensures
        ({
            let delimiter = (seq!['$'] + tag).push('$');
            grammar::parse_meaning(delimiter + s + delimiter) == Ok::<_, ParseErrorView>(
                seq![FragmentView::Literal(delimiter + s + delimiter)],
            )
        }),
{
    let delimiter = (seq!['$'] + tag).push('$');
    let d = encode_utf8(delimiter);
    let sql = delimiter + s + delimiter;
    let b = encode_utf8(sql);
    let n = tag.len() as int;
    let m = encode_utf8(s).len() as int;
    text::lemma_encode_concat(delimiter + s, delimiter);
    text::lemma_encode_concat(delimiter, s);
    assert(delimiter =~= seq!['$'] + (tag + seq!['$']));
    lemma_encode_cons('$', tag + seq!['$']);
    text::lemma_encode_concat(tag, seq!['$']);
    lemma_encode_scalar('$');
    text::lemma_encode_ascii(36);
    assert(seq![36u8 as char] =~= seq!['$']);
    lemma_tag_bytes(tag);
    assert(d =~= (seq![36u8] + encode_utf8(tag)).push(36));
    assert(b =~= d + encode_utf8(s) + d);
    assert('$' == 36u8 as char);
    lemma_absent_byte(s, 36);
    assert(b[0] == 36 && b[n + 1] == 36);
    if n > 0 {
        assert(b[1] == encode_utf8(tag)[0]);
        assert forall|k: int| 2 <= k < n + 1 implies grammar::is_tag_byte(#[trigger] b[k]) by {
            assert(b[k] == encode_utf8(tag)[k - 1]);
        }
        lemma_tag_run(b, 2, n + 1);
    } else {
        assert(!grammar::is_tag_start(b[1]));
    }
    assert(grammar::tag_end(b, 0) == n + 1);
    assert(b.subrange(0, n + 2) =~= d);
    let at = n + 2 + m;
    assert forall|k: int| n + 2 <= k < at implies #[trigger] b[k] != d[0] by {
        assert(b[k] == encode_utf8(s)[k - (n + 2)]);
    }
    assert(b.subrange(at, b.len() as int) =~= d);
    lemma_past_tag_over(b, d, n + 2, at);
    law_region_passes_through(sql);
}

// -- Escaped braces -------------------------------------------------------

/// The text with every brace in it doubled.
pub open spec fn escaped(s: Seq<char>) -> Seq<char>
    decreases s.len(),
{
    if s.len() == 0 {
        seq![]
    } else if s[0] == '{' || s[0] == '}' {
        seq![s[0], s[0]] + escaped(s.drop_first())
    } else {
        seq![s[0]] + escaped(s.drop_first())
    }
}

/// Text in which no string literal, comment or dollar-quoted block begins.
pub open spec fn is_plain(s: Seq<char>) -> bool {
    &&& forall|i: int|
        0 <= i < s.len() ==> #[trigger] s[i] != '\'' && s[i] != '"' && s[i] != '$'
    &&& forall|i: int, j: int|
        0 <= i < j < s.len() && j == i + 1 ==> !(#[trigger] s[i] == '-' && #[trigger] s[j] == '-')
            && !(s[i] == '/' && s[j] == '*')
}

/// A byte beyond ASCII is plain text.
proof fn lemma_wide_bytes(b: Seq<u8>, i: int, w: int, text: Seq<u8>)
    requires
        0 <= i,
        0 <= w,
        i + w <= b.len(),
        forall|k: int| i <= k < i + w ==> #[trigger] b[k] >= 0x80,
    ensures
        grammar::fragments_from(b, i, text) == grammar::fragments_from(
            b,
            i + w,
            text + b.subrange(i, i + w),
        ),
    decreases w,
{
    if w == 0 {
        assert(text + b.subrange(i, i) =~= text);
    } else {
        assert(b[i] >= 0x80);
        assert(grammar::step(b, i) == Step::Text(i + 1));
        lemma_wide_bytes(b, i + 1, w - 1, text + b.subrange(i, i + 1));
        assert(text + b.subrange(i, i + 1) + b.subrange(i + 1, i + w) =~= text + b.subrange(
            i,
            i + w,
        ));
    }
}

/// The first byte of an escaped text is that of the text.
proof fn lemma_escaped_first(s: Seq<char>, c: u8)
    requires
        s.len() > 0,
        c < 0x80,
    ensures
        encode_utf8(escaped(s)).len() > 0,
        encode_utf8(escaped(s))[0] == c <==> s[0] == c as char,
{
    let tail = escaped(s).drop_first();
    assert(escaped(s) =~= seq![s[0]] + tail);
    lemma_encode_cons(s[0], tail);
    lemma_encode_scalar(s[0]);
    lemma_ascii_cast(s[0], c);
}

proof fn lemma_escaped(b: Seq<u8>, i: int, j: int, s: Seq<char>, text: Seq<u8>)
    requires
        0 <= i <= j <= b.len(),
        is_plain(s),
        b.subrange(i, j) == encode_utf8(escaped(s)),
        j < b.len() ==> b[j] == 123,
    ensures
        grammar::fragments_from(b, i, text) == grammar::fragments_from(
            b,
            j,
            text + encode_utf8(s),
        ),
    decreases s.len(),
{
    let run = b.subrange(i, j);
    if s.len() == 0 {
        assert(run.len() == 0);
        assert(text + encode_utf8(s) =~= text);
    } else {
        let c = s[0];
        let rest = s.drop_first();
        let head = encode_scalar(c as u32);
        let w = head.len() as int;
        lemma_encode_scalar(c);
        assert(seq![c] + rest =~= s);
        lemma_encode_cons(c, rest);
        assert forall|k: int| 0 <= k < rest.len() implies #[trigger] rest[k] == s[k + 1] by {}
        assert(is_plain(rest));
        if c == '{' || c == '}' {
            assert(seq![c, c] + escaped(rest) =~= seq![c] + (seq![c] + escaped(rest)));
            lemma_encode_cons(c, seq![c] + escaped(rest));
            lemma_encode_cons(c, escaped(rest));
            assert(run =~= seq![c as u8, c as u8] + encode_utf8(escaped(rest)));
            assert(run[0] == b[i] && run[1] == b[i + 1]);
            assert(b.subrange(i + 2, j) =~= run.skip(2));
            assert(b.subrange(i + 2, j) =~= encode_utf8(escaped(rest)));
            lemma_escaped(b, i + 2, j, rest, text.push(c as u8));
            assert(text.push(c as u8) + encode_utf8(rest) =~= text + encode_utf8(s));
        } else {
            lemma_encode_cons(c, escaped(rest));
            assert(run =~= head + encode_utf8(escaped(rest)));
            assert(run.len() >= w);
            assert forall|k: int| i <= k < i + w implies #[trigger] b[k] == head[k - i] by {
                assert(run[k - i] == b[k]);
            }
            assert(b.subrange(i, i + w) =~= head);
            assert(b.subrange(i + w, j) =~= run.skip(w));
            assert(b.subrange(i + w, j) =~= encode_utf8(escaped(rest)));
            if (c as u32) < 0x80 {
                assert(b[i] == c as u8);
                lemma_ascii_cast(c, 39);
                lemma_ascii_cast(c, 34);
                lemma_ascii_cast(c, 45);
                lemma_ascii_cast(c, 47);
                lemma_ascii_cast(c, 36);
                lemma_ascii_cast(c, 123);
                lemma_ascii_cast(c, 125);
                if rest.len() > 0 {
                    lemma_escaped_first(rest, 45);
                    lemma_escaped_first(rest, 42);
                    assert(b.subrange(i + 1, j)[0] == b[i + 1]);
                    assert(s[1] == rest[0]);
                } else {
                    assert(b.subrange(i + 1, j).len() == 0);
                    assert(j == i + 1);
                }
                assert(grammar::step(b, i) == Step::Text(i + 1));
            } else {
                lemma_wide_bytes(b, i, w, text);
            }
            lemma_escaped(b, i + w, j, rest, text + head);
            assert(text + head + encode_utf8(rest) =~= text + encode_utf8(s));
        }
    }
}

/// A text in which no region begins that hides braces is what is left of it
/// when its braces are doubled and it is parsed.
pub proof fn law_escapes_collapse(s: Seq<char>)
    requires
        is_plain(s),
    ensures
        grammar::parse_meaning(escaped(s)) == Ok::<_, ParseErrorView>(one_literal(s)),
{
    let b = encode_utf8(escaped(s));
    assert(b.subrange(0, b.len() as int) =~= b);
    lemma_escaped(b, 0, b.len() as int, s, seq![]);
    assert(Seq::<u8>::empty() + encode_utf8(s) =~= encode_utf8(s));
    lemma_flush(s);
}

// -- Placeholder bodies ---------------------------------------------------

/// Only white space.
pub open spec fn all_white_space(s: Seq<char>) -> bool {
    forall|i: int| 0 <= i < s.len() ==> text::is_white_space(#[trigger] s[i])
}

proof fn lemma_trim_start(w: Seq<char>, s: Seq<char>)
    requires
        all_white_space(w),
    ensures
        text::trim_start_spec(w + s) == text::trim_start_spec(s),
    decreases w.len(),
{
    if w.len() == 0 {
        assert(w + s =~= s);
    } else {
        assert((w + s).drop_first() =~= w.drop_first() + s);
        assert((w + s)[0] == w[0]);
        lemma_trim_start(w.drop_first(), s);
    }
}

proof fn lemma_trim_end(s: Seq<char>, w: Seq<char>)
    requires
        all_white_space(w),
    ensures
        text::trim_end_spec(s + w) == text::trim_end_spec(s),
    decreases w.len(),
{
    if w.len() == 0 {
        assert(s + w =~= s);
    } else {
        assert((s + w).drop_last() =~= s + w.drop_last());
        assert((s + w).last() == w.last());
        lemma_trim_end(s, w.drop_last());
    }
}

proof fn lemma_trim_start_keeps_end(s: Seq<char>, w: Seq<char>)
    requires
        all_white_space(w),
    ensures
        text::trim_end_spec(text::trim_start_spec(s + w)) == text::trim_end_spec(
            text::trim_start_spec(s),
        ),
    decreases s.len(),
{
    if s.len() == 0 {
        assert(s + w =~= w + Seq::<char>::empty());
        lemma_trim_start(w, seq![]);
        assert(s =~= seq![]);
    } else {
        assert((s + w)[0] == s[0]);
        if text::is_white_space(s[0]) {
            assert((s + w).drop_first() =~= s.drop_first() + w);
            lemma_trim_start_keeps_end(s.drop_first(), w);
        } else {
            lemma_trim_end(s, w);
        }
    }
}

/// White space around the body of a placeholder does not matter.
pub proof fn law_body_white_space(before: Seq<char>, body: Seq<char>, after: Seq<char>)
    requires
        all_white_space(before),
        all_white_space(after),
    ensures
        grammar::body_meaning(before + body + after) == grammar::body_meaning(body),
{
    assert(before + body + after =~= before + (body + after));
    lemma_trim_start(before, body + after);
    lemma_trim_start_keeps_end(body, after);
}

proof fn lemma_trimmed_start(s: Seq<char>)
    ensures
        text::trim_start_spec(s).len() > 0 ==> !text::is_white_space(text::trim_start_spec(s)[0]),
    decreases s.len(),
{
    if s.len() > 0 && text::is_white_space(s[0]) {
        lemma_trimmed_start(s.drop_first());
    }
}

proof fn lemma_trimmed_end(s: Seq<char>)
    ensures
        text::trim_end_spec(s).len() > 0 ==> text::trim_end_spec(s)[0] == s[0]
            && !text::is_white_space(text::trim_end_spec(s).last()),
    decreases s.len(),
{
    if s.len() > 0 && text::is_white_space(s.last()) {
        lemma_trimmed_end(s.drop_last());
    }
}

/// A body means what it means without the white space around it.
pub proof fn law_trimmed_body(body: Seq<char>)
    ensures
        grammar::body_meaning(text::trim_spec(body)) == grammar::body_meaning(body),
{
    lemma_trimmed_start(body);
    lemma_trimmed_end(text::trim_start_spec(body));
    assert(text::trim_spec(text::trim_spec(body)) == text::trim_spec(body));
}

proof fn lemma_trim_start_of_marked(head: Seq<char>, c: char)
    requires
        !text::is_white_space(c),
    ensures
        text::trim_spec(head.push(c)) == text::trim_start_spec(head).push(c),
    decreases head.len(),
{
    let s = head.push(c);
    assert(s.last() == c);
    if head.len() == 0 {
        assert(s.drop_first() =~= seq![]);
        assert(text::trim_start_spec(head) =~= seq![]);
        assert(text::trim_start_spec(s) =~= s);
        assert(s =~= text::trim_start_spec(head).push(c));
    } else if text::is_white_space(head[0]) {
        assert(s[0] == head[0]);
        assert(s.drop_first() =~= head.drop_first().push(c));
        lemma_trim_start_of_marked(head.drop_first(), c);
    } else {
        assert(s[0] == head[0]);
    }
}

/// White space before the marker of a spread placeholder does not matter.
pub proof fn law_marker_white_space(head: Seq<char>, space: Seq<char>, marker: char)
    requires
        all_white_space(space),
        marker == '*' || marker == '+',
    ensures
        grammar::body_meaning((head + space).push(marker)) == grammar::body_meaning(
            head.push(marker),
        ),
{
    let with = text::trim_start_spec(head + space);
    let without = text::trim_start_spec(head);
    lemma_trim_start_of_marked(head + space, marker);
    lemma_trim_start_of_marked(head, marker);
    lemma_trim_start_keeps_end(head, space);
    assert(with.push(marker).drop_last() =~= with);
    assert(without.push(marker).drop_last() =~= without);
}

/// How many parentheses are to be closed behind a character that `depth` were
/// to be closed before.
pub open spec fn depth_past(c: char, depth: nat) -> nat {
    if c == '(' {
        depth + 1
    } else if c == ')' && depth > 0 {
        (depth - 1) as nat
    } else {
        depth
    }
}

/// Is there no `}` in the text, and no parenthesis left to be closed behind it,
/// where `depth` are still to be closed?
pub open spec fn is_closed_body(s: Seq<char>, depth: nat) -> bool
    decreases s.len(),
{
    if s.len() == 0 {
        depth == 0
    } else {
        s[0] != '}' && is_closed_body(s.drop_first(), depth_past(s[0], depth))
    }
}

proof fn lemma_body_over(b: Seq<u8>, i: int, w: int, depth: nat, last: Stretch) -> (next: Stretch)
    requires
        0 <= i,
        0 <= w,
        i + w <= b.len(),
        forall|k: int| i <= k < i + w ==> #[trigger] b[k] >= 0x80,
    ensures
        grammar::body_end_from(b, i, depth, last) == grammar::body_end_from(
            b,
            i + w,
            depth,
            next,
        ),
    decreases w,
{
    if w > 0 {
        assert(b[i] >= 0x80);
        lemma_body_over(b, i + 1, w - 1, depth, grammar::stretch_over(b, i, last))
    } else {
        last
    }
}

proof fn lemma_closed_body(b: Seq<u8>, i: int, j: int, s: Seq<char>, depth: nat, last: Stretch)
    requires
        0 <= i <= j < b.len(),
        is_closed_body(s, depth),
        b.subrange(i, j) == encode_utf8(s),
        b[j] == 125,
    ensures
        grammar::body_end_from(b, i, depth, last) == Some(j),
    decreases s.len(),
{
    let run = b.subrange(i, j);
    if s.len() == 0 {
        assert(run.len() == 0);
    } else {
        let c = s[0];
        let rest = s.drop_first();
        let head = encode_scalar(c as u32);
        let w = head.len() as int;
        lemma_encode_scalar(c);
        assert(seq![c] + rest =~= s);
        lemma_encode_cons(c, rest);
        assert(run =~= head + encode_utf8(rest));
        assert(run.len() >= w);
        assert forall|k: int| i <= k < i + w implies #[trigger] b[k] == head[k - i] by {
            assert(run[k - i] == b[k]);
        }
        assert(b.subrange(i + w, j) =~= run.skip(w));
        assert(b.subrange(i + w, j) =~= encode_utf8(rest));
        lemma_ascii_cast(c, 40);
        lemma_ascii_cast(c, 41);
        lemma_ascii_cast(c, 125);
        if (c as u32) < 0x80 {
            assert(b[i] == c as u8);
            lemma_closed_body(
                b,
                i + 1,
                j,
                rest,
                depth_past(c, depth),
                grammar::stretch_over(b, i, last),
            );
        } else {
            let next = lemma_body_over(b, i, w, depth, last);
            lemma_closed_body(b, i + w, j, rest, depth, next);
        }
    }
}

proof fn lemma_in_braces(body: Seq<char>)
    ensures
        ({
            let b = encode_utf8((seq!['{'] + body).push('}'));
            b.len() >= 2 && b[0] == 123 && b.skip(1) == encode_utf8(body).push(125) && b.subrange(
                1,
                b.len() - 1,
            ) == encode_utf8(body)
        }),
{
    let sql = (seq!['{'] + body).push('}');
    let b = encode_utf8(sql);
    assert(sql =~= seq!['{'] + (body + seq!['}']));
    lemma_encode_cons('{', body + seq!['}']);
    text::lemma_encode_concat(body, seq!['}']);
    text::lemma_encode_ascii(125);
    assert(seq![125u8 as char] =~= seq!['}']);
    lemma_encode_scalar('{');
    assert(b.skip(1) =~= encode_utf8(body).push(125));
    assert(b.subrange(1, b.len() - 1) =~= encode_utf8(body));
}

/// A body with balanced parentheses and without `}` is ended by the `}` behind
/// it.
pub proof fn law_body_without_braces(body: Seq<char>)
    requires
        is_closed_body(body, 0),
    ensures
        ({
            let b = encode_utf8((seq!['{'] + body).push('}'));
            grammar::body_end(b, 1) == Some(b.len() - 1)
        }),
{
    lemma_in_braces(body);
    let b = encode_utf8((seq!['{'] + body).push('}'));
    assert(b.skip(1).last() == b[b.len() - 1]);
    lemma_closed_body(b, 1, b.len() - 1, body, 0, Stretch { end: 1, is_string: false });
}

/// A placeholder between two texts is cut out of them, and nothing of the texts
/// is lost: not a line feed or a space beside it, and no brace.
pub proof fn law_placeholder_between(
    s: Seq<char>,
    body: Seq<char>,
    t: Seq<char>,
    ident: IdentView,
    kleene: Option<Kleene>,
)
    requires
        is_plain(s),
        is_plain(t),
        is_closed_body(body, 0),
        body.len() > 0 ==> body[0] != '{',
        grammar::body_meaning(body) == Ok::<_, Seq<char>>((ident, kleene)),
    ensures
        ({
            let start = encode_utf8(escaped(s)).len() as int;
            let end = start + encode_utf8(body).len() + 2;
            grammar::parse_meaning(escaped(s) + seq!['{'] + body + seq!['}'] + escaped(t)) == Ok::<
                _,
                ParseErrorView,
            >(
                one_literal(s) + seq![
                    FragmentView::Placeholder(PlaceholderView { start, end, ident, kleene }),
                ] + one_literal(t),
            )
        }),
{
    let x = encode_utf8(escaped(s));
    let y = encode_utf8(body);
    let z = encode_utf8(escaped(t));
    let b = encode_utf8(escaped(s) + seq!['{'] + body + seq!['}'] + escaped(t));
    let i = x.len() as int;
    let j = i + 1 + y.len();
    text::lemma_encode_concat(escaped(s) + seq!['{'] + body + seq!['}'], escaped(t));
    text::lemma_encode_concat(escaped(s) + seq!['{'] + body, seq!['}']);
    text::lemma_encode_concat(escaped(s) + seq!['{'], body);
    text::lemma_encode_concat(escaped(s), seq!['{']);
    text::lemma_encode_ascii(123);
    text::lemma_encode_ascii(125);
    assert(seq![123u8 as char] =~= seq!['{']);
    assert(seq![125u8 as char] =~= seq!['}']);
    assert(b =~= x + seq![123u8] + y + seq![125u8] + z);
    assert(b[i] == 123 && b[j] == 125);
    assert(b.subrange(0, i) =~= x);
    assert(b.subrange(i + 1, j) =~= y);
    assert(b.subrange(j + 1, b.len() as int) =~= z);
    lemma_escaped(b, 0, i, s, seq![]);
    assert(Seq::<u8>::empty() + encode_utf8(s) =~= encode_utf8(s));
    lemma_closed_body(b, i + 1, j, body, 0, Stretch { end: i + 1, is_string: false });
    encode_utf8_decode_utf8(body);
    if body.len() > 0 {
        encode_utf8_first_scalar(body);
        let tail = body.drop_first();
        assert(seq![body[0]] + tail =~= body);
        lemma_encode_cons(body[0], tail);
        lemma_encode_scalar(body[0]);
        lemma_ascii_cast(body[0], 123);
        assert(b[i + 1] == y[0]);
    } else {
        assert(y =~= seq![]);
        assert(b[i + 1] == 125);
    }
    assert(grammar::step(b, i) is Open);
    lemma_escaped(b, j + 1, b.len() as int, t, seq![]);
    assert(Seq::<u8>::empty() + encode_utf8(t) =~= encode_utf8(t));
    lemma_flush(s);
    lemma_flush(t);
    let p = FragmentView::Placeholder(PlaceholderView { start: i, end: j + 1, ident, kleene });
    assert(grammar::fragments_from(b, b.len() as int, encode_utf8(t)) == Ok::<_, ParseErrorView>(
        one_literal(t),
    ));
    assert(one_literal(s).push(p) + one_literal(t) =~= one_literal(s) + seq![p] + one_literal(t));
}

/// A body in braces, of which the second ends it, is one placeholder, which means
/// what the body means, or is rejected as the body is.
pub proof fn law_one_placeholder(body: Seq<char>)
    requires
        ({
            let b = encode_utf8((seq!['{'] + body).push('}'));
            grammar::body_end(b, 1) == Some(b.len() - 1)
        }),
        body.len() > 0 ==> body[0] != '{',
    ensures
        ({
            let sql = (seq!['{'] + body).push('}');
            let b = encode_utf8(sql);
            grammar::parse_meaning(sql) == match grammar::body_meaning(body) {
                Ok((ident, kleene)) => Ok(
                    seq![
                        FragmentView::Placeholder(
                            PlaceholderView { start: 0, end: b.len() as int, ident, kleene },
                        ),
                    ],
                ),
                Err(message) => Err(grammar::error_at(b, 1, message)),
            }
        }),
{
    let sql = (seq!['{'] + body).push('}');
    let b = encode_utf8(sql);
    lemma_in_braces(body);
    encode_utf8_decode_utf8(body);
    if body.len() > 0 {
        encode_utf8_first_scalar(body);
        let tail = body.drop_first();
        assert(seq![body[0]] + tail =~= body);
        lemma_encode_cons(body[0], tail);
        lemma_encode_scalar(body[0]);
        lemma_ascii_cast(body[0], 123);
        assert(b.skip(1)[0] == b[1]);
        assert(b[1] == encode_utf8(body)[0]);
    } else {
        assert(encode_utf8(body) =~= seq![]);
        assert(b.skip(1)[0] == b[1]);
        assert(b[1] == 125);
    }
    assert(grammar::step(b, 0) is Open);
    if let Ok(p) = grammar::placeholder_at(b, 0) {
        assert(p.end == b.len());
        assert(grammar::fragments_from(b, p.end, seq![]) == Ok::<_, ParseErrorView>(
            Seq::<FragmentView>::empty(),
        ));
        assert(grammar::flush(Seq::<u8>::empty()) =~= seq![]);
        assert(Seq::<FragmentView>::empty().push(FragmentView::Placeholder(p)) + Seq::<
            FragmentView,
        >::empty() =~= seq![FragmentView::Placeholder(p)]);
    }
}

/// How a spread marker is written.
pub open spec fn marker_text(kleene: Option<Kleene>) -> Seq<char> {
    match kleene {
        None => seq![],
        Some(Kleene::Star) => seq!['*'],
        Some(Kleene::Plus) => seq!['+'],
    }
}

/// A head that neither begins nor ends with white space or a marker is found
/// again before its marker.
proof fn lemma_marked(head: Seq<char>, kleene: Option<Kleene>)
    requires
        head.len() > 0,
        !text::is_white_space(head[0]),
        !text::is_white_space(head.last()),
        head.last() != '*',
        head.last() != '+',
    ensures
        text::trim_spec(head + marker_text(kleene)) == head + marker_text(kleene),
        grammar::split_marker(head + marker_text(kleene)) == (head, kleene),
{
    let t = head + marker_text(kleene);
    assert(t[0] == head[0]);
    if kleene is Some {
        assert(t.drop_last() =~= head);
        assert(t.last() == marker_text(kleene)[0]);
    } else {
        assert(t =~= head);
    }
}

/// An identifier, with or without a marker, refers to the argument of that
/// name.
pub proof fn law_named_body(name: Seq<char>, kleene: Option<Kleene>)
    requires
        grammar::is_ident(name),
    ensures
        grammar::body_meaning(name + marker_text(kleene)) == Ok::<_, Seq<char>>(
            (IdentView::Named(name), kleene),
        ),
{
    assert(grammar::is_ident_start(name.last()) || text::is_digit(name.last()));
    lemma_marked(name, kleene);
    assert(!text::is_digit(name[0]));
    assert(!grammar::all_digits(name));
}

/// A number in decimal denotes the number.
pub proof fn lemma_decimal(n: nat)
    ensures
        text::decimal(n).len() > 0,
        grammar::all_digits(text::decimal(n)),
        text::digits_value(text::decimal(n)) == n,
    decreases n,
{
    if n >= 10 {
        lemma_decimal(n / 10);
        let d = text::digit_char(n % 10);
        assert(text::decimal(n).drop_last() =~= text::decimal(n / 10));
        assert(text::decimal(n).last() == d);
    } else {
        assert(text::decimal(n).drop_last() =~= seq![]);
        assert(text::digits_value(Seq::<char>::empty()) == 0);
    }
}

/// A number that fits 16 bits, with or without a marker, refers to the argument
/// with that index.
pub proof fn law_positional_body(n: nat, kleene: Option<Kleene>)
    requires
        n <= u16::MAX,
    ensures
        grammar::body_meaning(text::decimal(n) + marker_text(kleene)) == Ok::<_, Seq<char>>(
            (IdentView::Positional(n), kleene),
        ),
{
    let head = text::decimal(n);
    lemma_decimal(n);
    assert(text::is_digit(head[0]) && text::is_digit(head.last()));
    lemma_marked(head, kleene);
}

/// A text in parentheses, with or without a marker, is an expression.
pub proof fn law_expression_body(t: Seq<char>, kleene: Option<Kleene>)
    ensures
        grammar::body_meaning((seq!['('] + t).push(')') + marker_text(kleene)) == Ok::<
            _,
            Seq<char>,
        >((IdentView::Expr(text::trim_spec(t)), kleene)),
{
    let head = (seq!['('] + t).push(')');
    lemma_marked(head, kleene);
    assert(head.subrange(1, head.len() - 1) =~= t);
}

// -- Error contexts -------------------------------------------------------

/// No white space but single spaces between words.
pub open spec fn single_spaced(s: Seq<char>) -> bool {
    forall|i: int|
        0 <= i < s.len() && text::is_white_space(#[trigger] s[i]) ==> s[i] == ' ' && 0 < i < s.len()
            - 1 && !text::is_white_space(s[i - 1]) && !text::is_white_space(s[i + 1])
}

/// Words: not empty, and without white space.
pub open spec fn are_words(words: Seq<Seq<char>>) -> bool {
    forall|k: int|
        0 <= k < words.len() ==> (#[trigger] words[k]).len() > 0 && no_white_space(words[k])
}

pub open spec fn no_white_space(s: Seq<char>) -> bool {
    forall|i: int| 0 <= i < s.len() ==> !text::is_white_space(#[trigger] s[i])
}

proof fn lemma_split(s: Seq<char>)
    ensures
        are_words(grammar::split_white_space(s)),
        s.len() > 0 && !text::is_white_space(s.last()) ==> grammar::split_white_space(s).len() > 0,
    decreases s.len(),
{
    if s.len() > 0 {
        let front = s.drop_last();
        lemma_split(front);
        let before = grammar::split_white_space(front);
        if !text::is_white_space(s.last()) {
            if s.len() > 1 && !text::is_white_space(s[s.len() - 2]) {
                assert(front.last() == s[s.len() - 2]);
                assert(no_white_space(before.last()));
                assert(no_white_space(before.last().push(s.last())));
            } else {
                assert(no_white_space(seq![s.last()]));
            }
        }
    }
}

proof fn lemma_joined(words: Seq<Seq<char>>)
    requires
        are_words(words),
    ensures
        single_spaced(grammar::join_with_space(words)),
        words.len() > 0 ==> grammar::join_with_space(words).len() > 0 && !text::is_white_space(
            grammar::join_with_space(words).last(),
        ),
    decreases words.len(),
{
    if words.len() == 1 {
        assert(no_white_space(words[0]));
    } else if words.len() > 1 {
        let front = words.drop_last();
        let before = grammar::join_with_space(front);
        let word = words.last();
        let all = before.push(' ') + word;
        assert(are_words(front)) by {
            assert forall|k: int| 0 <= k < front.len() implies (#[trigger] front[k]).len() > 0
                && no_white_space(front[k]) by {
                assert(front[k] == words[k]);
            }
        }
        lemma_joined(front);
        assert(word == words[words.len() - 1]);
        assert(no_white_space(word));
        let n = before.len() as int;
        assert forall|i: int| 0 <= i < all.len() && text::is_white_space(#[trigger] all[i]) implies
            all[i] == ' ' && 0 < i < all.len() - 1 && !text::is_white_space(all[i - 1])
            && !text::is_white_space(all[i + 1]) by {
            if i < n {
                assert(all[i] == before[i]);
                assert(all[i - 1] == before[i - 1]);
                assert(all[i + 1] == before[i + 1]);
            } else if i > n {
                assert(all[i] == word[i - n - 1]);
            } else {
                assert(all[n - 1] == before.last());
                assert(all[n + 1] == word[0]);
            }
        }
    }
}

/// The context of an error has white space only between words, and there a
/// single space.
pub proof fn law_context_single_spaced(b: Seq<u8>, position: int)
    ensures
        single_spaced(grammar::context_at(b, position)),
{
    let words = grammar::words_from(b, 0);
    if words.len() > 0 {
        let (start, end) = grammar::context_range(words, position);
        lemma_split(decode_utf8(b.subrange(start, end)));
        lemma_joined(grammar::split_white_space(decode_utf8(b.subrange(start, end))));
    }
}

proof fn lemma_words(b: Seq<u8>, i: int)
    requires
        0 <= i <= b.len(),
    ensures
        forall|k: int|
            0 <= k < grammar::words_from(b, i).len() ==> i <= (#[trigger] grammar::words_from(
                b,
                i,
            )[k]).0 < grammar::words_from(b, i)[k].1 <= b.len(),
        forall|j: int, k: int|
            0 <= j < k < grammar::words_from(b, i).len() ==> (#[trigger] grammar::words_from(b, i)[j]).1
                <= (#[trigger] grammar::words_from(b, i)[k]).0,
        grammar::words_from(b, i).len() == 0 <==> forall|k: int|
            i <= k < b.len() ==> grammar::is_ascii_space(#[trigger] b[k]),
    decreases b.len() - i,
{
    if i < b.len() {
        let words = grammar::words_from(b, i);
        if grammar::is_ascii_space(b[i]) {
            lemma_words(b, i + 1);
        } else {
            let end = grammar::word_end(b, i);
            grammar::lemma_word_end(b, i);
            lemma_words(b, end);
            let rest = grammar::words_from(b, end);
            assert(words =~= seq![(i, end)] + rest);
            assert forall|k: int| 0 < k < words.len() implies #[trigger] words[k] == rest[k - 1] by {
            }
            assert(words.len() > 0);
            assert(!grammar::is_ascii_space(b[i]));
        }
    }
}

proof fn lemma_target(words: Seq<(int, int)>, position: int)
    requires
        words.len() > 0,
    ensures
        0 <= grammar::target_word(words, position) < words.len(),
    decreases words.len(),
{
    if words.last().0 > position && words.len() > 1 {
        lemma_target(words.drop_last(), position);
    } else {
        reveal_with_fuel(grammar::target_word, 2);
    }
}

/// The context of an error shows the word at its position, if it stands at one,
/// and no more than three words on each side. It is empty just where the text
/// has no words.
pub proof fn law_context_range(b: Seq<u8>, position: int)
    ensures
        ({
            let words = grammar::words_from(b, 0);
            let target = grammar::target_word(words, position);
            let (start, end) = grammar::context_range(words, position);
            &&& words.len() == 0 ==> grammar::context_at(b, position) == Seq::<char>::empty()
            &&& words.len() == 0 <==> forall|k: int|
                0 <= k < b.len() ==> grammar::is_ascii_space(#[trigger] b[k])
            &&& words.len() > 0 ==> 0 <= start <= words[target].0 < words[target].1 <= end
                <= b.len() && exists|lo: int, hi: int|
                0 <= lo <= target < hi <= words.len() && target - lo <= grammar::NUM_CONTEXT_WORDS
                    && hi - target <= grammar::NUM_CONTEXT_WORDS + 1 && start == (
                #[trigger] words[lo]).0 && end == (#[trigger] words[hi - 1]).1
        }),
{
    let words = grammar::words_from(b, 0);
    lemma_words(b, 0);
    if words.len() > 0 {
        lemma_target(words, position);
        let target = grammar::target_word(words, position);
        let lo = if target < grammar::NUM_CONTEXT_WORDS {
            0
        } else {
            target - grammar::NUM_CONTEXT_WORDS
        };
        let hi = if target + grammar::NUM_CONTEXT_WORDS + 1 < words.len() {
            target + grammar::NUM_CONTEXT_WORDS + 1
        } else {
            words.len() as int
        };
        let (start, end) = grammar::context_range(words, position);
        assert(start == words[lo].0 && end == words[hi - 1].1);
        assert(words[lo].0 <= words[target].0);
        assert(words[target].1 <= words[hi - 1].1);
    }
}

} // verus!
