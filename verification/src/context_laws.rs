//! What it means that an error shows the part of the SQL text around it.
use crate::grammar;
use crate::parse_laws;
use crate::text;
use vstd::prelude::*;
use vstd::utf8::*;

verus! {

/// Space, tab, line feed, form feed or carriage return.
pub open spec fn is_blank(c: u8) -> bool {
    c == 32 || c == 9 || c == 10 || c == 12 || c == 13
}

/// Is there no blank from `i` to `j`, and are there blanks, or the ends of the
/// text, on both sides?
pub open spec fn is_whole_word(b: Seq<u8>, i: int, j: int) -> bool {
    &&& 0 <= i < j <= b.len()
    &&& forall|k: int| i <= k < j ==> !is_blank(#[trigger] b[k])
    &&& i > 0 ==> is_blank(b[i - 1])
    &&& j < b.len() ==> is_blank(b[j])
}

/// Are these all the words of the text from `lo` on, in their order?
pub open spec fn are_the_words(b: Seq<u8>, lo: int, words: Seq<(int, int)>) -> bool {
    &&& forall|k: int|
        0 <= k < words.len() ==> lo <= (#[trigger] words[k]).0 && is_whole_word(
            b,
            words[k].0,
            words[k].1,
        )
    &&& forall|j: int, k: int|
        0 <= j < k < words.len() ==> (#[trigger] words[j]).1 <= (#[trigger] words[k]).0
    &&& forall|m: int|
        lo <= m < b.len() && !is_blank(#[trigger] b[m]) ==> exists|k: int|
            0 <= k < words.len() && (#[trigger] words[k]).0 <= m < words[k].1
}

/// Is the `t`-th word the last that begins at or before the position, or the
/// first if none does?
pub open spec fn is_nearest(words: Seq<(int, int)>, position: int, t: int) -> bool {
    &&& 0 <= t < words.len()
    &&& t > 0 ==> words[t].0 <= position
    &&& forall|k: int| t < k < words.len() ==> (#[trigger] words[k]).0 > position
}

/// The words and the gaps between them, one after the other, a gap first.
pub open spec fn spaced_out(words: Seq<Seq<char>>, gaps: Seq<Seq<char>>) -> Seq<char>
    decreases words.len(),
{
    if words.len() == 0 || gaps.len() == 0 {
        if gaps.len() == 0 {
            seq![]
        } else {
            gaps[0]
        }
    } else {
        spaced_out(words.drop_last(), gaps.drop_last()) + words.last() + gaps.last()
    }
}

/// The words with one space between each two.
pub open spec fn spaced_evenly(words: Seq<Seq<char>>) -> Seq<char>
    decreases words.len(),
{
    if words.len() == 0 {
        seq![]
    } else if words.len() == 1 {
        words[0]
    } else {
        spaced_evenly(words.drop_last()) + seq![' '] + words.last()
    }
}

/// Is `s` made up of the words, with white space between each two, and perhaps
/// at the ends?
pub open spec fn is_made_up(s: Seq<char>, words: Seq<Seq<char>>, gaps: Seq<Seq<char>>) -> bool {
    &&& s == spaced_out(words, gaps)
    &&& gaps.len() == words.len() + 1
    &&& parse_laws::are_words(words)
    &&& forall|k: int| 0 <= k < gaps.len() ==> parse_laws::all_white_space(#[trigger] gaps[k])
    &&& forall|k: int| 0 < k < words.len() ==> (#[trigger] gaps[k]).len() > 0
}

/// Is `c` what `s` shows with all white space in it made single spaces?
pub open spec fn is_collapsed(s: Seq<char>, c: Seq<char>) -> bool {
    exists|words: Seq<Seq<char>>, gaps: Seq<Seq<char>>| #[trigger]
        is_made_up(s, words, gaps) && c == spaced_evenly(words)
}

/// Does the context show the nearest word and three more on each side, as far as
/// there are as many?
pub open spec fn shows_around(
    b: Seq<u8>,
    position: int,
    words: Seq<(int, int)>,
    t: int,
    context: Seq<char>,
) -> bool {
    let first = if t < 3 {
        0
    } else {
        t - 3
    };
    let last = if t + 3 < words.len() {
        t + 3
    } else {
        words.len() - 1
    };
    &&& are_the_words(b, 0, words)
    &&& is_nearest(words, position, t)
    &&& is_collapsed(decode_utf8(b.subrange(words[first].0, words[last].1)), context)
}

/// Is it the context of an error at the position?
pub open spec fn is_context(b: Seq<u8>, position: int, context: Seq<char>) -> bool {
    ||| context.len() == 0 && forall|k: int| 0 <= k < b.len() ==> is_blank(#[trigger] b[k])
    ||| exists|words: Seq<(int, int)>, t: int| #[trigger]
        shows_around(b, position, words, t, context)
}

proof fn lemma_word(b: Seq<u8>, i: int)
    requires
        0 <= i <= b.len(),
    ensures
        i <= grammar::word_end(b, i) <= b.len(),
        forall|k: int| i <= k < grammar::word_end(b, i) ==> !is_blank(#[trigger] b[k]),
        grammar::word_end(b, i) < b.len() ==> is_blank(b[grammar::word_end(b, i)]),
    decreases b.len() - i,
{
    if i < b.len() && !grammar::is_ascii_space(b[i]) {
        lemma_word(b, i + 1);
    }
}

proof fn lemma_words(b: Seq<u8>, i: int)
    requires
        0 <= i <= b.len(),
        0 < i < b.len() && !is_blank(b[i]) ==> is_blank(b[i - 1]),
    ensures
        are_the_words(b, i, grammar::words_from(b, i)),
    decreases b.len() - i,
{
    let words = grammar::words_from(b, i);
    if i < b.len() {
        if grammar::is_ascii_space(b[i]) {
            lemma_words(b, i + 1);
            assert forall|m: int| i <= m < b.len() && !is_blank(#[trigger] b[m]) implies exists|k: int|
                0 <= k < words.len() && (#[trigger] words[k]).0 <= m < words[k].1 by {
                assert(m > i);
            }
        } else {
            let end = grammar::word_end(b, i);
            grammar::lemma_word_end(b, i);
            lemma_word(b, i);
            lemma_words(b, end);
            let rest = grammar::words_from(b, end);
            assert(words =~= seq![(i, end)] + rest);
            assert(is_whole_word(b, i, end));
            assert forall|k: int| 0 < k < words.len() implies #[trigger] words[k] == rest[k - 1] by {
            }
            assert forall|m: int| i <= m < b.len() && !is_blank(#[trigger] b[m]) implies exists|k: int|
                0 <= k < words.len() && (#[trigger] words[k]).0 <= m < words[k].1 by {
                if m < end {
                    assert(words[0].0 <= m < words[0].1);
                } else {
                    let k = choose|k: int|
                        0 <= k < rest.len() && (#[trigger] rest[k]).0 <= m < rest[k].1;
                    assert(words[k + 1] == rest[k]);
                }
            }
        }
    }
}

proof fn lemma_nearest(words: Seq<(int, int)>, position: int)
    requires
        words.len() > 0,
    ensures
        is_nearest(words, position, grammar::target_word(words, position)),
    decreases words.len(),
{
    if words.last().0 > position {
        let front = words.drop_last();
        if front.len() > 0 {
            lemma_nearest(front, position);
            let t = grammar::target_word(front, position);
            assert forall|k: int| t < k < words.len() implies (#[trigger] words[k]).0 > position by {
                if k < front.len() {
                    assert(front[k] == words[k]);
                }
            }
            assert(t > 0 ==> front[t] == words[t]);
        } else {
            reveal_with_fuel(grammar::target_word, 2);
        }
    }
}

proof fn lemma_split(s: Seq<char>) -> (gaps: Seq<Seq<char>>)
    ensures
        is_made_up(s, grammar::split_white_space(s), gaps),
        s.len() > 0 && !text::is_white_space(s.last()) ==> gaps.last().len() == 0
            && grammar::split_white_space(s).len() > 0,
        s.len() > 0 && text::is_white_space(s.last()) ==> gaps.last().len() > 0,
    decreases s.len(),
{
    let words = grammar::split_white_space(s);
    if s.len() == 0 {
        let gaps = seq![Seq::<char>::empty()];
        assert(s =~= spaced_out(words, gaps));
        gaps
    } else {
        let front = s.drop_last();
        let c = s.last();
        let before = lemma_split(front);
        let old_words = grammar::split_white_space(front);
        let n = before.len() - 1;
        assert(s =~= front.push(c));
        if text::is_white_space(c) {
            let gaps = before.drop_last().push(before.last().push(c));
            assert(gaps.drop_last() =~= before.drop_last());
            assert forall|k: int| 0 <= k < gaps.len() implies parse_laws::all_white_space(
                #[trigger] gaps[k],
            ) by {
                if k < n {
                    assert(gaps[k] == before[k]);
                } else {
                    assert(parse_laws::all_white_space(before[n]));
                }
            }
            assert forall|k: int| 0 < k < words.len() implies (#[trigger] gaps[k]).len() > 0 by {
                assert(gaps[k] == before[k]);
            }
            if words.len() == 0 {
                assert(s =~= gaps[0]);
            } else {
                assert(s =~= spaced_out(words, gaps));
            }
            gaps
        } else if s.len() > 1 && !text::is_white_space(s[s.len() - 2]) {
            assert(front.last() == s[s.len() - 2]);
            let w = old_words.last();
            assert(words == old_words.drop_last().push(w.push(c)));
            assert(words.drop_last() =~= old_words.drop_last());
            assert(parse_laws::no_white_space(old_words[old_words.len() - 1]));
            assert forall|k: int| 0 <= k < words.len() implies (#[trigger] words[k]).len() > 0
                && parse_laws::no_white_space(words[k]) by {
                if k < words.len() - 1 {
                    assert(words[k] == old_words[k]);
                }
            }
            assert(s =~= spaced_out(words, before));
            before
        } else {
            let gaps = before.push(seq![]);
            assert(words == old_words.push(seq![c]));
            assert(words.drop_last() =~= old_words);
            assert(gaps.drop_last() =~= before);
            assert forall|k: int| 0 <= k < words.len() implies (#[trigger] words[k]).len() > 0
                && parse_laws::no_white_space(words[k]) by {
                if k < words.len() - 1 {
                    assert(words[k] == old_words[k]);
                }
            }
            assert forall|k: int| 0 <= k < gaps.len() implies parse_laws::all_white_space(
                #[trigger] gaps[k],
            ) by {
                if k < gaps.len() - 1 {
                    assert(gaps[k] == before[k]);
                }
            }
            assert forall|k: int| 0 < k < words.len() implies (#[trigger] gaps[k]).len() > 0 by {
                assert(gaps[k] == before[k]);
                if k == old_words.len() {
                    assert(front.len() > 0);
                    assert(front.last() == s[s.len() - 2]);
                }
            }
            assert(s =~= spaced_out(words, gaps));
            gaps
        }
    }
}

proof fn lemma_joined(words: Seq<Seq<char>>)
    ensures
        grammar::join_with_space(words) == spaced_evenly(words),
    decreases words.len(),
{
    if words.len() > 1 {
        lemma_joined(words.drop_last());
        let before = spaced_evenly(words.drop_last());
        assert(before.push(' ') + words.last() =~= before + seq![' '] + words.last());
    }
}

/// The context of an error shows the word that it stands at, and three more on
/// each side, with single spaces between them; it is empty if the text is.
pub proof fn law_context(b: Seq<u8>, position: int)
    ensures
        is_context(b, position, grammar::context_at(b, position)),
{
    let words = grammar::words_from(b, 0);
    lemma_words(b, 0);
    if words.len() == 0 {
        assert forall|k: int| 0 <= k < b.len() implies is_blank(#[trigger] b[k]) by {}
    } else {
        lemma_nearest(words, position);
        let t = grammar::target_word(words, position);
        let (start, end) = grammar::context_range(words, position);
        let s = decode_utf8(b.subrange(start, end));
        let gaps = lemma_split(s);
        let parts = grammar::split_white_space(s);
        lemma_joined(parts);
        assert(is_made_up(s, parts, gaps));
        assert(shows_around(b, position, words, t, grammar::context_at(b, position)));
    }
}

} // verus!
