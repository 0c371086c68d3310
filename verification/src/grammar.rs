//! What `{...}` placeholder syntax means, on the UTF-8 bytes of a SQL text.
use crate::placeholders::Kleene;
use crate::text;
use vstd::prelude::*;
use vstd::utf8::*;

verus! {

/// What a placeholder refers to.
pub enum IdentView {
    /// A bind argument by its zero-based index.
    Positional(nat),
    /// A bind argument by its name.
    Named(Seq<char>),
    /// The text of an expression, without its parentheses.
    Expr(Seq<char>),
}

/// A placeholder: where it stands in the SQL text, delimiters included, and
/// what it asks for.
pub struct PlaceholderView {
    pub start: int,
    pub end: int,
    pub ident: IdentView,
    pub kleene: Option<Kleene>,
}

/// A piece of a parsed SQL text.
pub enum FragmentView {
    Literal(Seq<char>),
    Placeholder(PlaceholderView),
}

/// Why a SQL text is rejected, and where.
pub struct ParseErrorView {
    pub byte_position: int,
    pub message: Seq<char>,
    pub context: Seq<char>,
}

/// Does `b` hold the byte `c` at position `i`?
pub open spec fn at(b: Seq<u8>, i: int, c: u8) -> bool {
    0 <= i < b.len() && b[i] == c
}

// -- Regions in which braces have no meaning ------------------------------

/// Where a quoted literal ends whose text goes on at `i`: just past the first
/// quote that is not doubled, or at the end of the input.
pub open spec fn quote_end(b: Seq<u8>, i: int, quote: u8) -> int
    decreases b.len() - i,
{
    if i >= b.len() {
        i
    } else if b[i] != quote {
        quote_end(b, i + 1, quote)
    } else if at(b, i + 1, quote) {
        quote_end(b, i + 2, quote)
    } else {
        i + 1
    }
}

/// The first line feed at or after `i`, or the end of the input.
pub open spec fn line_end(b: Seq<u8>, i: int) -> int
    decreases b.len() - i,
{
    if i >= b.len() || b[i] == 10 {
        i
    } else {
        line_end(b, i + 1)
    }
}

/// Where `depth` nested block comments are all closed, reading from `i`, or
/// the end of the input.
pub open spec fn block_comment_end(b: Seq<u8>, i: int, depth: nat) -> int
    decreases b.len() - i,
{
    if i >= b.len() || depth == 0 {
        i
    } else if b[i] == 47 && at(b, i + 1, 42) {
        block_comment_end(b, i + 2, depth + 1)
    } else if b[i] == 42 && at(b, i + 1, 47) {
        block_comment_end(b, i + 2, (depth - 1) as nat)
    } else {
        block_comment_end(b, i + 1, depth)
    }
}

/// An ASCII letter or an underscore.
pub open spec fn is_tag_start(c: u8) -> bool {
    65 <= c <= 90 || 97 <= c <= 122 || c == 95
}

/// An ASCII letter, a decimal digit or an underscore.
pub open spec fn is_tag_byte(c: u8) -> bool {
    is_tag_start(c) || 48 <= c <= 57
}

/// The first position at or after `i` that holds no tag byte.
pub open spec fn tag_run_end(b: Seq<u8>, i: int) -> int
    decreases b.len() - i,
{
    if 0 <= i < b.len() && is_tag_byte(b[i]) {
        tag_run_end(b, i + 1)
    } else {
        i
    }
}

/// Where the tag after the `$` at `start` ends: a tag is empty or an
/// identifier.
pub open spec fn tag_end(b: Seq<u8>, start: int) -> int {
    if 0 <= start + 1 < b.len() && is_tag_start(b[start + 1]) {
        tag_run_end(b, start + 2)
    } else {
        start + 1
    }
}

/// Just past the first occurrence of `tag` at or after `i`, or the end of the
/// input.
pub open spec fn past_tag(b: Seq<u8>, tag: Seq<u8>, i: int) -> int
    decreases b.len() - i,
{
    if i >= b.len() || i + tag.len() > b.len() {
        b.len() as int
    } else if b.subrange(i, i + tag.len()) == tag {
        i + tag.len()
    } else {
        past_tag(b, tag, i + 1)
    }
}

/// Where the dollar-quoted block ends that the `$` at `start` opens, if it
/// opens one.
pub open spec fn dollar_quote_end(b: Seq<u8>, start: int) -> Option<int> {
    let e = tag_end(b, start);
    if at(b, e, 36) {
        Some(past_tag(b, b.subrange(start, e + 1), e + 1))
    } else {
        None
    }
}

// -- The lexical steps ----------------------------------------------------

/// What stands at a position of a SQL text.
pub enum Step {
    /// Plain text up to the given position.
    Text(int),
    /// A doubled brace, for one literal brace.
    Escape(u8),
    /// A closing brace that nothing opened.
    Unmatched,
    /// The opening brace of a placeholder.
    Open,
}

/// What stands at `i`.
pub open spec fn step(b: Seq<u8>, i: int) -> Step {
    if b[i] == 39 || b[i] == 34 {
        Step::Text(quote_end(b, i + 1, b[i]))
    } else if b[i] == 45 && at(b, i + 1, 45) {
        Step::Text(line_end(b, i + 2))
    } else if b[i] == 47 && at(b, i + 1, 42) {
        Step::Text(block_comment_end(b, i + 2, 1))
    } else if b[i] == 36 {
        match dollar_quote_end(b, i) {
            Some(end) => Step::Text(end),
            None => Step::Text(i + 1),
        }
    } else if (b[i] == 123 || b[i] == 125) && at(b, i + 1, b[i]) {
        Step::Escape(b[i])
    } else if b[i] == 125 {
        Step::Unmatched
    } else if b[i] == 123 {
        Step::Open
    } else {
        Step::Text(i + 1)
    }
}

/// The first `c` at or after `i`.
pub open spec fn find_byte(b: Seq<u8>, i: int, c: u8) -> Option<int>
    decreases b.len() - i,
{
    if i >= b.len() {
        None
    } else if b[i] == c {
        Some(i)
    } else {
        find_byte(b, i + 1, c)
    }
}

/// Just past the `"` that closes a Rust string literal, reading from `i`, if
/// there is one. A backslash takes the next byte with it.
pub open spec fn rust_string_end(b: Seq<u8>, i: int) -> Option<int>
    decreases b.len() - i,
{
    if i >= b.len() {
        None
    } else if b[i] == 34 {
        Some(i + 1)
    } else if b[i] == 92 && i + 1 < b.len() {
        rust_string_end(b, i + 2)
    } else {
        rust_string_end(b, i + 1)
    }
}

/// The first position at or after `i` that holds no `#`.
pub open spec fn hashes_end(b: Seq<u8>, i: int) -> int
    decreases b.len() - i,
{
    if 0 <= i < b.len() && b[i] == 35 {
        hashes_end(b, i + 1)
    } else {
        i
    }
}

/// Just past the `"` and the `hashes` that close a raw Rust string literal,
/// reading from `i`, if there are such.
pub open spec fn raw_string_end(b: Seq<u8>, i: int, hashes: int) -> Option<int>
    decreases b.len() - i,
{
    if i >= b.len() {
        None
    } else if b[i] == 34 && hashes_end(b, i + 1) >= i + 1 + hashes {
        Some(i + 1 + hashes)
    } else {
        raw_string_end(b, i + 1, hashes)
    }
}

/// The first position at or after `i` that does not continue a character.
pub open spec fn scalar_end(b: Seq<u8>, i: int) -> int
    decreases b.len() - i,
{
    if 0 <= i < b.len() && 0x80 <= b[i] < 0xC0 {
        scalar_end(b, i + 1)
    } else {
        i
    }
}

/// Just past a Rust character literal whose first character is at `i`, if it is
/// one and no lifetime.
pub open spec fn char_literal_end(b: Seq<u8>, i: int) -> Option<int> {
    if at(b, i, 92) {
        match find_byte(b, i + 2, 39) {
            Some(quote) => Some(quote + 1),
            None => None,
        }
    } else if at(b, scalar_end(b, i + 1), 39) {
        Some(scalar_end(b, i + 1) + 1)
    } else {
        None
    }
}

/// A part of a Rust expression, up to `end`, in which a `"` does not open a
/// string literal: one itself, a character literal or a comment.
pub struct Stretch {
    pub end: int,
    pub is_string: bool,
}

/// The string literal, character literal or comment that begins at `i`; one
/// without length if there is none. What nothing closes is no literal.
pub open spec fn stretch_at(b: Seq<u8>, i: int) -> Stretch {
    let nothing = Stretch { end: i, is_string: false };
    let hashes = hashes_end(b, i + 1);
    if b[i] == 34 {
        match rust_string_end(b, i + 1) {
            Some(end) => Stretch { end, is_string: true },
            None => nothing,
        }
    } else if b[i] == 114 && at(b, hashes, 34) {
        match raw_string_end(b, hashes + 1, hashes - (i + 1)) {
            Some(end) => Stretch { end, is_string: true },
            None => nothing,
        }
    } else if b[i] == 39 {
        match char_literal_end(b, i + 1) {
            Some(end) => Stretch { end, is_string: false },
            None => nothing,
        }
    } else if b[i] == 47 && at(b, i + 1, 47) {
        Stretch { end: line_end(b, i + 2), is_string: false }
    } else if b[i] == 47 && at(b, i + 1, 42) {
        Stretch { end: block_comment_end(b, i + 2, 1), is_string: false }
    } else {
        nothing
    }
}

/// The stretch in which `i` lies, after the stretch `last`.
pub open spec fn stretch_over(b: Seq<u8>, i: int, last: Stretch) -> Stretch {
    if i < last.end {
        last
    } else {
        stretch_at(b, i)
    }
}

/// The first closing brace at or after `i` that ends the body of a placeholder,
/// where `depth` parentheses are still to be closed, and `last` is the last
/// stretch that was come to.
///
/// Parentheses keep a `}` from ending the body; a `)` that closes nothing is
/// ordinary text. A Rust string literal does not: in one, any `}` ends the body.
pub open spec fn body_end_from(b: Seq<u8>, i: int, depth: nat, last: Stretch) -> Option<int>
    decreases b.len() - i,
{
    let now = stretch_over(b, i, last);
    if i >= b.len() {
        None
    } else if b[i] == 125 && (depth == 0 || (i < now.end && now.is_string)) {
        Some(i)
    } else {
        body_end_from(b, i + 1, depth_past(b[i], depth), now)
    }
}

/// The closing brace that ends the body of a placeholder, which begins at `i`.
pub open spec fn body_end(b: Seq<u8>, i: int) -> Option<int> {
    body_end_from(b, i, 0, Stretch { end: i, is_string: false })
}

/// How many parentheses are to be closed behind a byte that `depth` were to be
/// closed before.
pub open spec fn depth_past(c: u8, depth: nat) -> nat {
    if c == 40 {
        depth + 1
    } else if c == 41 && depth > 0 {
        (depth - 1) as nat
    } else {
        depth
    }
}

// -- The body of a placeholder --------------------------------------------

/// An ASCII letter or an underscore.
pub open spec fn is_ident_start(c: char) -> bool {
    'A' <= c <= 'Z' || 'a' <= c <= 'z' || c == '_'
}

/// An ASCII identifier.
pub open spec fn is_ident(s: Seq<char>) -> bool {
    &&& s.len() > 0
    &&& is_ident_start(s[0])
    &&& forall|i: int| 0 <= i < s.len() ==> is_ident_start(#[trigger] s[i]) || text::is_digit(s[i])
}

/// Only decimal digits.
pub open spec fn all_digits(s: Seq<char>) -> bool {
    forall|i: int| 0 <= i < s.len() ==> text::is_digit(#[trigger] s[i])
}

/// A trimmed body, parted into what comes before its spread marker and the
/// marker.
pub open spec fn split_marker(t: Seq<char>) -> (Seq<char>, Option<Kleene>) {
    if t.last() == '*' {
        (text::trim_end_spec(t.drop_last()), Some(Kleene::Star))
    } else if t.last() == '+' {
        (text::trim_end_spec(t.drop_last()), Some(Kleene::Plus))
    } else {
        (t, None)
    }
}

/// What a body without its spread marker refers to, or the message that
/// rejects it.
pub open spec fn ident_of(head: Seq<char>) -> Result<IdentView, Seq<char>> {
    if head[0] == '(' {
        if head.last() == ')' {
            Ok(IdentView::Expr(text::trim_spec(head.subrange(1, head.len() - 1))))
        } else {
            Err("mismatched `(` in placeholder; expected `(...)`"@)
        }
    } else if all_digits(head) {
        if text::digits_value(head) <= u16::MAX {
            Ok(IdentView::Positional(text::digits_value(head)))
        } else {
            Err(
                "positional placeholder index `"@ + head + "` is not a valid integer"@,
            )
        }
    } else if is_ident(head) {
        Ok(IdentView::Named(head))
    } else {
        Err(
            "invalid placeholder body `"@ + head
                + "`; expected an integer, identifier, or `(expr)`"@,
        )
    }
}

/// What the text between the braces of a placeholder means, or the message
/// that rejects it.
pub open spec fn body_meaning(body: Seq<char>) -> Result<(IdentView, Option<Kleene>), Seq<char>> {
    let trimmed = text::trim_spec(body);
    let (head, kleene) = split_marker(trimmed);
    if trimmed.len() == 0 {
        Err("empty placeholder `{}`; expected an index, name, or `(expr)`"@)
    } else if head.len() == 0 {
        Err("Kleene marker `*`/`+` requires an expression before it"@)
    } else {
        match ident_of(head) {
            Ok(ident) => Ok((ident, kleene)),
            Err(message) => Err(message),
        }
    }
}

/// The placeholder that the `{` at `i` opens.
pub open spec fn placeholder_at(b: Seq<u8>, i: int) -> Result<PlaceholderView, ParseErrorView> {
    match body_end(b, i + 1) {
        None => Err(error_at(b, i, "unterminated `{` in SQL; expected `}`"@)),
        Some(end) => match body_meaning(decode_utf8(b.subrange(i + 1, end))) {
            Err(message) => Err(error_at(b, i + 1, message)),
            Ok((ident, kleene)) => Ok(
                PlaceholderView { start: i, end: end + 1, ident, kleene },
            ),
        },
    }
}

// -- The whole text -------------------------------------------------------

/// The literal fragment for `text`, if there is any text.
pub open spec fn flush(text: Seq<u8>) -> Seq<FragmentView> {
    if text.len() == 0 {
        seq![]
    } else {
        seq![FragmentView::Literal(decode_utf8(text))]
    }
}

/// `first`, then the fragments of `rest`, if there are no errors in it.
pub open spec fn prepend(
    first: Seq<FragmentView>,
    rest: Result<Seq<FragmentView>, ParseErrorView>,
) -> Result<Seq<FragmentView>, ParseErrorView> {
    match rest {
        Ok(fragments) => Ok(first + fragments),
        Err(e) => Err(e),
    }
}

/// The fragments of a SQL text from `i` on, where `text` is the literal text
/// read since the last fragment.
pub open spec fn fragments_from(b: Seq<u8>, i: int, text: Seq<u8>) -> Result<
    Seq<FragmentView>,
    ParseErrorView,
>
    decreases b.len() - i,
{
    proof {
        lemma_step_advances(b, i);
    }
    if !(0 <= i < b.len()) {
        Ok(flush(text))
    } else {
        match step(b, i) {
            Step::Text(end) => fragments_from(b, end, text + b.subrange(i, end)),
            Step::Escape(brace) => fragments_from(b, i + 2, text.push(brace)),
            Step::Unmatched => Err(
                error_at(b, i, "unmatched `}` in SQL; use `}}` for a literal `}`"@),
            ),
            Step::Open => match placeholder_at(b, i) {
                Err(e) => Err(e),
                Ok(p) => prepend(
                    flush(text).push(FragmentView::Placeholder(p)),
                    fragments_from(b, p.end, seq![]),
                ),
            },
        }
    }
}

/// The fragments of a SQL text, or the first error in it.
pub open spec fn parse_meaning(sql: Seq<char>) -> Result<Seq<FragmentView>, ParseErrorView> {
    fragments_from(encode_utf8(sql), 0, seq![])
}

/// Is there a placeholder among the fragments?
pub open spec fn has_placeholder(fragments: Seq<FragmentView>) -> bool {
    exists|i: int| 0 <= i < fragments.len() && (#[trigger] fragments[i]) is Placeholder
}

// -- Error contexts -------------------------------------------------------

/// How many words an error context shows on each side of the error position.
pub const NUM_CONTEXT_WORDS: usize = 3;

/// ASCII white space: space, tab, line feed, form feed, carriage return.
pub open spec fn is_ascii_space(c: u8) -> bool {
    c == 32 || c == 9 || c == 10 || c == 12 || c == 13
}

/// The first ASCII white space at or after `i`, or the end of the input.
pub open spec fn word_end(b: Seq<u8>, i: int) -> int
    decreases b.len() - i,
{
    if i >= b.len() || is_ascii_space(b[i]) {
        i
    } else {
        word_end(b, i + 1)
    }
}

/// The words from `i` on: the longest runs without ASCII white space, as
/// pairs of start and end.
pub open spec fn words_from(b: Seq<u8>, i: int) -> Seq<(int, int)>
    decreases b.len() - i,
{
    proof {
        lemma_word_end(b, i);
    }
    if i >= b.len() {
        seq![]
    } else if is_ascii_space(b[i]) {
        words_from(b, i + 1)
    } else {
        seq![(i, word_end(b, i))] + words_from(b, word_end(b, i))
    }
}

/// The index of the last word that starts at or before `position`, or 0.
pub open spec fn target_word(words: Seq<(int, int)>, position: int) -> int
    decreases words.len(),
{
    if words.len() == 0 {
        0
    } else if words.last().0 <= position {
        words.len() - 1
    } else {
        target_word(words.drop_last(), position)
    }
}

/// The words of `s` between white space.
pub open spec fn split_white_space(s: Seq<char>) -> Seq<Seq<char>>
    decreases s.len(),
{
    if s.len() == 0 {
        seq![]
    } else {
        let before = split_white_space(s.drop_last());
        if text::is_white_space(s.last()) {
            before
        } else if s.len() > 1 && !text::is_white_space(s[s.len() - 2]) {
            before.drop_last().push(before.last().push(s.last()))
        } else {
            before.push(seq![s.last()])
        }
    }
}

/// The given words, with one space between each two.
pub open spec fn join_with_space(words: Seq<Seq<char>>) -> Seq<char>
    decreases words.len(),
{
    if words.len() == 0 {
        seq![]
    } else if words.len() == 1 {
        words[0]
    } else {
        join_with_space(words.drop_last()).push(' ') + words.last()
    }
}

/// The bytes from the start of the first to the end of the last word that
/// lies within `NUM_CONTEXT_WORDS` words of `position`.
pub open spec fn context_range(words: Seq<(int, int)>, position: int) -> (int, int) {
    let target = target_word(words, position);
    let lo = if target < NUM_CONTEXT_WORDS {
        0
    } else {
        target - NUM_CONTEXT_WORDS
    };
    let hi = if target + NUM_CONTEXT_WORDS + 1 < words.len() {
        target + NUM_CONTEXT_WORDS + 1
    } else {
        words.len() as int
    };
    (words[lo].0, words[hi - 1].1)
}

/// A snippet of the SQL text around `position`, on one line.
pub open spec fn context_at(b: Seq<u8>, position: int) -> Seq<char> {
    let words = words_from(b, 0);
    if words.len() == 0 {
        seq![]
    } else {
        let (start, end) = context_range(words, position);
        join_with_space(split_white_space(decode_utf8(b.subrange(start, end))))
    }
}

/// The error with `message` at `position`.
pub open spec fn error_at(b: Seq<u8>, position: int, message: Seq<char>) -> ParseErrorView {
    ParseErrorView { byte_position: position, message, context: context_at(b, position) }
}

/// Nothing, then the rest.
pub proof fn lemma_prepend_nothing(rest: Result<Seq<FragmentView>, ParseErrorView>)
    ensures
        prepend(seq![], rest) == rest,
{
    if let Ok(fragments) = rest {
        assert(seq![] + fragments =~= fragments);
    }
}

/// Two prefixes are one.
pub proof fn lemma_prepend_prepend(
    first: Seq<FragmentView>,
    second: Seq<FragmentView>,
    rest: Result<Seq<FragmentView>, ParseErrorView>,
)
    ensures
        prepend(first, prepend(second, rest)) == prepend(first + second, rest),
{
    if let Ok(fragments) = rest {
        assert(first + (second + fragments) =~= (first + second) + fragments);
    }
}

/// A placeholder is in one of the two parts.
pub proof fn lemma_has_placeholder_concat(first: Seq<FragmentView>, second: Seq<FragmentView>)
    ensures
        has_placeholder(first + second) == (has_placeholder(first) || has_placeholder(second)),
{
    let both = first + second;
    if has_placeholder(first) {
        let i = choose|i: int| 0 <= i < first.len() && (#[trigger] first[i]) is Placeholder;
        assert(both[i] is Placeholder);
    }
    if has_placeholder(second) {
        let i = choose|i: int| 0 <= i < second.len() && (#[trigger] second[i]) is Placeholder;
        assert(both[first.len() + i] is Placeholder);
    }
    if has_placeholder(both) {
        let i = choose|i: int| 0 <= i < both.len() && (#[trigger] both[i]) is Placeholder;
        if i < first.len() {
            assert(first[i] is Placeholder);
        } else {
            assert(second[i - first.len()] is Placeholder);
        }
    }
}

/// Joining one more word.
pub proof fn lemma_join_push(words: Seq<Seq<char>>, w: Seq<char>)
    ensures
        join_with_space(words.push(w)) == if words.len() == 0 {
            w
        } else {
            join_with_space(words).push(' ') + w
        },
{
    assert(words.push(w).drop_last() =~= words);
}

/// Joining words of which the last has grown.
pub proof fn lemma_join_grow(words: Seq<Seq<char>>, c: char)
    requires
        words.len() > 0,
    ensures
        join_with_space(words.drop_last().push(words.last().push(c))) == join_with_space(
            words,
        ).push(c),
{
    lemma_join_push(words.drop_last(), words.last().push(c));
    assert(words.drop_last().push(words.last()) =~= words);
    lemma_join_push(words.drop_last(), words.last());
    assert(join_with_space(words.drop_last().push(words.last().push(c))) =~= join_with_space(
        words,
    ).push(c));
}

// -- Bounds of the positions above ----------------------------------------

pub proof fn lemma_quote_end(b: Seq<u8>, i: int, quote: u8)
    ensures
        i <= quote_end(b, i, quote),
        i <= b.len() ==> quote_end(b, i, quote) <= b.len(),
    decreases b.len() - i,
{
    if i < b.len() {
        if b[i] != quote {
            lemma_quote_end(b, i + 1, quote);
        } else if at(b, i + 1, quote) {
            lemma_quote_end(b, i + 2, quote);
        }
    }
}

pub proof fn lemma_line_end(b: Seq<u8>, i: int)
    ensures
        i <= line_end(b, i),
        i <= b.len() ==> line_end(b, i) <= b.len(),
    decreases b.len() - i,
{
    if i < b.len() && b[i] != 10 {
        lemma_line_end(b, i + 1);
    }
}

pub proof fn lemma_block_comment_end(b: Seq<u8>, i: int, depth: nat)
    ensures
        i <= block_comment_end(b, i, depth),
        i <= b.len() ==> block_comment_end(b, i, depth) <= b.len(),
    decreases b.len() - i,
{
    if i < b.len() && depth > 0 {
        if b[i] == 47 && at(b, i + 1, 42) {
            lemma_block_comment_end(b, i + 2, depth + 1);
        } else if b[i] == 42 && at(b, i + 1, 47) {
            lemma_block_comment_end(b, i + 2, (depth - 1) as nat);
        } else {
            lemma_block_comment_end(b, i + 1, depth);
        }
    }
}

pub proof fn lemma_tag_run_end(b: Seq<u8>, i: int)
    ensures
        i <= tag_run_end(b, i),
        0 <= i <= b.len() ==> tag_run_end(b, i) <= b.len(),
    decreases b.len() - i,
{
    if 0 <= i < b.len() && is_tag_byte(b[i]) {
        lemma_tag_run_end(b, i + 1);
    }
}

pub proof fn lemma_past_tag(b: Seq<u8>, tag: Seq<u8>, i: int)
    requires
        i <= b.len(),
    ensures
        i <= past_tag(b, tag, i) <= b.len(),
    decreases b.len() - i,
{
    if i < b.len() && i + tag.len() <= b.len() && b.subrange(i, i + tag.len()) != tag {
        lemma_past_tag(b, tag, i + 1);
    }
}

proof fn lemma_body_end_from(b: Seq<u8>, i: int, depth: nat, last: Stretch)
    ensures
        body_end_from(b, i, depth, last) matches Some(end) ==> i <= end < b.len() && b[end] == 125,
    decreases b.len() - i,
{
    if i < b.len() {
        let now = stretch_over(b, i, last);
        lemma_body_end_from(b, i + 1, depth_past(b[i], depth), now);
    }
}

pub proof fn lemma_body_end(b: Seq<u8>, i: int)
    ensures
        body_end(b, i) matches Some(end) ==> i <= end < b.len() && b[end] == 125,
{
    lemma_body_end_from(b, i, 0, Stretch { end: i, is_string: false });
}

pub proof fn lemma_word_end(b: Seq<u8>, i: int)
    ensures
        i <= word_end(b, i),
        i < b.len() && !is_ascii_space(b[i]) ==> i < word_end(b, i),
        i <= b.len() ==> word_end(b, i) <= b.len(),
    decreases b.len() - i,
{
    if i < b.len() && !is_ascii_space(b[i]) {
        lemma_word_end(b, i + 1);
    }
}

/// Every step moves on, and stays within the text.
pub proof fn lemma_step_advances(b: Seq<u8>, i: int)
    ensures
        0 <= i < b.len() ==> (step(b, i) matches Step::Text(end) ==> i < end <= b.len()),
        0 <= i < b.len() ==> (step(b, i) is Escape ==> i + 2 <= b.len()),
        0 <= i < b.len() ==> (placeholder_at(b, i) matches Ok(p) ==> i < p.end <= b.len()),
{
    lemma_quote_end(b, i + 1, b[i]);
    lemma_line_end(b, i + 2);
    lemma_block_comment_end(b, i + 2, 1);
    lemma_tag_run_end(b, i + 2);
    let e = tag_end(b, i);
    if at(b, e, 36) {
        lemma_past_tag(b, b.subrange(i, e + 1), e + 1);
    }
    lemma_body_end(b, i + 1);
}

} // verus!
