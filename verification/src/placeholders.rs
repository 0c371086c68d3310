//! SQL placeholder lexer for the generalized `{...}` interpolation syntax.
//!
//! Recognizes:
//!
//! - `{0}` — explicit positional, refers to a bind argument by zero-based index.
//! - `{name}` — named placeholder.
//! - `{(expr)}` — arbitrary parenthesized expression (used by the `query!` macro
//!   to evaluate Rust expressions; rejected at runtime).
//! - `{N+}`, `{name+}`, `{(expr)+}` — Kleene plus: spread an iterable, expanding
//!   to a comma-separated list of placeholders. An empty iterable expands to
//!   `NULL`.
//! - `{N*}`, `{name*}`, `{(expr)*}` — Kleene star: same as `+`, but an empty
//!   iterable expands to nothing (the surrounding SQL is the user's
//!   responsibility to make valid).
//! - `{{` / `}}` — escapes for literal `{` / `}`.
//!
//! Inside SQL string literals (`'...'`, `"..."`), line and block comments
//! (with nested block-comment support), and Postgres dollar-quoted blocks
//! (`$tag$ ... $tag$`), `{` is not interpreted. Only doubled-quote string
//! escapes (`''`, `""`) are recognized; backslash escapes (Postgres E-strings,
//! MySQL with default settings) are not.
//!
//! `{(expr)}` body parsing tracks paren depth to allow `{(foo(1, 2).bar)}`, but
//! does not skip string literals inside the body: `{(foo("a}b"))}` terminates at
//! the inner `}`. Such an expression should be extracted into a `let` binding
//! first.
//!
//! What all of this means exactly is written down in [`crate::grammar`].
use crate::grammar;
use crate::grammar::{FragmentView, IdentView, ParseErrorView, PlaceholderView, NUM_CONTEXT_WORDS};
use crate::text;
use crate::text::{byte_slice, push_decimal};
use std::borrow::Cow;
use std::ops::Range;
use vstd::prelude::*;
use vstd::string::*;
use vstd::utf8::*;

verus! {

/// What a spread placeholder makes of an empty iterable.
#[derive(Debug, Clone, Copy, PartialEq, Eq, Structural)]
#[non_exhaustive]
pub enum Kleene {
    /// `*` — empty iterable expands to nothing.
    Star,
    /// `+` — empty iterable expands to `NULL`.
    Plus,
}

/// What a placeholder refers to.
#[derive(Debug)]
#[non_exhaustive]
pub enum Ident<'a> {
    /// Explicit positional, e.g. `{0}`, `{1}`.
    Positional(u16),
    /// Named, e.g. `{name}`.
    Named(Cow<'a, str>),
    /// Arbitrary parenthesized expression, e.g. `{(foo.bar)}`. Stores the
    /// inner text, without the surrounding parens. Resolution of this body
    /// is deferred to the consumer (the `query!` macro parses it as Rust).
    Expr(Cow<'a, str>),
}

impl<'a> View for Ident<'a> {
    type V = IdentView;

    open spec fn view(&self) -> IdentView {
        match self {
            Ident::Positional(i) => IdentView::Positional(*i as nat),
            Ident::Named(name) => IdentView::Named(name@),
            Ident::Expr(text) => IdentView::Expr(text@),
        }
    }
}

impl<'a> Clone for Ident<'a> {
    fn clone(&self) -> (r: Self)
        ensures
            r@ == self@,
    {
        match self {
            Ident::Positional(i) => Ident::Positional(*i),
            Ident::Named(name) => Ident::Named(clone_cow(name)),
            Ident::Expr(text) => Ident::Expr(clone_cow(text)),
        }
    }
}

fn clone_cow<'a>(s: &Cow<'a, str>) -> (r: Cow<'a, str>)
    ensures
        r@ == s@,
{
    match s {
        Cow::Borrowed(text) => Cow::Borrowed(*text),
        Cow::Owned(text) => Cow::Owned(text.clone()),
    }
}

/// A `{...}` placeholder of a SQL text.
#[derive(Debug)]
#[non_exhaustive]
pub struct Placeholder<'a> {
    /// Byte range in the source SQL spanning the placeholder, including the
    /// `{` and `}` delimiters.
    pub token: Range<usize>,
    pub ident: Ident<'a>,
    pub kleene: Option<Kleene>,
}

impl<'a> View for Placeholder<'a> {
    type V = PlaceholderView;

    open spec fn view(&self) -> PlaceholderView {
        PlaceholderView {
            start: self.token.start as int,
            end: self.token.end as int,
            ident: self.ident@,
            kleene: self.kleene,
        }
    }
}

impl<'a> Clone for Placeholder<'a> {
    fn clone(&self) -> (r: Self)
        ensures
            r@ == self@,
    {
        Placeholder {
            token: self.token.start..self.token.end,
            ident: self.ident.clone(),
            kleene: self.kleene,
        }
    }
}

/// A piece of a parsed SQL text.
#[derive(Debug)]
#[non_exhaustive]
pub enum Fragment<'a> {
    Literal(String),
    Placeholder(Placeholder<'a>),
}

impl<'a> View for Fragment<'a> {
    type V = FragmentView;

    open spec fn view(&self) -> FragmentView {
        match self {
            Fragment::Literal(s) => FragmentView::Literal(s@),
            Fragment::Placeholder(p) => FragmentView::Placeholder(p@),
        }
    }
}

impl<'a> Clone for Fragment<'a> {
    fn clone(&self) -> (r: Self)
        ensures
            r@ == self@,
    {
        match self {
            Fragment::Literal(s) => Fragment::Literal(s.clone()),
            Fragment::Placeholder(p) => Fragment::Placeholder(p.clone()),
        }
    }
}

/// The fragments, each by its view.
pub open spec fn fragment_views(fragments: Seq<Fragment<'_>>) -> Seq<FragmentView> {
    Seq::new(fragments.len(), |i: int| fragments[i]@)
}

/// A SQL text, cut at its placeholders.
#[derive(Debug)]
#[non_exhaustive]
pub struct ParsedQuery<'a> {
    pub fragments: Vec<Fragment<'a>>,
    /// `false` if the SQL contained no `{...}` placeholders. Callers may use
    /// this to take a fast path that avoids allocating a rewritten SQL string.
    pub had_placeholder: bool,
}

impl<'a> View for ParsedQuery<'a> {
    type V = Seq<FragmentView>;

    open spec fn view(&self) -> Seq<FragmentView> {
        fragment_views(self.fragments@)
    }
}

impl<'a> ParsedQuery<'a> {
    /// `had_placeholder` tells whether there is a placeholder fragment.
    pub open spec fn well_formed(&self) -> bool {
        self.had_placeholder == grammar::has_placeholder(self@)
    }
}

impl<'a> Clone for ParsedQuery<'a> {
    fn clone(&self) -> (r: Self)
        ensures
            r@ == self@,
            r.had_placeholder == self.had_placeholder,
    {
        let mut fragments: Vec<Fragment<'a>> = Vec::new();
        let mut i: usize = 0;
        while i < self.fragments.len()
            invariant
                0 <= i <= self.fragments.len(),
                fragment_views(fragments@) == self@.take(i as int),
            decreases self.fragments.len() - i,
        {
            let f = self.fragments[i].clone();
            let ghost before = fragments@;
            assert(f@ == self@[i as int]);
            fragments.push(f);
            i += 1;
            assert(fragment_views(fragments@) =~= fragment_views(before).push(f@));
            assert(self@.take(i as int) =~= self@.take(i - 1).push(self@[i - 1]));
        }
        assert(self@.take(i as int) =~= self@);
        ParsedQuery { fragments, had_placeholder: self.had_placeholder }
    }
}

/// Why a SQL text was rejected.
#[derive(Debug)]
#[non_exhaustive]
pub struct ParseError {
    pub byte_position: usize,
    pub message: String,
    /// A short snippet of the source SQL around `byte_position` — roughly
    /// `NUM_CONTEXT_WORDS` whitespace-separated tokens on each side, with
    /// internal whitespace runs collapsed to a single space. Empty when the
    /// snippet would be empty (e.g. the SQL itself is empty).
    pub context: String,
}

impl View for ParseError {
    type V = ParseErrorView;

    open spec fn view(&self) -> ParseErrorView {
        ParseErrorView {
            byte_position: self.byte_position as int,
            message: self.message@,
            context: self.context@,
        }
    }
}

impl Clone for ParseError {
    fn clone(&self) -> (r: Self)
        ensures
            r@ == self@,
    {
        ParseError {
            byte_position: self.byte_position,
            message: self.message.clone(),
            context: self.context.clone(),
        }
    }
}

/// How a parse error reads.
pub open spec fn parse_error_text(e: ParseErrorView) -> Seq<char> {
    let head = "error parsing placeholders at byte "@ + text::decimal(e.byte_position as nat)
        + ": "@ + e.message;
    if e.context.len() == 0 {
        head
    } else {
        head + " (near `"@ + e.context + "`)"@
    }
}

impl ParseError {
    /// The error as one line of text.
    pub fn to_string(&self) -> (r: String)
        ensures
            r@ == parse_error_text(self@),
    {
        let mut out = String::new();
        out.append("error parsing placeholders at byte ");
        push_decimal(&mut out, self.byte_position);
        out.append(": ");
        out.append(self.message.as_str());
        if !self.context.as_str().is_empty() {
            out.append(" (near `");
            out.append(self.context.as_str());
            out.append("`)");
        }
        out
    }
}

// -- Skipped regions ------------------------------------------------------

/// Is the byte at `i` there, and equal to `c`?
fn byte_is(bytes: &[u8], i: usize, c: u8) -> (r: bool)
    ensures
        r == grammar::at(bytes@, i as int, c),
{
    i < bytes.len() && bytes[i] == c
}

/// Advance past a `'...'` or `"..."` string literal; returns the index just past
/// the closing quote. Standard SQL doubled-quote (`''`, `""`) is treated as
/// escape; backslash escapes are not handled (see module docs). Unterminated
/// strings advance to end-of-input — the database will error out when it tries
/// to parse the SQL.
fn skip_string(bytes: &[u8], start: usize, quote: u8) -> (end: usize)
    requires
        start < bytes@.len(),
    ensures
        end == grammar::quote_end(bytes@, start + 1, quote),
        start < end <= bytes@.len(),
{
    let n: usize = bytes.len();
    let mut i: usize = start + 1;
    while i < n
        invariant
            start < i <= n == bytes@.len(),
            grammar::quote_end(bytes@, i as int, quote) == grammar::quote_end(
                bytes@,
                start + 1,
                quote,
            ),
        decreases bytes@.len() - i,
    {
        if bytes[i] == quote {
            if byte_is(bytes, i + 1, quote) {
                i += 2;
            } else {
                return i + 1;
            }
        } else {
            i += 1;
        }
    }
    i
}

/// Advance past a `--` comment, to the line feed that ends it.
fn skip_line_comment(bytes: &[u8], start: usize) -> (end: usize)
    requires
        start + 2 <= bytes@.len(),
    ensures
        end == grammar::line_end(bytes@, start + 2),
        start < end <= bytes@.len(),
{
    let n: usize = bytes.len();
    let mut i: usize = start + 2;
    while i < n && bytes[i] != 10
        invariant
            start < i <= n == bytes@.len(),
            grammar::line_end(bytes@, i as int) == grammar::line_end(bytes@, start + 2),
        decreases bytes@.len() - i,
    {
        i += 1;
    }
    i
}

/// Advance past a block comment and all comments nested in it.
fn skip_block_comment(bytes: &[u8], start: usize) -> (end: usize)
    requires
        start + 2 <= bytes@.len(),
    ensures
        end == grammar::block_comment_end(bytes@, start + 2, 1),
        start < end <= bytes@.len(),
{
    let n: usize = bytes.len();
    let mut i: usize = start + 2;
    let mut depth: usize = 1;
    while i < n && depth > 0
        invariant
            start < i <= n == bytes@.len(),
            depth <= i,
            grammar::block_comment_end(bytes@, i as int, depth as nat)
                == grammar::block_comment_end(bytes@, start + 2, 1),
        decreases bytes@.len() - i,
    {
        if bytes[i] == 47 && byte_is(bytes, i + 1, 42) {
            depth += 1;
            i += 2;
        } else if bytes[i] == 42 && byte_is(bytes, i + 1, 47) {
            depth -= 1;
            i += 2;
        } else {
            i += 1;
        }
    }
    i
}

/// An ASCII letter or an underscore.
fn is_tag_start(c: u8) -> (r: bool)
    ensures
        r == grammar::is_tag_start(c),
{
    (65 <= c && c <= 90) || (97 <= c && c <= 122) || c == 95
}

/// Does `bytes` hold the same bytes at `i` as at `tag_start`, over `len` bytes?
fn same_bytes(bytes: &[u8], i: usize, tag_start: usize, len: usize) -> (r: bool)
    requires
        i + len <= bytes@.len(),
        tag_start + len <= bytes@.len(),
    ensures
        r == (bytes@.subrange(i as int, i + len) == bytes@.subrange(
            tag_start as int,
            tag_start + len,
        )),
{
    let n: usize = bytes.len();
    let mut k: usize = 0;
    while k < len
        invariant
            n == bytes@.len(),
            i + len <= bytes@.len(),
            tag_start + len <= bytes@.len(),
            k <= len,
            forall|j: int|
                0 <= j < k ==> #[trigger] bytes@.subrange(i as int, i + len)[j] == bytes@.subrange(
                    tag_start as int,
                    tag_start + len,
                )[j],
        decreases len - k,
    {
        if bytes[i + k] != bytes[tag_start + k] {
            assert(bytes@.subrange(i as int, i + len)[k as int] != bytes@.subrange(
                tag_start as int,
                tag_start + len,
            )[k as int]);
            return false;
        }
        k += 1;
    }
    assert(bytes@.subrange(i as int, i + len) =~= bytes@.subrange(
        tag_start as int,
        tag_start + len,
    ));
    true
}

/// If `bytes[start]` opens a Postgres dollar-quoted string, returns the index
/// just past the matching close. Otherwise returns `None` and the caller
/// should treat the `$` as a regular literal byte.
fn try_skip_dollar_quote(bytes: &[u8], start: usize) -> (r: Option<usize>)
    requires
        start < bytes@.len(),
        bytes@[start as int] == 36,
    ensures
        match r {
            Some(end) => grammar::dollar_quote_end(bytes@, start as int) == Some(end as int)
                && start < end <= bytes@.len(),
            None => grammar::dollar_quote_end(bytes@, start as int) is None,
        },
{
    // Tag is `[A-Za-z_][A-Za-z0-9_]*`, possibly empty (so `$$` is a valid open).
    let n: usize = bytes.len();
    let mut tag_end: usize = start + 1;
    if tag_end < n && is_tag_start(bytes[tag_end]) {
        tag_end += 1;
        while tag_end < n && (is_tag_start(bytes[tag_end]) || (48 <= bytes[tag_end]
            && bytes[tag_end] <= 57))
            invariant
                start < tag_end <= n == bytes@.len(),
                grammar::tag_run_end(bytes@, tag_end as int) == grammar::tag_run_end(
                    bytes@,
                    start + 2,
                ),
            decreases bytes@.len() - tag_end,
        {
            tag_end += 1;
        }
    }
    assert(tag_end == grammar::tag_end(bytes@, start as int));
    if !byte_is(bytes, tag_end, 36) {
        return None;
    }
    let len: usize = tag_end + 1 - start;
    let ghost tag = bytes@.subrange(start as int, tag_end + 1);
    let mut i: usize = tag_end + 1;
    while i < n && len <= n - i
        invariant
            start < tag_end < i <= n == bytes@.len(),
            len == tag_end + 1 - start,
            tag == bytes@.subrange(start as int, start + len),
            grammar::tag_end(bytes@, start as int) == tag_end,
            grammar::at(bytes@, tag_end as int, 36),
            grammar::past_tag(bytes@, tag, i as int) == grammar::past_tag(bytes@, tag, tag_end + 1),
        decreases bytes@.len() - i,
    {
        if same_bytes(bytes, i, start, len) {
            return Some(i + len);
        }
        i += 1;
    }
    Some(n)
}

// -- The body of a placeholder --------------------------------------------

/// Only decimal digits?
fn all_digits(s: &str) -> (r: bool)
    ensures
        r == grammar::all_digits(s@),
{
    for c in it: s.chars()
        invariant
            it.seq() == s@,
            forall|j: int| 0 <= j < it.index() ==> text::is_digit(#[trigger] s@[j]),
    {
        if !('0' <= c && c <= '9') {
            assert(!text::is_digit(s@[it.index() as int]));
            return false;
        }
    }
    true
}

/// ASCII-only identifier check, matching `proc_macro2::Ident::new`'s constraints.
pub fn is_ascii_ident(s: &str) -> (r: bool)
    ensures
        r == grammar::is_ident(s@),
{
    let mut first: bool = true;
    for c in it: s.chars()
        invariant
            it.seq() == s@,
            first == (it.index() == 0),
            !first ==> grammar::is_ident_start(s@[0]),
            forall|j: int|
                0 <= j < it.index() ==> grammar::is_ident_start(#[trigger] s@[j]) || text::is_digit(
                    s@[j],
                ),
    {
        let start: bool = ('A' <= c && c <= 'Z') || ('a' <= c && c <= 'z') || c == '_';
        let digit: bool = '0' <= c && c <= '9';
        if !start && (first || !digit) {
            assert(!grammar::is_ident_start(s@[it.index() as int]));
            return false;
        }
        first = false;
    }
    !first
}

/// The number that decimal digits denote, if it fits.
fn parse_index(s: &str) -> (r: Option<u16>)
    requires
        grammar::all_digits(s@),
    ensures
        match r {
            Some(n) => n == text::digits_value(s@),
            None => text::digits_value(s@) > u16::MAX,
        },
{
    let mut value: u32 = 0;
    for c in it: s.chars()
        invariant
            it.seq() == s@,
            grammar::all_digits(s@),
            value <= u16::MAX,
            value == text::digits_value(s@.take(it.index() as int)),
    {
        proof {
            let i = it.index() as int;
            assert(text::is_digit(s@[i]));
            assert(s@.take(i + 1).drop_last() =~= s@.take(i));
            text::lemma_digits_value_prefix(s@, i + 1);
        }
        value = value * 10 + (c as u32 - 48);
        if value > 65535 {
            return None;
        }
    }
    assert(s@.take(s@.len() as int) =~= s@);
    Some(value as u16)
}

// -- Errors ---------------------------------------------------------------

fn err(sql: &str, byte_position: usize, message: String) -> (r: ParseError)
    ensures
        r@ == grammar::error_at(sql.spec_bytes(), byte_position as int, message@),
{
    ParseError { byte_position, message, context: error_context(sql, byte_position) }
}

/// The words of `s`, with one space between each two.
fn collapse_white_space(s: &str) -> (r: String)
    ensures
        r@ == grammar::join_with_space(grammar::split_white_space(s@)),
{
    let mut out = String::new();
    let mut any: bool = false;
    let mut in_word: bool = false;
    assert(s@.take(0) =~= seq![]);
    for c in it: s.chars()
        invariant
            it.seq() == s@,
            in_word == (it.index() > 0 && !text::is_white_space(s@[it.index() - 1])),
            any == (grammar::split_white_space(s@.take(it.index() as int)).len() > 0),
            in_word ==> any,
            out@ == grammar::join_with_space(
                grammar::split_white_space(s@.take(it.index() as int)),
            ),
    {
        let ghost i = it.index() as int;
        let ghost before = grammar::split_white_space(s@.take(i));
        assert(s@.take(i + 1).drop_last() =~= s@.take(i));
        if c.is_whitespace() {
            in_word = false;
        } else {
            if in_word {
                proof {
                    grammar::lemma_join_grow(before, c);
                }
            } else {
                if any {
                    out.push(' ');
                }
                proof {
                    grammar::lemma_join_push(before, seq![c]);
                }
            }
            out.push(c);
            in_word = true;
            any = true;
        }
    }
    assert(s@.take(s@.len() as int) =~= s@);
    out
}

/// The word boundaries, as mathematical integers.
spec fn word_views(words: Seq<(usize, usize)>) -> Seq<(int, int)> {
    Seq::new(words.len(), |i: int| (words[i].0 as int, words[i].1 as int))
}

/// ASCII white space: space, tab, line feed, form feed, carriage return.
fn is_ascii_space(c: u8) -> (r: bool)
    ensures
        r == grammar::is_ascii_space(c),
{
    c == 32 || c == 9 || c == 10 || c == 12 || c == 13
}

/// Each whitespace-separated run of `sql` as `(start_byte, end_byte)`. ASCII
/// whitespace doesn't appear inside multi-byte UTF-8 sequences, so word
/// boundaries always land on char boundaries.
fn words_of(sql: &str) -> (words: Vec<(usize, usize)>)
    ensures
        word_views(words@) == grammar::words_from(sql.spec_bytes(), 0),
        forall|k: int|
            #![trigger words@[k]]
            0 <= k < words@.len() ==> is_char_boundary(sql.spec_bytes(), words@[k].0 as int)
                && is_char_boundary(sql.spec_bytes(), words@[k].1 as int) && words@[k].0
                < words@[k].1 <= sql.spec_bytes().len(),
        forall|j: int, k: int|
            0 <= j < k < words@.len() ==> (#[trigger] words@[j]).1 <= (#[trigger] words@[k]).0,
{
    let bytes = sql.as_bytes();
    let n: usize = bytes.len();
    let mut words: Vec<(usize, usize)> = Vec::new();
    let mut i: usize = 0;
    proof {
        encode_utf8_valid_utf8(sql@);
        is_char_boundary_start_end_of_seq(bytes@);
        assert(word_views(words@) + grammar::words_from(bytes@, 0) =~= grammar::words_from(
            bytes@,
            0,
        ));
    }
    while i < n
        invariant
            bytes@ == sql.spec_bytes(),
            valid_utf8(bytes@),
            i <= n == bytes@.len(),
            is_char_boundary(bytes@, i as int),
            grammar::words_from(bytes@, 0) == word_views(words@) + grammar::words_from(
                bytes@,
                i as int,
            ),
            forall|k: int|
                #![trigger words@[k]]
                0 <= k < words@.len() ==> is_char_boundary(bytes@, words@[k].0 as int)
                    && is_char_boundary(bytes@, words@[k].1 as int) && words@[k].0 < words@[k].1
                    <= i,
            forall|j: int, k: int|
                0 <= j < k < words@.len() ==> (#[trigger] words@[j]).1 <= (#[trigger] words@[k]).0,
        decreases n - i,
    {
        if is_ascii_space(bytes[i]) {
            proof {
                text::lemma_ascii_boundaries(bytes@, i as int);
            }
            i += 1;
        } else {
            let start: usize = i;
            while i < n && !is_ascii_space(bytes[i])
                invariant
                    start <= i <= n == bytes@.len(),
                    grammar::word_end(bytes@, i as int) == grammar::word_end(
                        bytes@,
                        start as int,
                    ),
                decreases n - i,
            {
                i += 1;
            }
            proof {
                grammar::lemma_word_end(bytes@, start as int);
                if i < n {
                    text::lemma_ascii_boundaries(bytes@, i as int);
                } else {
                    is_char_boundary_start_end_of_seq(bytes@);
                }
            }
            let ghost before = words@;
            words.push((start, i));
            assert(word_views(before) + grammar::words_from(bytes@, start as int) =~= word_views(
                words@,
            ) + grammar::words_from(bytes@, i as int));
        }
    }
    assert(word_views(words@) + grammar::words_from(bytes@, n as int) =~= word_views(words@));
    words
}

/// Walk `sql` outward from `byte_position`, returning a snippet covering
/// roughly `NUM_CONTEXT_WORDS` whitespace-separated tokens on each side.
/// Internal whitespace runs are collapsed to a single space so the snippet
/// fits cleanly on one line.
pub fn error_context(sql: &str, byte_position: usize) -> (r: String)
    ensures
        r@ == grammar::context_at(sql.spec_bytes(), byte_position as int),
{
    let words = words_of(sql);
    let ghost views = word_views(words@);
    if words.len() == 0 {
        return String::new();
    }
    // Pick the word at or before `byte_position`; before any word, fall back
    // to the first.
    let mut target: usize = words.len() - 1;
    assert(views.take(views.len() as int) =~= views);
    while target > 0 && words[target].0 > byte_position
        invariant
            target < words@.len(),
            views == word_views(words@),
            grammar::target_word(views, byte_position as int) == grammar::target_word(
                views.take(target + 1),
                byte_position as int,
            ),
        decreases target,
    {
        assert(views.take(target + 1).drop_last() =~= views.take(target as int));
        target -= 1;
    }
    assert(grammar::target_word(views, byte_position as int) == target) by {
        assert(views.take(target + 1).last() == views[target as int]);
        if target == 0 {
            reveal_with_fuel(grammar::target_word, 2);
            assert(views.take(1).drop_last() =~= seq![]);
        }
    }
    let lo: usize = if target < NUM_CONTEXT_WORDS {
        0
    } else {
        target - NUM_CONTEXT_WORDS
    };
    let hi: usize = if words.len() - target > NUM_CONTEXT_WORDS + 1 {
        target + NUM_CONTEXT_WORDS + 1
    } else {
        words.len()
    };
    let start_byte: usize = words[lo].0;
    let end_byte: usize = words[hi - 1].1;
    assert(start_byte <= end_byte) by {
        if lo < hi - 1 {
            assert(words@[lo as int].1 <= words@[hi - 1].0);
        }
    }
    collapse_white_space(byte_slice(sql, start_byte, end_byte))
}

// -- The parser -----------------------------------------------------------

/// What the text between the braces of a placeholder refers to. `body_start` is
/// where it stands in `sql`, for errors.
pub fn parse_body<'a>(sql: &str, body: &'a str, body_start: usize) -> (r: Result<
    (Ident<'a>, Option<Kleene>),
    ParseError,
>)
    ensures
        match r {
            Ok((ident, kleene)) => grammar::body_meaning(body@) == Ok::<_, Seq<char>>(
                (ident@, kleene),
            ),
            Err(e) => grammar::body_meaning(body@) matches Err(message) && e@ == grammar::error_at(
                sql.spec_bytes(),
                body_start as int,
                message,
            ),
        },
{
    let trimmed = body.trim();
    if trimmed.is_empty() {
        return Err(
            err(
                sql,
                body_start,
                "empty placeholder `{}`; expected an index, name, or `(expr)`".to_owned(),
            ),
        );
    }
    let n: usize = trimmed.unicode_len();
    let last: char = trimmed.get_char(n - 1);
    let (head, kleene) = if last == '*' || last == '+' {
        let rest = trimmed.substring_char(0, n - 1);
        assert(rest@ =~= trimmed@.drop_last());
        (
            rest.trim_end(),
            Some(
                if last == '*' {
                    Kleene::Star
                } else {
                    Kleene::Plus
                },
            ),
        )
    } else {
        (trimmed, None)
    };
    assert((head@, kleene) == grammar::split_marker(trimmed@));
    if head.is_empty() {
        return Err(
            err(
                sql,
                body_start,
                "Kleene marker `*`/`+` requires an expression before it".to_owned(),
            ),
        );
    }
    let head_len: usize = head.unicode_len();
    if head.get_char(0) == '(' {
        if head.get_char(head_len - 1) != ')' {
            return Err(
                err(
                    sql,
                    body_start,
                    "mismatched `(` in placeholder; expected `(...)`".to_owned(),
                ),
            );
        }
        let inner = head.substring_char(1, head_len - 1).trim();
        return Ok((Ident::Expr(Cow::Borrowed(inner)), kleene));
    }
    if all_digits(head) {
        return match parse_index(head) {
            Some(idx) => Ok((Ident::Positional(idx), kleene)),
            None => {
                let mut message = "positional placeholder index `".to_owned();
                message.append(head);
                message.append("` is not a valid integer");
                Err(err(sql, body_start, message))
            },
        };
    }
    if !is_ascii_ident(head) {
        let mut message = "invalid placeholder body `".to_owned();
        message.append(head);
        message.append("`; expected an integer, identifier, or `(expr)`");
        return Err(err(sql, body_start, message));
    }
    Ok((Ident::Named(Cow::Borrowed(head)), kleene))
}

/// The first `c` at or after `start`.
fn find_byte(bytes: &[u8], start: usize, c: u8) -> (r: Option<usize>)
    ensures
        match r {
            Some(i) => i < bytes@.len() && grammar::find_byte(bytes@, start as int, c) == Some(
                i as int,
            ),
            None => grammar::find_byte(bytes@, start as int, c) is None,
        },
{
    let n: usize = bytes.len();
    let mut i: usize = start;
    while i < n
        invariant
            n == bytes@.len(),
            grammar::find_byte(bytes@, i as int, c) == grammar::find_byte(bytes@, start as int, c),
        decreases n - i,
    {
        if bytes[i] == c {
            return Some(i);
        }
        i += 1;
    }
    None
}

/// Just past a Rust string literal, with what follows its opening quote at
/// `start`.
fn rust_string_end(bytes: &[u8], start: usize) -> (r: Option<usize>)
    ensures
        match r {
            Some(end) => end <= bytes@.len() && grammar::rust_string_end(bytes@, start as int)
                == Some(end as int),
            None => grammar::rust_string_end(bytes@, start as int) is None,
        },
{
    let n: usize = bytes.len();
    let mut i: usize = start;
    while i < n
        invariant
            n == bytes@.len(),
            grammar::rust_string_end(bytes@, i as int) == grammar::rust_string_end(
                bytes@,
                start as int,
            ),
        decreases n - i,
    {
        if bytes[i] == 34 {
            return Some(i + 1);
        }
        if bytes[i] == 92 && i + 1 < n {
            i += 1;
        }
        i += 1;
    }
    None
}

/// The first position at or after `start` that holds no `#`.
fn hashes_end(bytes: &[u8], start: usize) -> (end: usize)
    requires
        start <= bytes@.len(),
    ensures
        end == grammar::hashes_end(bytes@, start as int),
        start <= end <= bytes@.len(),
{
    let n: usize = bytes.len();
    let mut i: usize = start;
    while i < n && bytes[i] == 35
        invariant
            start <= i <= n == bytes@.len(),
            grammar::hashes_end(bytes@, i as int) == grammar::hashes_end(bytes@, start as int),
        decreases n - i,
    {
        i += 1;
    }
    i
}

/// Just past a raw Rust string literal, with what follows its opening quote at
/// `start`.
fn raw_string_end(bytes: &[u8], start: usize, hashes: usize) -> (r: Option<usize>)
    ensures
        match r {
            Some(end) => end <= bytes@.len() && grammar::raw_string_end(
                bytes@,
                start as int,
                hashes as int,
            ) == Some(end as int),
            None => grammar::raw_string_end(bytes@, start as int, hashes as int) is None,
        },
{
    let n: usize = bytes.len();
    let mut i: usize = start;
    while i < n
        invariant
            n == bytes@.len(),
            grammar::raw_string_end(bytes@, i as int, hashes as int) == grammar::raw_string_end(
                bytes@,
                start as int,
                hashes as int,
            ),
        decreases n - i,
    {
        if bytes[i] == 34 && hashes_end(bytes, i + 1) - (i + 1) >= hashes {
            return Some(i + 1 + hashes);
        }
        i += 1;
    }
    None
}

/// Just past a Rust character literal whose first character is at `start`.
fn char_literal_end(bytes: &[u8], start: usize) -> (r: Option<usize>)
    requires
        start <= bytes@.len(),
    ensures
        match r {
            Some(end) => end <= bytes@.len() && grammar::char_literal_end(bytes@, start as int)
                == Some(end as int),
            None => grammar::char_literal_end(bytes@, start as int) is None,
        },
{
    let n: usize = bytes.len();
    if start == n {
        return None;
    }
    if bytes[start] == 92 {
        if start + 1 == n {
            return None;
        }
        return match find_byte(bytes, start + 2, 39) {
            Some(quote) => Some(quote + 1),
            None => None,
        };
    }
    let mut i: usize = start + 1;
    while i < n && 0x80 <= bytes[i] && bytes[i] < 0xC0
        invariant
            start < i <= n == bytes@.len(),
            grammar::scalar_end(bytes@, i as int) == grammar::scalar_end(bytes@, start + 1),
        decreases n - i,
    {
        i += 1;
    }
    if i < n && bytes[i] == 39 {
        Some(i + 1)
    } else {
        None
    }
}

/// Where the string literal, character literal or comment ends that begins at
/// `i`, and whether it is a string literal; `i` if there is none.
fn stretch_at(bytes: &[u8], i: usize) -> (r: (usize, bool))
    requires
        i < bytes@.len(),
    ensures
        grammar::stretch_at(bytes@, i as int) == (grammar::Stretch {
            end: r.0 as int,
            is_string: r.1,
        }),
        r.0 <= bytes@.len(),
{
    let c: u8 = bytes[i];
    if c == 34 {
        return match rust_string_end(bytes, i + 1) {
            Some(end) => (end, true),
            None => (i, false),
        };
    }
    if c == 114 {
        let hashes: usize = hashes_end(bytes, i + 1);
        if byte_is(bytes, hashes, 34) {
            return match raw_string_end(bytes, hashes + 1, hashes - (i + 1)) {
                Some(end) => (end, true),
                None => (i, false),
            };
        }
    }
    if c == 39 {
        return match char_literal_end(bytes, i + 1) {
            Some(end) => (end, false),
            None => (i, false),
        };
    }
    if c == 47 && byte_is(bytes, i + 1, 47) {
        return (skip_line_comment(bytes, i), false);
    }
    if c == 47 && byte_is(bytes, i + 1, 42) {
        return (skip_block_comment(bytes, i), false);
    }
    (i, false)
}

/// Parse a placeholder body starting at `*i` (which must point at the opening `{`).
/// On return, `*i` points just past the closing `}`, or at the end of the text
/// if there is none.
pub fn parse_placeholder<'a>(sql: &'a str, i: &mut usize) -> (r: Result<
    Placeholder<'a>,
    ParseError,
>)
    requires
        grammar::at(sql.spec_bytes(), *old(i) as int, 123),
    ensures
        match r {
            Ok(p) => grammar::placeholder_at(sql.spec_bytes(), *old(i) as int) == Ok::<
                _,
                ParseErrorView,
            >(p@) && *final(i) == p@.end,
            Err(e) => grammar::placeholder_at(sql.spec_bytes(), *old(i) as int) == Err::<
                PlaceholderView,
                _,
            >(e@),
        },
        *final(i) == match grammar::body_end(sql.spec_bytes(), *old(i) + 1) {
            Some(end) => end + 1,
            None => sql.spec_bytes().len() as int,
        },
{
    let bytes = sql.as_bytes();
    let n: usize = bytes.len();
    let token_start: usize = *i;
    // Body ends at the first `}` at paren depth 0 (so `{(foo(1).bar)}` works), or
    // in a string literal.
    let body_start: usize = token_start + 1;
    let mut end: usize = body_start;
    let mut depth: usize = 0;
    let mut stretch_end: usize = body_start;
    let mut in_string: bool = false;
    while end < n
        invariant
            n == bytes@.len(),
            token_start < body_start <= end <= n,
            depth <= end,
            grammar::body_end_from(
                bytes@,
                end as int,
                depth as nat,
                grammar::Stretch { end: stretch_end as int, is_string: in_string },
            ) == grammar::body_end(bytes@, body_start as int),
        ensures
            token_start < body_start <= end <= n,
            match grammar::body_end(bytes@, body_start as int) {
                Some(at) => at == end && end < n,
                None => end == n,
            },
        decreases n - end,
    {
        if end >= stretch_end {
            let (next_end, is_string) = stretch_at(bytes, end);
            stretch_end = next_end;
            in_string = is_string;
        }
        if bytes[end] == 125 && (depth == 0 || (end < stretch_end && in_string)) {
            break;
        }
        if bytes[end] == 40 {
            depth += 1;
        } else if bytes[end] == 41 && depth > 0 {
            depth -= 1;
        }
        end += 1;
    }
    *i = end;
    if end >= n {
        return Err(err(sql, token_start, "unterminated `{` in SQL; expected `}`".to_owned()));
    }
    proof {
        encode_utf8_valid_utf8(sql@);
        text::lemma_ascii_boundaries(bytes@, token_start as int);
        grammar::lemma_body_end(bytes@, body_start as int);
        text::lemma_ascii_boundaries(bytes@, end as int);
    }
    let body = byte_slice(sql, body_start, end);
    let token_end: usize = end + 1;
    *i = token_end;
    match parse_body(sql, body, body_start) {
        Ok((ident, kleene)) => Ok(Placeholder { token: token_start..token_end, ident, kleene }),
        Err(e) => Err(e),
    }
}

/// The literal text that is read but not yet in a fragment: what was copied
/// out, then the run of the source that was not copied yet.
spec fn pending(bytes: Seq<u8>, current: Seq<char>, run_start: int, i: int) -> Seq<u8> {
    encode_utf8(current) + bytes.subrange(run_start, i)
}

/// Copies the run of `sql` from `run_start` to `i` out to `current`.
fn copy_run(sql: &str, current: &mut String, run_start: usize, i: usize)
    requires
        run_start <= i <= sql.spec_bytes().len(),
        is_char_boundary(sql.spec_bytes(), run_start as int),
        is_char_boundary(sql.spec_bytes(), i as int),
    ensures
        encode_utf8(final(current)@) == pending(
            sql.spec_bytes(),
            old(current)@,
            run_start as int,
            i as int,
        ),
{
    let run = byte_slice(sql, run_start, i);
    proof {
        text::lemma_encode_concat(current@, run@);
    }
    current.append(run);
}

/// Ends the literal fragment that `current` holds, unless it is empty.
fn flush<'a>(fragments: &mut Vec<Fragment<'a>>, current: String)
    ensures
        fragment_views(final(fragments)@) == fragment_views(old(fragments)@) + grammar::flush(
            encode_utf8(current@),
        ),
        grammar::has_placeholder(fragment_views(final(fragments)@)) == grammar::has_placeholder(
            fragment_views(old(fragments)@),
        ),
{
    proof {
        encode_utf8_decode_utf8(current@);
        if current@.len() > 0 {
            encode_utf8_first_scalar(current@);
            assert(encode_utf8(current@).len() > 0);
        }
    }
    let ghost before = fragment_views(fragments@);
    if !current.as_str().is_empty() {
        fragments.push(Fragment::Literal(current));
    }
    assert(fragment_views(fragments@) =~= before + grammar::flush(encode_utf8(current@)));
    proof {
        grammar::lemma_has_placeholder_concat(before, grammar::flush(encode_utf8(current@)));
    }
}

/// Parse a SQL string for `{...}` placeholders.
pub fn parse_query(sql: &str) -> (r: Result<ParsedQuery<'_>, ParseError>)
    ensures
        match r {
            Ok(q) => grammar::parse_meaning(sql@) == Ok::<_, ParseErrorView>(q@)
                && q.well_formed(),
            Err(e) => grammar::parse_meaning(sql@) == Err::<Seq<FragmentView>, _>(e@),
        },
{
    let bytes = sql.as_bytes();
    let n: usize = bytes.len();
    let mut fragments: Vec<Fragment<'_>> = Vec::new();
    let mut had_placeholder: bool = false;
    let mut current = String::new();
    let mut run_start: usize = 0;
    let mut i: usize = 0;
    proof {
        encode_utf8_valid_utf8(sql@);
        is_char_boundary_start_end_of_seq(bytes@);
        assert(pending(bytes@, current@, 0, 0) =~= seq![]);
        grammar::lemma_prepend_nothing(grammar::parse_meaning(sql@));
        assert(fragment_views(fragments@) =~= seq![]);
    }
    while i < n
        invariant
            bytes@ == sql.spec_bytes(),
            valid_utf8(bytes@),
            run_start <= i <= n == bytes@.len(),
            is_char_boundary(bytes@, run_start as int),
            had_placeholder == grammar::has_placeholder(fragment_views(fragments@)),
            grammar::parse_meaning(sql@) == grammar::prepend(
                fragment_views(fragments@),
                grammar::fragments_from(
                    bytes@,
                    i as int,
                    pending(bytes@, current@, run_start as int, i as int),
                ),
            ),
        decreases n - i,
    {
        let c: u8 = bytes[i];
        let ghost text = pending(bytes@, current@, run_start as int, i as int);
        let ghost start = i as int;
        proof {
            grammar::lemma_step_advances(bytes@, i as int);
        }
        if c == 123 || c == 125 {
            proof {
                text::lemma_ascii_boundaries(bytes@, i as int);
            }
            if byte_is(bytes, i + 1, c) {
                copy_run(sql, &mut current, run_start, i);
                proof {
                    text::lemma_ascii_boundaries(bytes@, i + 1);
                    text::lemma_encode_ascii(c);
                    text::lemma_encode_concat(current@, seq![c as char]);
                    assert(current@.push(c as char) =~= current@ + seq![c as char]);
                    assert(text.push(c) =~= encode_utf8(current@.push(c as char))
                        + bytes@.subrange(i + 2, i + 2));
                }
                current.push(c as char);
                i += 2;
                run_start = i;
            } else if c == 125 {
                return Err(
                    err(sql, i, "unmatched `}` in SQL; use `}}` for a literal `}`".to_owned()),
                );
            } else {
                let ghost before = fragment_views(fragments@);
                copy_run(sql, &mut current, run_start, i);
                flush(&mut fragments, current);
                current = String::new();
                match parse_placeholder(sql, &mut i) {
                    Err(e) => {
                        return Err(e);
                    },
                    Ok(placeholder) => {
                        let ghost flushed = fragment_views(fragments@);
                        let ghost p = FragmentView::Placeholder(placeholder@);
                        fragments.push(Fragment::Placeholder(placeholder));
                        had_placeholder = true;
                        run_start = i;
                        proof {
                            assert(fragment_views(fragments@) =~= flushed.push(p));
                            assert(fragment_views(fragments@) =~= before + grammar::flush(
                                text,
                            ).push(p));
                            assert(fragment_views(fragments@)[flushed.len() as int]
                                is Placeholder);
                            grammar::lemma_body_end(bytes@, start + 1);
                            text::lemma_ascii_boundaries(bytes@, i - 1);
                            assert(pending(bytes@, current@, i as int, i as int) =~= seq![]);
                            grammar::lemma_prepend_prepend(
                                before,
                                grammar::flush(text).push(p),
                                grammar::fragments_from(bytes@, i as int, seq![]),
                            );
                        }
                    },
                }
            }
        } else {
            if c == 39 || c == 34 {
                i = skip_string(bytes, i, c);
            } else if c == 45 && byte_is(bytes, i + 1, 45) {
                i = skip_line_comment(bytes, i);
            } else if c == 47 && byte_is(bytes, i + 1, 42) {
                i = skip_block_comment(bytes, i);
            } else if c == 36 {
                match try_skip_dollar_quote(bytes, i) {
                    Some(end) => {
                        i = end;
                    },
                    None => {
                        i += 1;
                    },
                }
            } else {
                i += 1;
            }
            assert(grammar::step(bytes@, start) == grammar::Step::Text(i as int));
            assert(text + bytes@.subrange(start, i as int) =~= pending(
                bytes@,
                current@,
                run_start as int,
                i as int,
            ));
        }
    }
    proof {
        is_char_boundary_start_end_of_seq(bytes@);
    }
    copy_run(sql, &mut current, run_start, n);
    flush(&mut fragments, current);
    Ok(ParsedQuery { fragments, had_placeholder })
}

} // verus!
