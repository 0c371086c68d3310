//! What the `query!()` macros are called with.
use crate::expr;
use crate::expr::{accepts_name, parse_expr_at, parse_lit_str, parse_type_at, Expr, ExprView};
use crate::rewrite;
use crate::text::same_text;
use crate::tokens;
use crate::tokens::{has_joint, has_punct, Delimiter, Token, TokenView};
use std::ops::Range;
use vstd::prelude::*;

verus! {

/// Why the input of a macro is rejected, and where.
#[derive(Debug)]
pub struct InputError {
    pub message: String,
    /// The index of the token at fault; the number of tokens where they end
    /// too soon.
    pub at: usize,
    /// Where that token is an argument list, the index of the token at fault
    /// in the list.
    pub arg_at: Option<usize>,
}

/// An [`InputError`], with its text as a sequence.
pub struct InputErrorView {
    pub message: Seq<char>,
    pub at: int,
    pub arg_at: Option<usize>,
}

impl View for InputError {
    type V = InputErrorView;

    open spec fn view(&self) -> InputErrorView {
        InputErrorView { message: self.message@, at: self.at as int, arg_at: self.arg_at }
    }
}

/// The error with exactly this message at the `i`-th token.
pub open spec fn error_at(message: Seq<char>, i: int) -> InputErrorView {
    InputErrorView { message, at: i, arg_at: None }
}

/// The error with this message at the `i`-th token, which may be missing.
pub open spec fn error_here(ts: Seq<TokenView>, i: int, message: Seq<char>) -> InputErrorView {
    if i < ts.len() {
        error_at(message, i)
    } else {
        error_at("unexpected end of input, "@ + message, i)
    }
}

/// An error in the argument list at the `i`-th token.
pub open spec fn error_in_list(e: InputErrorView, i: int) -> InputErrorView {
    InputErrorView { message: e.message, at: i, arg_at: Some(e.at as usize) }
}

fn fail_at(message: String, i: usize) -> (r: InputError)
    ensures
        r@ == error_at(message@, i as int),
{
    InputError { message, at: i, arg_at: None }
}

fn fail_here(ts: &Vec<Token>, i: usize, message: &str) -> (r: InputError)
    ensures
        r@ == error_here(tokens::token_views(ts@), i as int, message@),
{
    if i < ts.len() {
        fail_at(message.to_owned(), i)
    } else {
        let mut full = "unexpected end of input, ".to_owned();
        full.append(message);
        fail_at(full, i)
    }
}

// -- Argument lists -------------------------------------------------------

/// The tokens that an argument is written with: those from `start` to `end` in
/// the list that is the `list`-th token of the input.
#[derive(Debug, Clone, Copy, PartialEq, Eq, Structural)]
pub struct TokenRange {
    pub list: usize,
    pub start: usize,
    pub end: usize,
}

/// The arguments of a query.
#[derive(Debug)]
pub struct ArgsList {
    /// Positional bind expressions, in order. Empty if all args were named.
    pub positional: Vec<Expr>,
    pub positional_at: Vec<TokenRange>,
    /// Named bind expressions: `name = expr`. Empty if all args were positional.
    pub named: Vec<(String, Expr)>,
    pub named_at: Vec<TokenRange>,
    /// `..rest` argument: when present, every unmatched `{name}` placeholder is
    /// looked up as `rest.name`. To inline-capture a scope-local `name` alongside
    /// `..rest`, name it explicitly: `query!("...", ..rest, name = name)`. Only
    /// one `..rest` per call.
    pub rest: Option<Expr>,
    pub rest_at: Option<TokenRange>,
}

/// An [`ArgsList`], with its expressions by their views.
pub struct ArgsListView {
    pub positional: Seq<ExprView>,
    pub positional_at: Seq<TokenRange>,
    pub named: Seq<(Seq<char>, ExprView)>,
    pub named_at: Seq<TokenRange>,
    pub rest: Option<ExprView>,
    pub rest_at: Option<TokenRange>,
}

impl View for ArgsList {
    type V = ArgsListView;

    open spec fn view(&self) -> ArgsListView {
        ArgsListView {
            positional: expr::expr_views(self.positional@),
            positional_at: self.positional_at@,
            named: rewrite::named_views(self.named@),
            named_at: self.named_at@,
            rest: match self.rest {
                Some(e) => Some(e@),
                None => None,
            },
            rest_at: self.rest_at,
        }
    }
}

/// No arguments.
pub open spec fn no_args() -> ArgsListView {
    ArgsListView {
        positional: seq![],
        positional_at: seq![],
        named: seq![],
        named_at: seq![],
        rest: None,
        rest_at: None,
    }
}

impl ArgsList {
    /// No arguments.
    pub fn new() -> (r: Self)
        ensures
            r@ == no_args(),
    {
        let r = ArgsList {
            positional: Vec::new(),
            positional_at: Vec::new(),
            named: Vec::new(),
            named_at: Vec::new(),
            rest: None,
            rest_at: None,
        };
        assert(r@.positional =~= seq![]);
        assert(r@.named =~= seq![]);
        r
    }
}

/// How an element of an argument list is written.
#[derive(Debug)]
pub enum ElementKind {
    /// `..expr`
    Rest,
    /// `name = expr`
    Named(String),
    /// `expr`
    Positional,
}

/// An [`ElementKind`], with its name as a sequence.
pub enum ElementKindView {
    Rest,
    Named(Seq<char>),
    Positional,
}

impl View for ElementKind {
    type V = ElementKindView;

    open spec fn view(&self) -> ElementKindView {
        match self {
            ElementKind::Rest => ElementKindView::Rest,
            ElementKind::Named(name) => ElementKindView::Named(name@),
            ElementKind::Positional => ElementKindView::Positional,
        }
    }
}

/// How the element at the `i`-th token is written. `a == b` is one positional
/// expression, not `a = (=b)`.
pub open spec fn kind_at(ts: Seq<TokenView>, i: int) -> ElementKindView {
    if tokens::is_joint(ts, i, '.', '.') {
        ElementKindView::Rest
    } else if ts[i] is Ident && expr::is_name(ts[i]->Ident_0) && tokens::is_punct(ts, i + 1, '=')
        && !tokens::is_joint(ts, i + 1, '=', '=') {
        ElementKindView::Named(ts[i]->Ident_0)
    } else {
        ElementKindView::Positional
    }
}

/// The index of the first token of the expression of an element.
pub open spec fn expr_start(kind: ElementKindView, i: int) -> int {
    match kind {
        ElementKindView::Positional => i,
        _ => i + 2,
    }
}

/// The arguments with one more element, whose expression stands at `range`.
pub open spec fn with_element(
    args: ArgsListView,
    kind: ElementKindView,
    e: ExprView,
    range: TokenRange,
) -> Result<ArgsListView, InputErrorView> {
    match kind {
        ElementKindView::Rest => if args.rest is Some {
            Err(error_at("only one `..rest` argument is allowed"@, range.start as int))
        } else {
            Ok(ArgsListView { rest: Some(e), rest_at: Some(range), ..args })
        },
        ElementKindView::Named(name) => Ok(
            ArgsListView {
                named: args.named.push((name, e)),
                named_at: args.named_at.push(range),
                ..args
            },
        ),
        ElementKindView::Positional => if args.named.len() > 0 || args.rest is Some {
            Err(
                error_at(
                    "positional arguments must come before named arguments and `..rest`"@,
                    range.start as int,
                ),
            )
        } else {
            Ok(
                ArgsListView {
                    positional: args.positional.push(e),
                    positional_at: args.positional_at.push(range),
                    ..args
                },
            )
        },
    }
}

/// The arguments with the element at the `i`-th token, and the index behind
/// it.
pub open spec fn element_at(list: int, ts: Seq<TokenView>, i: int, args: ArgsListView) -> Result<
    (ArgsListView, int),
    InputErrorView,
> {
    let kind = kind_at(ts, i);
    let start = expr_start(kind, i);
    if kind is Rest && args.rest is Some {
        Err(error_at("only one `..rest` argument is allowed"@, i))
    } else {
        match expr::expr_at(ts, start) {
            Err(message) => Err(error_at(message, start)),
            Ok((e, next)) => match with_element(
                args,
                kind,
                e,
                TokenRange { list: list as usize, start: start as usize, end: next as usize },
            ) {
                Err(e) => Err(e),
                Ok(more) => Ok((more, next)),
            },
        }
    }
}

/// The arguments with those that are listed from the `i`-th token on, with a
/// comma between each two and perhaps one behind the last.
pub open spec fn args_from(list: int, ts: Seq<TokenView>, i: int, args: ArgsListView) -> Result<
    ArgsListView,
    InputErrorView,
>
    decreases ts.len() - i,
{
    if !(0 <= i < ts.len()) {
        Ok(args)
    } else {
        match element_at(list, ts, i, args) {
            Err(e) => Err(e),
            Ok((more, next)) => if !(i < next < ts.len()) {
                Ok(more)
            } else if tokens::is_punct(ts, next, ',') {
                args_from(list, ts, next + 1, more)
            } else {
                Err(error_at("expected `,`"@, next))
            },
        }
    }
}

/// How the element at the `i`-th token is written.
pub fn element_kind(ts: &Vec<Token>, i: usize) -> (r: ElementKind)
    requires
        i < ts@.len(),
    ensures
        r@ == kind_at(tokens::token_views(ts@), i as int),
        !(r is Positional) ==> i + 2 <= ts@.len(),
{
    let n: usize = ts.len();
    assert(i < n);
    assert(tokens::token_views(ts@)[i as int] == ts@[i as int]@);
    if has_joint(ts, i, '.', '.') {
        return ElementKind::Rest;
    }
    match &ts[i] {
        Token::Ident(name) => if accepts_name(name.as_str()) && has_punct(ts, i + 1, '=')
            && !has_joint(ts, i + 1, '=', '=') {
            ElementKind::Named(name.clone())
        } else {
            ElementKind::Positional
        },
        _ => ElementKind::Positional,
    }
}

/// Adds an element whose expression stands at `range`.
pub fn add_element(args: &mut ArgsList, kind: ElementKind, e: Expr, range: TokenRange) -> (r:
    Result<(), InputError>)
    ensures
        match r {
            Ok(()) => with_element(old(args)@, kind@, e@, range) == Ok::<
                ArgsListView,
                InputErrorView,
            >(final(args)@),
            Err(error) => with_element(old(args)@, kind@, e@, range) == Err::<
                ArgsListView,
                InputErrorView,
            >(error@) && final(args)@ == old(args)@,
        },
{
    let ghost before = *args;
    match kind {
        ElementKind::Rest => {
            if args.rest.is_some() {
                return Err(
                    fail_at("only one `..rest` argument is allowed".to_owned(), range.start),
                );
            }
            args.rest = Some(e);
            args.rest_at = Some(range);
        },
        ElementKind::Named(name) => {
            args.named.push((name, e));
            args.named_at.push(range);
            assert(args@.named =~= before@.named.push((name@, e@)));
        },
        ElementKind::Positional => {
            if args.named.len() > 0 || args.rest.is_some() {
                return Err(
                    fail_at(
                        "positional arguments must come before named arguments and `..rest`".to_owned(),
                        range.start,
                    ),
                );
            }
            args.positional.push(e);
            args.positional_at.push(range);
            assert(args@.positional =~= before@.positional.push(e@));
        },
    }
    Ok(())
}

/// Reads the contents of `args = [ ... ]`, where the brackets are the `list`-th
/// token of the input.
///
/// Each element is one of:
/// - `expr` — a positional argument; must appear before any named or `..rest` form.
/// - `name = expr` — a named argument.
/// - `..rest` — struct-spread: any `{name}` placeholder not matched by an
///   explicit named arg is looked up as `rest.name`. Only one `..rest` per call.
pub fn parse_args_content(list: usize, content: &Vec<Token>, args: &mut ArgsList) -> (r: Result<
    (),
    InputError,
>)
    ensures
        match r {
            Ok(()) => args_from(list as int, tokens::token_views(content@), 0, old(args)@) == Ok::<
                ArgsListView,
                InputErrorView,
            >(final(args)@),
            Err(e) => args_from(list as int, tokens::token_views(content@), 0, old(args)@) == Err::<
                ArgsListView,
                InputErrorView,
            >(e@),
        },
{
    let n: usize = content.len();
    let ghost ts = tokens::token_views(content@);
    let ghost whole = args_from(list as int, ts, 0, old(args)@);
    let mut i: usize = 0;
    while i < n
        invariant
            n == content@.len(),
            i <= n,
            ts == tokens::token_views(content@),
            whole == args_from(list as int, ts, 0, old(args)@),
            whole == args_from(list as int, ts, i as int, args@),
        decreases n - i,
    {
        let kind = element_kind(content, i);
        if matches!(kind, ElementKind::Rest) && args.rest.is_some() {
            return Err(fail_at("only one `..rest` argument is allowed".to_owned(), i));
        }
        let start: usize = match kind {
            ElementKind::Positional => i,
            _ => i + 2,
        };
        let (e, next) = match parse_expr_at(content, start) {
            Ok(parsed) => parsed,
            Err(message) => {
                return Err(fail_at(message, start));
            },
        };
        match add_element(args, kind, e, TokenRange { list, start, end: next }) {
            Ok(()) => {},
            Err(error) => {
                return Err(error);
            },
        }
        if next == n {
            return Ok(());
        }
        if !has_punct(content, next, ',') {
            return Err(fail_at("expected `,`".to_owned(), next));
        }
        i = next + 1;
    }
    Ok(())
}

/// The index behind the argument list that is the `i`-th token, and the
/// arguments with those in it.
pub open spec fn args_at(ts: Seq<TokenView>, i: int, args: ArgsListView) -> Result<
    (ArgsListView, int),
    InputErrorView,
> {
    if i < ts.len() && ts[i] is Group && ts[i]->Group_0 is Bracket {
        match args_from(i, ts[i]->Group_1, 0, args) {
            Ok(more) => Ok((more, i + 1)),
            Err(e) => Err(error_in_list(e, i)),
        }
    } else {
        Err(error_here(ts, i, "expected square brackets"@))
    }
}

/// Reads the argument list that is the `i`-th token; returns the index behind
/// it.
pub fn parse_args_list(ts: &Vec<Token>, i: usize, args: &mut ArgsList) -> (r: Result<
    usize,
    InputError,
>)
    ensures
        match r {
            Ok(next) => next == i + 1 <= ts@.len() && args_at(
                tokens::token_views(ts@),
                i as int,
                old(args)@,
            ) == Ok::<(ArgsListView, int), InputErrorView>((final(args)@, next as int)),
            Err(e) => args_at(tokens::token_views(ts@), i as int, old(args)@) == Err::<
                (ArgsListView, int),
                InputErrorView,
            >(e@),
        },
{
    let n: usize = ts.len();
    if i < n {
        assert(tokens::token_views(ts@)[i as int] == ts@[i as int]@);
        match &ts[i] {
            Token::Group(Delimiter::Bracket, content) => {
                assert(ts@[i as int]@->Group_1 =~= tokens::token_views(content@));
                return match parse_args_content(i, content, args) {
                    Ok(()) => Ok(i + 1),
                    Err(e) => Err(InputError { message: e.message, at: i, arg_at: Some(e.at) }),
                };
            },
            _ => {},
        }
    }
    Err(fail_here(ts, i, "expected square brackets"))
}

// -- The input ------------------------------------------------------------

/// Where the SQL text is.
#[derive(Debug)]
pub enum QuerySrc {
    /// Here.
    String(String),
    /// In the file with this name.
    File(String),
}

/// A [`QuerySrc`], with its text as a sequence.
pub enum QuerySrcView {
    String(Seq<char>),
    File(Seq<char>),
}

impl View for QuerySrc {
    type V = QuerySrcView;

    open spec fn view(&self) -> QuerySrcView {
        match self {
            QuerySrc::String(sql) => QuerySrcView::String(sql@),
            QuerySrc::File(file) => QuerySrcView::File(file@),
        }
    }
}

/// The type of the records that a query returns.
#[derive(Debug)]
pub enum RecordType {
    /// The type that is written here.
    Given(String),
    Scalar,
    Generated,
}

/// A [`RecordType`], with its text as a sequence.
pub enum RecordTypeView {
    Given(Seq<char>),
    Scalar,
    Generated,
}

impl View for RecordType {
    type V = RecordTypeView;

    open spec fn view(&self) -> RecordTypeView {
        match self {
            RecordType::Given(ty) => RecordTypeView::Given(ty@),
            RecordType::Scalar => RecordTypeView::Scalar,
            RecordType::Generated => RecordTypeView::Generated,
        }
    }
}

/// Where the SQL text is, and which token says so.
#[derive(Debug)]
pub struct Source {
    pub src: QuerySrc,
    /// The index of the token; the first, if there are more.
    pub at: usize,
    /// The index of the string literal that is the whole SQL text.
    pub token: Option<usize>,
}

/// A [`Source`], with its text as a sequence.
pub struct SourceView {
    pub src: QuerySrcView,
    pub at: usize,
    pub token: Option<usize>,
}

impl View for Source {
    type V = SourceView;

    open spec fn view(&self) -> SourceView {
        SourceView { src: self.src@, at: self.at, token: self.token }
    }
}

/// What has been read of the input of a macro.
#[derive(Debug)]
pub struct PartialInput {
    pub source: Option<Source>,
    pub args: ArgsList,
    pub record_type: RecordType,
    pub checked: bool,
}

/// A [`PartialInput`], with its parts by their views.
pub struct PartialInputView {
    pub source: Option<SourceView>,
    pub args: ArgsListView,
    pub record_type: RecordTypeView,
    pub checked: bool,
}

impl View for PartialInput {
    type V = PartialInputView;

    open spec fn view(&self) -> PartialInputView {
        PartialInputView {
            source: match self.source {
                Some(source) => Some(source@),
                None => None,
            },
            args: self.args@,
            record_type: self.record_type@,
            checked: self.checked,
        }
    }
}

/// The value of the string literal that is the `i`-th token.
pub open spec fn literal_at(ts: Seq<TokenView>, i: int) -> Option<Seq<char>> {
    if 0 <= i < ts.len() && ts[i] is Literal {
        expr::str_value(ts[i]->Literal_0)
    } else {
        None
    }
}

/// The values of the string literals from the `i`-th token on that are joined
/// by `+`, behind `values`, and the index behind them.
pub open spec fn literals_at(ts: Seq<TokenView>, i: int, values: Seq<Seq<char>>) -> Result<
    (Seq<Seq<char>>, int),
    InputErrorView,
>
    decreases ts.len() - i,
{
    match literal_at(ts, i) {
        None => Err(error_here(ts, i, "expected string literal"@)),
        Some(value) => if tokens::is_punct(ts, i + 1, '+') {
            literals_at(ts, i + 2, values.push(value))
        } else {
            Ok((values.push(value), i + 1))
        },
    }
}

/// The texts, one after the other.
pub open spec fn joined(values: Seq<Seq<char>>) -> Seq<char>
    decreases values.len(),
{
    if values.len() == 0 {
        seq![]
    } else {
        joined(values.drop_last()) + values.last()
    }
}

/// The source that string literals with the given values make, the first of
/// which is the `i`-th token. A literal is the whole text only where it is the
/// only one.
pub open spec fn string_source(values: Seq<Seq<char>>, i: usize) -> SourceView {
    SourceView {
        src: QuerySrcView::String(joined(values)),
        at: i,
        token: if values.len() == 1 {
            Some(i)
        } else {
            None
        },
    }
}

/// The keys that the input of a macro may have.
pub open spec fn is_key(s: Seq<char>) -> bool {
    ||| s == "source"@
    ||| s == "source_file"@
    ||| s == "args"@
    ||| s == "record"@
    ||| s == "scalar"@
    ||| s == "checked"@
}

/// The key at the `i`-th token; any identifier will do that is no keyword.
pub open spec fn key_at(ts: Seq<TokenView>, i: int) -> Result<Seq<char>, InputErrorView> {
    if 0 <= i < ts.len() && ts[i] is Ident {
        let s = ts[i]->Ident_0;
        if is_key(s) || expr::is_name(s) {
            Ok(s)
        } else {
            Err(error_at("expected identifier, found keyword `"@ + s + "`"@, i))
        }
    } else {
        Err(error_here(ts, i, "expected identifier"@))
    }
}

/// Is the `i`-th token the identifier `s`?
pub open spec fn is_ident(ts: Seq<TokenView>, i: int, s: Seq<char>) -> bool {
    0 <= i < ts.len() && ts[i] is Ident && ts[i]->Ident_0 == s
}

/// The input with the value at the `i`-th token for `key`, and the index
/// behind the value. A source, an argument list and `checked` may come again.
pub open spec fn with_value(
    ts: Seq<TokenView>,
    key: Seq<char>,
    i: int,
    input: PartialInputView,
) -> Result<(PartialInputView, int), InputErrorView> {
    if key == "source"@ {
        match literals_at(ts, i, seq![]) {
            Err(e) => Err(e),
            Ok((values, next)) => Ok(
                (
                    PartialInputView { source: Some(string_source(values, i as usize)), ..input },
                    next,
                ),
            ),
        }
    } else if key == "source_file"@ {
        match literal_at(ts, i) {
            None => Err(error_here(ts, i, "expected string literal"@)),
            Some(file) => Ok(
                (
                    PartialInputView {
                        source: Some(
                            SourceView {
                                src: QuerySrcView::File(file),
                                at: i as usize,
                                token: None,
                            },
                        ),
                        ..input
                    },
                    i + 1,
                ),
            ),
        }
    } else if key == "args"@ {
        match args_at(ts, i, input.args) {
            Err(e) => Err(e),
            Ok((args, next)) => Ok((PartialInputView { args, ..input }, next)),
        }
    } else if key == "record"@ {
        if !(input.record_type is Generated) {
            Err(error_here(ts, i, "colliding `scalar` or `record` key"@))
        } else {
            match expr::type_at(ts, i) {
                Err(message) => Err(error_at(message, i)),
                Ok((ty, next)) => Ok(
                    (PartialInputView { record_type: RecordTypeView::Given(ty), ..input }, next),
                ),
            }
        }
    } else if key == "scalar"@ {
        if !(input.record_type is Generated) {
            Err(error_here(ts, i, "colliding `scalar` or `record` key"@))
        } else if is_ident(ts, i, "_"@) || tokens::is_punct(ts, i, '_') {
            Ok((PartialInputView { record_type: RecordTypeView::Scalar, ..input }, i + 1))
        } else {
            Err(error_here(ts, i, "expected `_`"@))
        }
    } else if key == "checked"@ {
        if is_ident(ts, i, "true"@) {
            Ok((PartialInputView { checked: true, ..input }, i + 1))
        } else if is_ident(ts, i, "false"@) {
            Ok((PartialInputView { checked: false, ..input }, i + 1))
        } else {
            Err(error_here(ts, i, "expected boolean literal"@))
        }
    } else {
        Err(error_at("unexpected input key: "@ + key, i - 2))
    }
}

/// The input with the entry `key = value` at the `i`-th token, and the index
/// behind the entry.
pub open spec fn with_entry(ts: Seq<TokenView>, i: int, input: PartialInputView) -> Result<
    (PartialInputView, int),
    InputErrorView,
> {
    match key_at(ts, i) {
        Err(e) => Err(e),
        Ok(key) => if tokens::is_punct(ts, i + 1, '=') {
            with_value(ts, key, i + 2, input)
        } else {
            Err(error_at("expected `=`"@, i + 1))
        },
    }
}

/// The input with the entries from the `i`-th token on, with a comma between
/// each two, and one before the first unless it `is_first`.
pub open spec fn entries_from(
    ts: Seq<TokenView>,
    i: int,
    is_first: bool,
    input: PartialInputView,
) -> Result<PartialInputView, InputErrorView>
    decreases ts.len() - i,
{
    if !(0 <= i < ts.len()) {
        Ok(input)
    } else if !is_first && !tokens::is_punct(ts, i, ',') {
        Err(error_at("expected `,`"@, i))
    } else {
        match with_entry(
            ts,
            if is_first {
                i
            } else {
                i + 1
            },
            input,
        ) {
            Err(e) => Err(e),
            Ok((more, next)) => if i < next <= ts.len() {
                entries_from(ts, next, false, more)
            } else {
                Ok(more)
            },
        }
    }
}

/// Nothing read.
pub open spec fn no_input() -> PartialInputView {
    PartialInputView {
        source: None,
        args: no_args(),
        record_type: RecordTypeView::Generated,
        checked: true,
    }
}

/// What the input of a macro holds: any number of entries, of which one must
/// tell the source.
pub open spec fn input_meaning(ts: Seq<TokenView>) -> Result<PartialInputView, InputErrorView> {
    match entries_from(ts, 0, true, no_input()) {
        Err(e) => Err(e),
        Ok(input) => if input.source is None {
            Err(error_here(ts, ts.len() as int, "expected `source` or `source_file` key"@))
        } else {
            Ok(input)
        },
    }
}

/// Reads the string literal that is the `i`-th token.
fn parse_literal(ts: &Vec<Token>, i: usize) -> (r: Option<String>)
    ensures
        match r {
            Some(value) => i < ts@.len() && literal_at(tokens::token_views(ts@), i as int) == Some(
                value@,
            ),
            None => literal_at(tokens::token_views(ts@), i as int) is None,
        },
{
    if i < ts.len() {
        assert(tokens::token_views(ts@)[i as int] == ts@[i as int]@);
        match &ts[i] {
            Token::Literal(text) => parse_lit_str(text.as_str()),
            _ => None,
        }
    } else {
        None
    }
}

/// Reads string literals joined by `+`; returns their values and the index
/// behind them.
fn parse_literals(ts: &Vec<Token>, start: usize) -> (r: Result<(Vec<String>, usize), InputError>)
    ensures
        match r {
            Ok((values, next)) => start < next <= ts@.len() && literals_at(
                tokens::token_views(ts@),
                start as int,
                seq![],
            ) == Ok::<(Seq<Seq<char>>, int), InputErrorView>(
                (rewrite::text_views(values@), next as int),
            ),
            Err(e) => literals_at(tokens::token_views(ts@), start as int, seq![]) == Err::<
                (Seq<Seq<char>>, int),
                InputErrorView,
            >(e@),
        },
{
    let ghost views = tokens::token_views(ts@);
    let mut values: Vec<String> = Vec::new();
    let mut i: usize = start;
    assert(rewrite::text_views(values@) =~= seq![]);
    loop
        invariant
            start <= i,
            views == tokens::token_views(ts@),
            literals_at(views, start as int, seq![]) == literals_at(
                views,
                i as int,
                rewrite::text_views(values@),
            ),
        decreases usize::MAX - i,
    {
        let n: usize = ts.len();
        let value = match parse_literal(ts, i) {
            Some(value) => value,
            None => {
                return Err(fail_here(ts, i, "expected string literal"));
            },
        };
        let ghost before = values@;
        values.push(value);
        assert(rewrite::text_views(values@) =~= rewrite::text_views(before).push(value@));
        if !has_punct(ts, i + 1, '+') {
            return Ok((values, i + 1));
        }
        i += 2;
    }
}

/// Makes the source of string literals with the given values, the first of which
/// is the `i`-th token.
pub fn join_literals(values: &Vec<String>, i: usize) -> (r: Source)
    ensures
        r@ == string_source(rewrite::text_views(values@), i),
{
    let ghost views = rewrite::text_views(values@);
    let mut sql = String::new();
    let mut k: usize = 0;
    assert(sql@ =~= joined(views.take(0)));
    while k < values.len()
        invariant
            k <= values@.len(),
            views == rewrite::text_views(values@),
            sql@ == joined(views.take(k as int)),
        decreases values@.len() - k,
    {
        sql.append(values[k].as_str());
        proof {
            assert(views.take(k + 1).drop_last() =~= views.take(k as int));
            assert(views.take(k + 1).last() == values@[k as int]@);
        }
        k += 1;
    }
    assert(views.take(k as int) =~= views);
    // The literal is the SQL text only where it stands alone.
    let token: Option<usize> = if values.len() == 1 {
        Some(i)
    } else {
        None
    };
    Source { src: QuerySrc::String(sql), at: i, token }
}

/// Is the `i`-th token the identifier `s`?
fn has_ident(ts: &Vec<Token>, i: usize, s: &str) -> (r: bool)
    ensures
        r == is_ident(tokens::token_views(ts@), i as int, s@),
{
    if i < ts.len() {
        assert(tokens::token_views(ts@)[i as int] == ts@[i as int]@);
        match &ts[i] {
            Token::Ident(name) => same_text(name.as_str(), s),
            _ => false,
        }
    } else {
        false
    }
}

fn is_input_key(s: &str) -> (r: bool)
    ensures
        r == is_key(s@),
{
    same_text(s, "source") || same_text(s, "source_file") || same_text(s, "args") || same_text(
        s,
        "record",
    ) || same_text(s, "scalar") || same_text(s, "checked")
}

/// Reads the key that is the `i`-th token.
fn parse_key<'t>(ts: &'t Vec<Token>, i: usize) -> (r: Result<&'t str, InputError>)
    ensures
        match r {
            Ok(key) => i < ts@.len() && key_at(tokens::token_views(ts@), i as int) == Ok::<
                Seq<char>,
                InputErrorView,
            >(key@),
            Err(e) => key_at(tokens::token_views(ts@), i as int) == Err::<
                Seq<char>,
                InputErrorView,
            >(e@),
        },
{
    if i < ts.len() {
        assert(tokens::token_views(ts@)[i as int] == ts@[i as int]@);
        match &ts[i] {
            Token::Ident(name) => {
                let name: &str = name.as_str();
                if is_input_key(name) || accepts_name(name) {
                    return Ok(name);
                }
                let mut message = "expected identifier, found keyword `".to_owned();
                message.append(name);
                message.append("`");
                return Err(fail_at(message, i));
            },
            _ => {},
        }
    }
    Err(fail_here(ts, i, "expected identifier"))
}

/// Reads the value at the `i`-th token for `key`; returns the index behind it.
pub fn parse_value(ts: &Vec<Token>, key: &str, i: usize, input: &mut PartialInput) -> (r: Result<
    usize,
    InputError,
>)
    requires
        2 <= i <= ts@.len(),
    ensures
        match r {
            Ok(next) => i < next <= ts@.len() && with_value(
                tokens::token_views(ts@),
                key@,
                i as int,
                old(input)@,
            ) == Ok::<(PartialInputView, int), InputErrorView>((final(input)@, next as int)),
            Err(e) => with_value(tokens::token_views(ts@), key@, i as int, old(input)@) == Err::<
                (PartialInputView, int),
                InputErrorView,
            >(e@),
        },
{
    let n: usize = ts.len();
    if same_text(key, "source") {
        let (values, next) = match parse_literals(ts, i) {
            Ok(parsed) => parsed,
            Err(e) => {
                return Err(e);
            },
        };
        input.source = Some(join_literals(&values, i));
        Ok(next)
    } else if same_text(key, "source_file") {
        match parse_literal(ts, i) {
            Some(file) => {
                input.source = Some(Source { src: QuerySrc::File(file), at: i, token: None });
                Ok(i + 1)
            },
            None => Err(fail_here(ts, i, "expected string literal")),
        }
    } else if same_text(key, "args") {
        parse_args_list(ts, i, &mut input.args)
    } else if same_text(key, "record") {
        if !matches!(input.record_type, RecordType::Generated) {
            return Err(fail_here(ts, i, "colliding `scalar` or `record` key"));
        }
        match parse_type_at(ts, i) {
            Ok((ty, next)) => {
                input.record_type = RecordType::Given(ty);
                Ok(next)
            },
            Err(message) => Err(fail_at(message, i)),
        }
    } else if same_text(key, "scalar") {
        if !matches!(input.record_type, RecordType::Generated) {
            return Err(fail_here(ts, i, "colliding `scalar` or `record` key"));
        }
        // we currently expect only `scalar = _`
        // a `query_as_scalar!()` variant seems less useful than just overriding the type
        // of the column in SQL
        if has_ident(ts, i, "_") || has_punct(ts, i, '_') {
            input.record_type = RecordType::Scalar;
            Ok(i + 1)
        } else {
            Err(fail_here(ts, i, "expected `_`"))
        }
    } else if same_text(key, "checked") {
        if has_ident(ts, i, "true") {
            input.checked = true;
            Ok(i + 1)
        } else if has_ident(ts, i, "false") {
            input.checked = false;
            Ok(i + 1)
        } else {
            Err(fail_here(ts, i, "expected boolean literal"))
        }
    } else {
        let mut message = "unexpected input key: ".to_owned();
        message.append(key);
        Err(fail_at(message, i - 2))
    }
}

/// Reads the input of a macro.
pub fn parse_input(ts: &Vec<Token>) -> (r: Result<PartialInput, InputError>)
    ensures
        match r {
            Ok(input) => input.source is Some && input_meaning(tokens::token_views(ts@)) == Ok::<
                PartialInputView,
                InputErrorView,
            >(input@),
            Err(e) => input_meaning(tokens::token_views(ts@)) == Err::<
                PartialInputView,
                InputErrorView,
            >(e@),
        },
{
    let n: usize = ts.len();
    let ghost views = tokens::token_views(ts@);
    let ghost whole = entries_from(views, 0, true, no_input());
    let mut input = PartialInput {
        source: None,
        args: ArgsList::new(),
        record_type: RecordType::Generated,
        checked: true,
    };
    let mut expect_comma: bool = false;
    let mut i: usize = 0;
    while i < n
        invariant
            n == ts@.len(),
            i <= n,
            views == tokens::token_views(ts@),
            whole == entries_from(views, 0, true, no_input()),
            whole == entries_from(views, i as int, !expect_comma, input@),
        decreases n - i,
    {
        let at: usize = if expect_comma {
            if !has_punct(ts, i, ',') {
                return Err(fail_at("expected `,`".to_owned(), i));
            }
            i + 1
        } else {
            i
        };
        let key = match parse_key(ts, at) {
            Ok(key) => key,
            Err(e) => {
                return Err(e);
            },
        };
        if !has_punct(ts, at + 1, '=') {
            return Err(fail_at("expected `=`".to_owned(), at + 1));
        }
        match parse_value(ts, key, at + 2, &mut input) {
            Ok(next) => {
                i = next;
            },
            Err(e) => {
                return Err(e);
            },
        }
        expect_comma = true;
    }
    if input.source.is_none() {
        return Err(fail_here(ts, n, "expected `source` or `source_file` key"));
    }
    Ok(input)
}

// -- The source -----------------------------------------------------------

/// A file that holds a SQL text.
#[derive(Debug)]
pub struct SourceFile {
    /// What the file holds.
    pub sql: String,
    /// The canonical path of the file.
    pub path: String,
}

/// A [`SourceFile`], with its texts as sequences.
pub struct SourceFileView {
    pub sql: Seq<char>,
    pub path: Seq<char>,
}

impl View for SourceFile {
    type V = SourceFileView;

    open spec fn view(&self) -> SourceFileView {
        SourceFileView { sql: self.sql@, path: self.path@ }
    }
}

/// Macro input shared by `query!()` and `query_file!()`
#[derive(Debug)]
pub struct QueryMacroInput {
    pub sql: String,
    /// The index of the token that tells the source; the first, if there are
    /// more.
    pub src_at: usize,
    /// Index of the SQL string literal, when the source is a single
    /// `source = "..."` (not a concatenation `"a" + "b"` and not `source_file
    /// = ...`). Used to compute byte-range subspans pointing at individual
    /// `{...}` placeholders for diagnostics and IDE jump-to-definition.
    pub sql_token: Option<usize>,
    pub record_type: RecordType,
    pub args: ArgsList,
    pub checked: bool,
    pub file_path: Option<String>,
}

/// A [`QueryMacroInput`], with its parts by their views.
pub struct QueryMacroInputView {
    pub sql: Seq<char>,
    pub src_at: usize,
    pub sql_token: Option<usize>,
    pub record_type: RecordTypeView,
    pub args: ArgsListView,
    pub checked: bool,
    pub file_path: Option<Seq<char>>,
}

impl View for QueryMacroInput {
    type V = QueryMacroInputView;

    open spec fn view(&self) -> QueryMacroInputView {
        QueryMacroInputView {
            sql: self.sql@,
            src_at: self.src_at,
            sql_token: self.sql_token,
            record_type: self.record_type@,
            args: self.args@,
            checked: self.checked,
            file_path: match self.file_path {
                Some(path) => Some(path@),
                None => None,
            },
        }
    }
}

/// The input, with what its source file holds and the path of the file, if it
/// has one.
pub open spec fn resolved_input(
    input: PartialInputView,
    file: Option<SourceFileView>,
) -> QueryMacroInputView {
    let source = input.source->0;
    QueryMacroInputView {
        sql: match source.src {
            QuerySrcView::String(sql) => sql,
            QuerySrcView::File(_) => (file->0).sql,
        },
        src_at: source.at,
        sql_token: source.token,
        record_type: input.record_type,
        args: input.args,
        checked: input.checked,
        file_path: match source.src {
            QuerySrcView::String(_) => None,
            QuerySrcView::File(_) => Some((file->0).path),
        },
    }
}

impl PartialInput {
    /// The name of the source file, where the SQL text is in one.
    pub fn source_file(&self) -> (r: Option<&str>)
        ensures
            match r {
                Some(file) => self@.source matches Some(source) && source.src
                    == QuerySrcView::File(file@),
                None => self@.source matches Some(source) ==> source.src is String,
            },
    {
        match &self.source {
            Some(source) => match &source.src {
                QuerySrc::String(_) => None,
                QuerySrc::File(file) => Some(file.as_str()),
            },
            None => None,
        }
    }

    /// Completes the input: the SQL text is what the source file holds where
    /// there is one, and the query string otherwise.
    pub fn resolve(self, file: Option<SourceFile>) -> (r: QueryMacroInput)
        requires
            self@.source is Some,
            self@.source->0.src is File ==> file is Some,
        ensures
            r@ == resolved_input(
                self@,
                match file {
                    Some(file) => Some(file@),
                    None => None,
                },
            ),
    {
        let source = self.source.unwrap();
        let (sql, file_path) = match source.src {
            QuerySrc::String(sql) => (sql, None),
            QuerySrc::File(_) => {
                let file = file.unwrap();
                (file.sql, Some(file.path))
            },
        };
        QueryMacroInput {
            sql,
            src_at: source.at,
            sql_token: source.token,
            record_type: self.record_type,
            args: self.args,
            checked: self.checked,
            file_path,
        }
    }
}

/// How it reads that the file at `path` could not be read.
pub fn read_error_message(path: &str, error: &str) -> (r: String)
    ensures
        r@ == "failed to read query file at "@ + path@ + ": "@ + error@,
{
    let mut message = "failed to read query file at ".to_owned();
    message.append(path);
    message.append(": ");
    message.append(error);
    message
}

impl QueryMacroInput {
    /// Where a byte range of the SQL text lies in the text of its literal, where
    /// it has one. The source representation is `"..."` (with the opening quote
    /// at byte 0 of the token text), so value-byte offsets map to source offsets
    /// shifted by 1. This is approximate: escape sequences (e.g. `\n`) shift the
    /// mapping further.
    pub fn subspan(&self, range: Range<usize>) -> (r: Option<Range<usize>>)
        requires
            range.start < usize::MAX,
            range.end < usize::MAX,
        ensures
            match r {
                Some(shifted) => self@.sql_token is Some && shifted.start == range.start + 1
                    && shifted.end == range.end + 1,
                None => self@.sql_token is None,
            },
    {
        if self.sql_token.is_some() {
            Some(range.start + 1..range.end + 1)
        } else {
            None
        }
    }
}

} // verus!
