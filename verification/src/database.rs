//! What the query builder asks of a database: how it takes arguments, and how
//! its placeholders look.
use crate::text;
use crate::text::push_decimal;
use std::borrow::Cow;
use std::marker::PhantomData;
use vstd::prelude::*;

verus! {

/// Whether the placeholders of a database carry numbers.
#[derive(Debug, Clone, Copy, PartialEq, Eq, Structural)]
pub enum ParamIndexing {
    /// All placeholders look the same; their order decides.
    Implicit,
    /// Placeholders carry the number of their argument, counted from 1.
    OneIndexed,
}

/// The native placeholder for the `n`-th argument.
pub open spec fn native_placeholder(ch: char, indexing: ParamIndexing, n: nat) -> Seq<char> {
    match indexing {
        ParamIndexing::Implicit => seq![ch],
        ParamIndexing::OneIndexed => seq![ch] + text::decimal(n),
    }
}

/// Appends the native placeholder for the `n`-th argument.
pub fn write_placeholder(out: &mut String, ch: char, indexing: ParamIndexing, n: usize)
    ensures
        final(out)@ == old(out)@ + native_placeholder(ch, indexing, n as nat),
{
    out.push(ch);
    assert(old(out)@.push(ch) =~= old(out)@ + seq![ch]);
    if indexing == ParamIndexing::OneIndexed {
        push_decimal(out, n);
        assert(out@ =~= old(out)@ + (seq![ch] + text::decimal(n as nat)));
    }
}

/// The arguments of a query, as its database takes them.
pub trait Arguments: Sized {
    /// A value of any type that the database can take as an argument.
    type Value;

    /// The values added so far, the first one first.
    spec fn values(&self) -> Seq<Self::Value>;

    /// The room that was asked for so far: for how many arguments, and of how many
    /// bytes in all.
    spec fn requests(&self) -> Seq<(usize, usize)>;

    /// Why the database refuses `value` after `values`, if it does.
    spec fn refusal(values: Seq<Self::Value>, value: Self::Value) -> Option<Seq<char>>;

    /// The placeholder for the argument that was added as number `count`.
    spec fn placeholder(count: nat) -> Seq<char>;

    /// About how many bytes `value` takes when encoded.
    spec fn estimated_size(value: Self::Value) -> usize;

    /// No arguments.
    fn new() -> (r: Self)
        ensures
            r.values() == Seq::<Self::Value>::empty(),
            r.requests() == Seq::<(usize, usize)>::empty(),
    ;

    /// About how many bytes `value` takes when encoded.
    fn size_hint(value: &Self::Value) -> (r: usize)
        ensures
            r == Self::estimated_size(*value),
    ;

    /// Makes room for `additional` arguments of `size` bytes in all.
    fn reserve(&mut self, additional: usize, size: usize)
        ensures
            final(self).values() == old(self).values(),
            final(self).requests() == old(self).requests().push((additional, size)),
    ;

    /// Adds `value` as the next argument.
    fn add(&mut self, value: Self::Value) -> (r: Result<(), String>)
        ensures
            match r {
                Ok(()) => Self::refusal(old(self).values(), value) is None && final(self).values()
                    == old(self).values().push(value),
                Err(message) => Self::refusal(old(self).values(), value) == Some(message@),
            },
            final(self).requests() == old(self).requests(),
    ;

    /// Appends the placeholder for the argument that was added last.
    fn format_placeholder(&self, out: &mut String)
        ensures
            final(out)@ == old(out)@ + Self::placeholder(self.values().len()),
    ;
}

/// A database.
pub trait Database: Sized {
    /// A value of any type that the database can take as an argument, held
    /// until its placeholder is reached.
    type Value<'q>;

    type Arguments<'q>: Arguments<Value = Self::Value<'q>>;
}

/// A type whose values the database `DB` can take as arguments.
pub trait Encode<'q, DB: Database>: Sized {
    /// The value, without its type.
    spec fn erased(self) -> DB::Value<'q>;

    /// Forgets the type of the value.
    fn erase(self) -> (r: DB::Value<'q>)
        ensures
            r == self.erased(),
    ;
}

// -- Databases that take their arguments as they are ----------------------

/// How the placeholders of a database look.
pub trait Dialect: Sized {
    spec fn char_spec() -> char;

    spec fn indexing_spec() -> ParamIndexing;

    /// The character that begins a placeholder.
    fn placeholder_char() -> (r: char)
        ensures
            r == Self::char_spec(),
    ;

    /// Whether placeholders carry numbers.
    fn param_indexing() -> (r: ParamIndexing)
        ensures
            r == Self::indexing_spec(),
    ;
}

/// Numbered placeholders: `$1`, `$2`.
#[derive(Debug)]
pub struct Postgres;

impl Dialect for Postgres {
    open spec fn char_spec() -> char {
        '$'
    }

    open spec fn indexing_spec() -> ParamIndexing {
        ParamIndexing::OneIndexed
    }

    fn placeholder_char() -> (r: char) {
        '$'
    }

    fn param_indexing() -> (r: ParamIndexing) {
        ParamIndexing::OneIndexed
    }
}

/// Anonymous placeholders: `?`.
#[derive(Debug)]
pub struct MySql;

impl Dialect for MySql {
    open spec fn char_spec() -> char {
        '?'
    }

    open spec fn indexing_spec() -> ParamIndexing {
        ParamIndexing::Implicit
    }

    fn placeholder_char() -> (r: char) {
        '?'
    }

    fn param_indexing() -> (r: ParamIndexing) {
        ParamIndexing::Implicit
    }
}

/// Anonymous placeholders: `?`.
#[derive(Debug)]
pub struct Sqlite;

impl Dialect for Sqlite {
    open spec fn char_spec() -> char {
        '?'
    }

    open spec fn indexing_spec() -> ParamIndexing {
        ParamIndexing::Implicit
    }

    fn placeholder_char() -> (r: char) {
        '?'
    }

    fn param_indexing() -> (r: ParamIndexing) {
        ParamIndexing::Implicit
    }
}

/// A value on its way to a database.
#[derive(Debug)]
pub enum Value<'q> {
    Null,
    Bool(bool),
    Int(i64),
    Text(Cow<'q, str>),
}

/// A list of values, for a database whose driver encodes them when the query
/// is executed.
pub struct ValueList<'q, D> {
    pub values: Vec<Value<'q>>,
    pub dialect: PhantomData<D>,
    /// The room that was asked for so far.
    pub asked: Ghost<Seq<(usize, usize)>>,
}

impl<'q, D: Dialect> Arguments for ValueList<'q, D> {
    type Value = Value<'q>;

    open spec fn values(&self) -> Seq<Value<'q>> {
        self.values@
    }

    open spec fn requests(&self) -> Seq<(usize, usize)> {
        self.asked@
    }

    open spec fn refusal(values: Seq<Value<'q>>, value: Value<'q>) -> Option<Seq<char>> {
        None
    }

    open spec fn placeholder(count: nat) -> Seq<char> {
        native_placeholder(D::char_spec(), D::indexing_spec(), count)
    }

    open spec fn estimated_size(value: Value<'q>) -> usize {
        match value {
            Value::Null => 0,
            Value::Bool(_) => 1,
            Value::Int(_) => 8,
            Value::Text(Cow::Borrowed(s)) => s.len(),
            Value::Text(Cow::Owned(s)) => vstd::utf8::encode_utf8(s@).len() as usize,
        }
    }

    fn new() -> (r: Self) {
        ValueList { values: Vec::new(), dialect: PhantomData, asked: Ghost(Seq::empty()) }
    }

    fn size_hint(value: &Value<'q>) -> (r: usize) {
        match value {
            Value::Null => 0,
            Value::Bool(_) => 1,
            Value::Int(_) => 8,
            Value::Text(Cow::Borrowed(s)) => s.len(),
            Value::Text(Cow::Owned(s)) => s.as_str().len(),
        }
    }

    fn reserve(&mut self, additional: usize, size: usize) {
        self.values.reserve(additional);
        self.asked = Ghost(self.asked@.push((additional, size)));
    }

    fn add(&mut self, value: Value<'q>) -> (r: Result<(), String>) {
        self.values.push(value);
        Ok(())
    }

    fn format_placeholder(&self, out: &mut String) {
        write_placeholder(out, D::placeholder_char(), D::param_indexing(), self.values.len());
    }
}

impl<D: Dialect> Database for D {
    type Value<'q> = Value<'q>;

    type Arguments<'q> = ValueList<'q, D>;
}

impl<'q, D: Dialect> Encode<'q, D> for bool {
    open spec fn erased(self) -> Value<'q> {
        Value::Bool(self)
    }

    fn erase(self) -> (r: Value<'q>) {
        Value::Bool(self)
    }
}

impl<'q, D: Dialect> Encode<'q, D> for i32 {
    open spec fn erased(self) -> Value<'q> {
        Value::Int(self as i64)
    }

    fn erase(self) -> (r: Value<'q>) {
        Value::Int(self as i64)
    }
}

impl<'q, D: Dialect> Encode<'q, D> for i64 {
    open spec fn erased(self) -> Value<'q> {
        Value::Int(self)
    }

    fn erase(self) -> (r: Value<'q>) {
        Value::Int(self)
    }
}

impl<'q, D: Dialect> Encode<'q, D> for &'q str {
    open spec fn erased(self) -> Value<'q> {
        Value::Text(Cow::Borrowed(self))
    }

    fn erase(self) -> (r: Value<'q>) {
        Value::Text(Cow::Borrowed(self))
    }
}

impl<'q, D: Dialect> Encode<'q, D> for String {
    open spec fn erased(self) -> Value<'q> {
        Value::Text(Cow::Owned(self))
    }

    fn erase(self) -> (r: Value<'q>) {
        Value::Text(Cow::Owned(self))
    }
}

impl<'q, D: Dialect, T: Encode<'q, D>> Encode<'q, D> for Option<T> {
    open spec fn erased(self) -> Value<'q> {
        match self {
            Some(value) => value.erased(),
            None => Value::Null,
        }
    }

    fn erase(self) -> (r: Value<'q>) {
        match self {
            Some(value) => value.erase(),
            None => Value::Null,
        }
    }
}

} // verus!
