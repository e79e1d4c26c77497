use vstd::prelude::*;
use crate::error::Error;
use crate::script::{number_from_int, number_of_int};

verus! {

/// The value of a parameter or of a context variable.
pub enum Value {
    /// A double-precision number, held as its IEEE 754 bit pattern.
    Number(u64),
    /// UTF-8 text.
    String(String),
}

impl Clone for Value {
    fn clone(&self) -> (res: Self)
        ensures
            res == *self,
    {
        match self {
            Value::Number(bits) => Value::Number(*bits),
            Value::String(text) => Value::String(text.clone()),
        }
    }
}

impl From<i64> for Value {
    fn from(v: i64) -> (res: Value) {
        Value::Number(number_from_int(v))
    }
}

impl vstd::std_specs::convert::FromSpecImpl<i64> for Value {
    open spec fn obeys_from_spec() -> bool {
        true
    }

    open spec fn from_spec(v: i64) -> Value {
        Value::Number(number_of_int(v))
    }
}

impl Value {
    /// Returns the bit pattern of the number, or `TypeError` for text.
    pub fn as_number(&self) -> (res: Result<u64, Error>)
        ensures
            res == (match *self {
                Value::Number(bits) => Ok::<u64, Error>(bits),
                Value::String(_) => Err::<u64, Error>(Error::TypeError),
            }),
    {
        match self {
            Value::Number(bits) => Ok(*bits),
            _ => Err(Error::TypeError),
        }
    }
}

/// The source text of an expression.
pub struct Expr {
    code: String,
}

impl Expr {
    /// The source text, as a sequence of characters.
    pub closed spec fn source(&self) -> Seq<char> {
        self.code@
    }

    /// Wraps source text into an expression.
    pub fn new(code: &str) -> (e: Expr)
        ensures
            e.source() == code@,
    {
        Expr { code: String::from_str(code) }
    }

    /// The expression without source text.
    pub fn empty() -> (e: Expr)
        ensures
            e.source() == Seq::<char>::empty(),
    {
        Expr { code: String::new() }
    }

    /// Returns the source text.
    pub fn code(&self) -> (s: &str)
        ensures
            s@ == self.source(),
    {
        self.code.as_str()
    }
}

impl Clone for Expr {
    fn clone(&self) -> (res: Self)
        ensures
            res == *self,
    {
        Expr { code: self.code.clone() }
    }
}

} // verus!
