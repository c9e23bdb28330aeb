//! Core values of the language: the `Value` enum, the persistent list
//! `FlList` and the parser that turns source text into values.
use std::sync::Arc;
use vstd::prelude::*;

use float::{float_bits_eq, float_bits_equal, float_exponent_field, float_is_nan, float_is_zero};

pub mod list;
pub mod parser;
pub mod decimal;
pub mod float;

pub use list::{FlList, FlListIter};
pub use parser::parser::Parser;

verus! {

/// Hands out another handle on the allocation behind `a` (`Arc::clone`).
/// Trusted: the new handle points at the same contents, so it is equal to
/// `a` as a value; nothing is said of the reference count.
#[verifier::external_body]
pub(crate) fn share<T>(a: &Arc<T>) -> (res: Arc<T>)
    ensures
        res == *a,
{
    Arc::clone(a)
}

/// A value of the language.
///
/// A floating-point number is held as its IEEE-754 binary64 bit pattern
/// (what `f64::to_bits` gives); `float_bits_eq` says when two of them are
/// equal as numbers.
#[derive(Debug)]
pub enum Value {
    Nil,
    Integer(i64),
    Float(u64),
    List(FlList),
    /// A symbol: its name and the comment that stood before it.
    Symbol(Arc<String>, Option<Arc<String>>),
    Text(Arc<String>),
    /// A map (not implemented yet).
    Mapping(),
    /// An object (not implemented yet).
    Object(),
    /// A function (not implemented yet).
    Function(),
    Error(Arc<String>),
}

/// What `==` on values means: nil equals nil; integers, texts and errors
/// compare by content; floats compare as IEEE-754 numbers; symbols compare by
/// name, whatever their comments; everything else (lists among them) is
/// unequal.
pub open spec fn value_equal(a: Value, b: Value) -> bool {
    match (a, b) {
        (Value::Nil, Value::Nil) => true,
        (Value::Integer(s), Value::Integer(o)) => s == o,
        (Value::Float(s), Value::Float(o)) => float_bits_equal(s, o),
        (Value::Text(s), Value::Text(o)) => s@ == o@,
        (Value::Symbol(s, _), Value::Symbol(o, _)) => s@ == o@,
        (Value::Error(s), Value::Error(o)) => s@ == o@,
        _ => false,
    }
}

/// Equality of values is symmetric.
pub proof fn lemma_value_equal_symmetric(a: Value, b: Value)
    ensures
        value_equal(a, b) == value_equal(b, a),
{
}

/// Integers are equal exactly when they are the same number; texts and
/// errors exactly when they hold the same characters.
pub proof fn lemma_equality_by_content(s: i64, o: i64, a: Arc<String>, b: Arc<String>)
    ensures
        value_equal(Value::Integer(s), Value::Integer(o)) == (s == o),
        value_equal(Value::Text(a), Value::Text(b)) == (a@ == b@),
        value_equal(Value::Error(a), Value::Error(b)) == (a@ == b@),
        !value_equal(Value::Integer(s), Value::Text(a)),
        !value_equal(Value::Text(a), Value::Error(b)),
{
}

/// Symbols are equal exactly when their names are: their comments do not
/// count.
pub proof fn lemma_symbol_equality_ignores_comment(
    name1: Arc<String>,
    comment1: Option<Arc<String>>,
    name2: Arc<String>,
    comment2: Option<Arc<String>>,
)
    ensures
        value_equal(Value::Symbol(name1, comment1), Value::Symbol(name2, comment2)) == (name1@
            == name2@),
{
}

/// A list is never equal to a value, not even to itself; nor is a NaN.
pub proof fn lemma_lists_and_nans_are_unequal(list: FlList, bits: u64, other: Value)
    ensures
        !value_equal(Value::List(list), other),
        float_is_nan(bits) ==> !value_equal(Value::Float(bits), other),
{
}

/// The two zeros are equal as floats.
pub proof fn lemma_zeros_are_equal(a: u64, b: u64)
    requires
        float_is_zero(a),
        float_is_zero(b),
    ensures
        value_equal(Value::Float(a), Value::Float(b)),
{
    assert(float_exponent_field(a) == 0 && float_exponent_field(b) == 0) by (bit_vector)
        requires
            a & 0x7fff_ffff_ffff_ffffu64 == 0,
            b & 0x7fff_ffff_ffff_ffffu64 == 0,
    ;
}

impl Clone for Value {
    fn clone(&self) -> (res: Self)
        ensures
            res == *self,
    {
        match self {
            Value::Nil => Value::Nil,
            Value::Integer(i) => Value::Integer(*i),
            Value::Float(f) => Value::Float(*f),
            Value::Symbol(n, c) => {
                let comment = match c {
                    Some(c) => Some(share(c)),
                    None => None,
                };
                Value::Symbol(share(n), comment)
            },
            Value::Text(s) => Value::Text(share(s)),
            Value::List(list) => Value::List(list.clone()),
            Value::Mapping() => Value::Mapping(),
            Value::Object() => Value::Object(),
            Value::Function() => Value::Function(),
            Value::Error(s) => Value::Error(share(s)),
        }
    }
}

impl PartialEq for Value {
    fn eq(&self, other: &Self) -> (res: bool) {
        match (self, other) {
            (Value::Nil, Value::Nil) => true,
            (Value::Integer(s), Value::Integer(o)) => *s == *o,
            (Value::Float(s), Value::Float(o)) => float_bits_eq(*s, *o),
            (Value::Text(s), Value::Text(o)) => **s == **o,
            (Value::Symbol(s, _), Value::Symbol(o, _)) => **s == **o,
            (Value::Error(s), Value::Error(o)) => **s == **o,
            _ => false,
        }
    }
}

impl vstd::std_specs::cmp::PartialEqSpecImpl for Value {
    open spec fn obeys_eq_spec() -> bool {
        true
    }

    open spec fn eq_spec(&self, other: &Value) -> bool {
        value_equal(*self, *other)
    }
}

/// An error of the language, carrying its message.
#[derive(Debug, PartialEq)]
pub struct FlError {
    message: Arc<String>,
}

impl View for FlError {
    type V = Seq<char>;

    /// The error's message.
    closed spec fn view(&self) -> Seq<char> {
        self.message@
    }
}

impl FlError {
    /// An error with the given message.
    pub fn new(message: &str) -> (res: FlError)
        ensures
            res@ == message@,
    {
        Self::new_arc(Arc::new(message.to_owned()))
    }

    /// An error whose message is the shared text `message`.
    pub fn new_arc(message: Arc<String>) -> (res: FlError)
        ensures
            res@ == message@,
    {
        FlError { message: share(&message) }
    }

    /// The error as it is displayed: `TODO ` followed by the message.
    pub fn display_text(&self) -> (res: String)
        ensures
            res@ == "TODO "@ + self@,
    {
        let mut text = String::from_str("TODO ");
        text.append(self.message.as_str());
        text
    }
}

} // verus!
