//! Runtime values.

use vstd::prelude::*;
use crate::number::{Number, Rat, rat_eq, rat_text};

verus! {

#[derive(Debug)]
pub enum Object {
    Number(Number),
    Bool(bool),
    String(String),
    Nil,
}

/// A runtime value as the contracts see it.
pub enum Value {
    Num(Rat),
    Bool(bool),
    Str(Seq<char>),
    Nil,
}

impl View for Object {
    type V = Value;

    open spec fn view(&self) -> Value {
        match self {
            Object::Number(n) => Value::Num(n@),
            Object::Bool(b) => Value::Bool(*b),
            Object::String(s) => Value::Str(s@),
            Object::Nil => Value::Nil,
        }
    }
}

impl Clone for Object {
    fn clone(&self) -> (r: Self)
        ensures
            r == *self,
    {
        match self {
            Object::Number(n) => Object::Number(n.clone()),
            Object::Bool(b) => Object::Bool(*b),
            Object::String(s) => Object::String(s.clone()),
            Object::Nil => Object::Nil,
        }
    }
}

/// `nil` and `false` are false; every other value, `0` and `""` included,
/// is true.
pub open spec fn truthy(v: Value) -> bool {
    match v {
        Value::Nil => false,
        Value::Bool(b) => b,
        _ => true,
    }
}

/// Equality of values: same kind and same value; values of different
/// kinds are never equal.
pub open spec fn values_equal(a: Value, b: Value) -> bool {
    match (a, b) {
        (Value::Num(x), Value::Num(y)) => rat_eq(x, y),
        (Value::Bool(x), Value::Bool(y)) => x == y,
        (Value::Str(x), Value::Str(y)) => x == y,
        (Value::Nil, Value::Nil) => true,
        _ => false,
    }
}

/// How a value is printed: numbers as in `Number::text`, `true` / `false`,
/// `nil`, and strings as they are, without quotes.
pub open spec fn value_text(v: Value) -> Seq<char> {
    match v {
        Value::Num(n) => rat_text(n),
        Value::Bool(b) => if b {
            "true"@
        } else {
            "false"@
        },
        Value::Str(s) => s,
        Value::Nil => "nil"@,
    }
}

impl Object {
    pub fn is_truthy(&self) -> (r: bool)
        ensures
            r == truthy(self@),
    {
        match self {
            Object::Nil => false,
            Object::Bool(b) => *b,
            _ => true,
        }
    }

    /// The number that the value holds, or the message that it is not one.
    pub fn as_number(&self) -> (r: Result<Number, String>)
        ensures
            self is Number ==> r == Ok::<Number, String>(self->Number_0),
            !(self is Number) ==> r is Err && r->Err_0@ == "Operand must be a number."@,
    {
        match self {
            Object::Number(n) => Ok(n.clone()),
            _ => Err(String::from_str("Operand must be a number.")),
        }
    }

    /// Whether two values are equal (see `values_equal`).
    pub fn equals(&self, other: &Object) -> (r: bool)
        ensures
            r == values_equal(self@, other@),
    {
        match (self, other) {
            (Object::Number(a), Object::Number(b)) => a.equals(b),
            (Object::Bool(a), Object::Bool(b)) => *a == *b,
            (Object::String(a), Object::String(b)) => *a == *b,
            (Object::Nil, Object::Nil) => true,
            _ => false,
        }
    }

    /// The printed form of the value (see `value_text`).
    pub fn to_text(&self) -> (r: String)
        ensures
            r@ == value_text(self@),
    {
        match self {
            Object::Number(n) => n.to_text(),
            Object::Bool(b) => if *b {
                String::from_str("true")
            } else {
                String::from_str("false")
            },
            Object::String(s) => s.clone(),
            Object::Nil => String::from_str("nil"),
        }
    }
}

impl PartialEq for Object {
    fn eq(&self, other: &Object) -> (r: bool) {
        self.equals(other)
    }
}

impl vstd::std_specs::cmp::PartialEqSpecImpl for Object {
    open spec fn obeys_eq_spec() -> bool {
        true
    }

    open spec fn eq_spec(&self, other: &Object) -> bool {
        values_equal(self@, other@)
    }
}

} // verus!
