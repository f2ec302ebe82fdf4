//! Errors that stop a running program.

use vstd::prelude::*;
use crate::parser::ParseError;

verus! {

#[derive(Debug)]
pub enum InterpreterError {
    /// `-` applied to a value that is not a number.
    InvalidUnaryOperand { line: usize },
    /// An arithmetic or comparison operator applied to values it does not
    /// take.
    InvalidBinaryOperands { line: usize },
    /// A variable read or assigned that no scope defines.
    UndefinedVariable { name: String, line: usize },
    /// A division whose divisor is zero.
    DivisionByZero { line: usize },
    GenericError { message: String },
    ParseError { source: ParseError },
}

} // verus!
