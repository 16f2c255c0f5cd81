use vstd::prelude::*;

verus! {

/// The closed taxonomy of formula failures.
#[derive(Debug, Clone, Copy, PartialEq, Eq, Structural)]
pub enum FormulaErrorMsg {
    /// A reference resolved to the very position being evaluated.
    CircularReference,
    /// A reference token could not be decoded, or an axis left the
    /// representable coordinate range.
    InvalidReference,
    /// A required coercion (to number, boolean, or a common comparison type)
    /// failed.
    TypeMismatch,
    /// Division by zero.
    DivideByZero,
    /// A function was called with the wrong number of arguments.
    WrongArity,
    /// A call named a function the library does not know.
    UnknownFunction,
    /// Malformed formula syntax; parsing aborts without producing a tree.
    ParseError,
    /// The exact numeric result cannot be represented: it lies outside the
    /// signed 64-bit range, or it is not an integer (division with a
    /// remainder, or a negative exponent).
    Overflow,
}

/// An evaluation or parse failure, carried as a first-class value.
#[derive(Debug, Clone, Copy, PartialEq, Eq, Structural)]
pub struct FormulaError {
    pub msg: FormulaErrorMsg,
}

impl FormulaError {
    pub fn new(msg: FormulaErrorMsg) -> (r: FormulaError)
        ensures
            r.msg == msg,
    {
        FormulaError { msg }
    }
}

} // verus!
