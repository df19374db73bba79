//! The unified error taxonomy of the evaluator: lexical errors carry the
//! character offset (equal to the byte offset, since everything before an
//! error position is 7-bit ASCII); the other kinds are bare discriminants.

use vstd::prelude::*;

verus! {

#[derive(Debug, Clone, Copy, PartialEq, Eq, Structural)]
pub enum Error {
    /// A character that can start no token, at the given offset.
    UnexpectedChar(usize),
    /// A `.` that directly follows a number, or that no digit follows,
    /// at the given offset.
    MalformedNumber(usize),
    /// The input, or a parenthesized group, holds no expression.
    EmptyInput,
    /// A token that cannot start a primary where one was expected.
    UnexpectedToken,
    /// A `(` whose matching `)` never arrived.
    MissingRParen,
    /// A leftover token after a complete expression.
    TrailingGarbage,
    /// A division whose right-hand side evaluated to exactly zero.
    DivisionByZero,
    /// A number or intermediate result outside the representable range,
    /// or an exponent that is not an integer.
    NonFinite,
}

} // verus!
