//! The lexical atoms of an arithmetic expression.

use vstd::prelude::*;

use crate::value::Value;

verus! {

#[derive(Debug, Clone, Copy, PartialEq, Eq, Structural)]
pub enum Token {
    Add,
    Subtract,
    Multiply,
    Divide,
    Caret,
    LeftParen,
    RightParen,
    Num(Value),
    EOF,
}

} // verus!
