//! An arithmetic expression evaluator built from three verified layers —
//! a tokenizer, a precedence-climbing parser and an evaluator over exact
//! rational numbers — together with a handful of small verified utility
//! modules (first-in-first-out lists, a key/value configuration store
//! and a substring search).

use vstd::prelude::*;

pub mod config;
pub mod error;
pub mod eval;
pub mod find;
pub mod iterators;
pub mod laws;
pub mod list;
pub mod parser;
pub mod token;
pub mod tokenizer;
pub mod value;

verus! {

/// A small tuple struct kept around to exercise the standard `Debug`
/// formatting machinery.
#[derive(Debug)]
pub struct MyStruct(usize);

} // verus!
