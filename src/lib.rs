//! An arithmetic expression evaluator with named memory slots.
//!
//! A line of input is split into tokens, parsed under the usual precedence
//! of `*` and `/` over `+` and `-`, and evaluated against a store of named
//! slots. The numeric domain is left to the caller, who supplies the
//! arithmetic; everything else is verified here.
use vstd::prelude::*;

pub mod literal;
pub mod token;
pub mod grammar;
pub mod parser;
pub mod memory;
pub mod eval;
pub mod session;

verus! {

} // verus!
