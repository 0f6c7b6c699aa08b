//! The flat binary form of untyped lambda-calculus programs: a bit-packed
//! encoding of a program's version and term tree, with readers that reject
//! malformed input with a typed error.
//!
//! `bits` holds the bit-level primitives, `ast` the program types and their
//! mathematical models, `builtins` the table of builtin functions, and `flat`
//! the codec for terms and programs with its round-trip laws.

use vstd::prelude::*;

pub mod ast;
pub mod bits;
pub mod builtins;
pub mod flat;

verus! {

} // verus!
