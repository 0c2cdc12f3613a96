//! A just-in-time compiler for a small imperative language with functions,
//! 64-bit integer arithmetic, `if`/`while` control flow and calls.
//!
//! Source text is lexed and parsed into an abstract syntax tree, checked for
//! static-semantic errors, renamed into static single-assignment form,
//! lowered to a flat three-address intermediate representation, analysed for
//! variable liveness, register-allocated, and finally emitted as a sequence
//! of x86-64 instructions.  Function resolution happens at run time through a
//! resolver callback, so functions are compiled on demand.

pub mod emitter;
pub mod ir;
pub mod jit;
pub mod lifetime;
pub mod lexer;
pub mod semantic;
pub mod ssa;
pub mod var_allocator;
pub mod ssa_unique;
pub mod parser;
pub mod predefined_functions;
pub mod names;

use vstd::prelude::*;

verus! {

} // verus!
