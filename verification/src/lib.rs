//! # A tiny interpreter for a LISP like language
//!
//! The verified part of the interpreter: the tokeniser and parser that turn a script into an
//! abstract syntax tree, the expressions that a tree compiles to and their linking, the linked
//! lists of values, the lambda store, the evaluation environment and the parse context.
use vstd::prelude::*;

pub mod allocation;
pub mod ast;
pub mod common;
pub mod exp;
pub mod lambda;
pub mod text;
pub mod val;

pub use common::Serializable;
pub use exp::{cmd::Context, env::Environment, Expression};
pub use val::cons::Cons;

verus! {

} // verus!
