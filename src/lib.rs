//! Bevel: a small logic language with functional surface syntax and the
//! semantics of pure Prolog. This crate holds its engine: terms, the clause
//! database and its lowering from the syntax tree, unification, builtins and
//! the backtracking solver.

pub mod ast;
pub mod builtins;
pub mod checks;
pub mod laws;
pub mod frames;
pub mod lower;
pub mod number;
pub mod optimize;
pub mod program;
pub mod render;
pub mod solve;
pub mod span;
pub mod term;
pub mod unifier;
pub mod unify;

use vstd::prelude::*;

verus! {

/// Frame id given to every variable of a top-level query; only bindings of
/// such variables are reported as answers.
pub const REPL_FRAME_ID: u32 = 1;

} // verus!
