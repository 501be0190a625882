use vstd::prelude::*;

pub mod ast;
pub mod calc;
pub mod engine;
pub mod score;
pub mod synth_tree;

verus! {

/// Word type used for all register values, trace outputs and arithmetic.
pub type BaseT = i64;

} // verus!
