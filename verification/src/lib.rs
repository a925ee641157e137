//! Verified core of the Brix lowering crate: the L3 evaluator and runner, the
//! strict external-input decoder, and the plan-level checks they rely on.
use vstd::prelude::*;

pub mod keymap;
pub mod text;
pub mod l3_v2;
pub mod l3;
pub mod input;
pub mod finite_decision;
pub mod l3_run;
pub mod l3_witness_frontier;
pub mod imports;

verus! {

/// A category of "no proof yet". None of them is a refutation.
#[derive(Clone, Debug, PartialEq, Eq)]
pub enum ProofGap {
    /// The checker found a positive obstruction.
    Conflict(String),
    /// The construct lies outside the current lowering or execution fragment.
    UnsupportedFragment(String),
    /// The search ran out of budget before deciding.
    ExhaustedSearch(String),
    /// No proof was found, which is not evidence of falsehood.
    AbsenceOfProof(String),
}

} // verus!
