//! The stable reason codes of a rule-agenda run that ends in `Unknown`, and
//! the operator-facing detail behind an adapter integrity failure.
use vstd::prelude::*;

verus! {

/// A stable, versioned reason code for an `Unknown` run result. Ordinals are
/// part of the interface: append-only, never reordered.
#[derive(Clone, Copy, PartialEq, Eq, PartialOrd, Ord, Hash, Debug, Structural)]
pub enum L3UnknownReasonV1 {
    AdministrativeBudgetExhausted,
    AdministrativeStateBudgetExhausted,
    VisibleBudgetExhausted,
    ProfileError,
    CommitFailed,
    UndeclaredAssumption,
    AssumptionViolated,
    KeyConflict,
    AdapterIntegrityFailure,
    DivergenceObserved,
}

/// The ordinal of each reason, in declaration order from zero.
pub open spec fn reason_ordinal(r: L3UnknownReasonV1) -> u64 {
    match r {
        L3UnknownReasonV1::AdministrativeBudgetExhausted => 0,
        L3UnknownReasonV1::AdministrativeStateBudgetExhausted => 1,
        L3UnknownReasonV1::VisibleBudgetExhausted => 2,
        L3UnknownReasonV1::ProfileError => 3,
        L3UnknownReasonV1::CommitFailed => 4,
        L3UnknownReasonV1::UndeclaredAssumption => 5,
        L3UnknownReasonV1::AssumptionViolated => 6,
        L3UnknownReasonV1::KeyConflict => 7,
        L3UnknownReasonV1::AdapterIntegrityFailure => 8,
        L3UnknownReasonV1::DivergenceObserved => 9,
    }
}

impl L3UnknownReasonV1 {
    /// The canonical ordinal of this reason.
    pub fn ordinal(self) -> (n: u64)
        ensures
            n == reason_ordinal(self),
    {
        match self {
            L3UnknownReasonV1::AdministrativeBudgetExhausted => 0,
            L3UnknownReasonV1::AdministrativeStateBudgetExhausted => 1,
            L3UnknownReasonV1::VisibleBudgetExhausted => 2,
            L3UnknownReasonV1::ProfileError => 3,
            L3UnknownReasonV1::CommitFailed => 4,
            L3UnknownReasonV1::UndeclaredAssumption => 5,
            L3UnknownReasonV1::AssumptionViolated => 6,
            L3UnknownReasonV1::KeyConflict => 7,
            L3UnknownReasonV1::AdapterIntegrityFailure => 8,
            L3UnknownReasonV1::DivergenceObserved => 9,
        }
    }
}

/// Distinct reasons have distinct ordinals, and every ordinal is below ten.
pub proof fn lemma_reason_ordinals_distinct(a: L3UnknownReasonV1, b: L3UnknownReasonV1)
    ensures
        reason_ordinal(a) < 10,
        reason_ordinal(a) == reason_ordinal(b) <==> a == b,
{
}

/// Operator-facing detail behind an adapter integrity failure; never part of
/// any identity.
#[derive(Clone, Debug, PartialEq, Eq)]
pub enum AdapterFailureDetail {
    DifferentialMismatch,
    IncrementalViewMismatch,
    ProspectiveSuccessorMismatch,
    UnresolvedHandle,
    UnknownCandidate,
    FrontierIntegrity(String),
}

} // verus!
