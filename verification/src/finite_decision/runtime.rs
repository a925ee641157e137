//! The finite-decision runtime's vocabulary: value types, the errors that
//! stop a runtime from being built, and the reasons a deliberation ends
//! without a decision.
use vstd::prelude::*;
use crate::input::validation::validation_error_text;
use crate::l3_v2::fault_debug;
use crate::text::{decimal, owned, u64_text};

pub use crate::l3_v2::{type_of_value, L3ValueType};

use crate::input::validation::InputValidationError;
use crate::l3_v2::EvalFault;

verus! {

/// Why a finite-decision runtime could not be built.
#[derive(Clone, Debug, PartialEq, Eq)]
pub enum FiniteDecisionBuildError {
    InputValidation(InputValidationError),
    MissingProposal { candidate: String },
}

impl From<InputValidationError> for FiniteDecisionBuildError {
    fn from(err: InputValidationError) -> (r: Self) {
        FiniteDecisionBuildError::InputValidation(err)
    }
}

impl vstd::std_specs::convert::FromSpecImpl<InputValidationError> for FiniteDecisionBuildError {
    open spec fn obeys_from_spec() -> bool {
        true
    }

    open spec fn from_spec(err: InputValidationError) -> Self {
        FiniteDecisionBuildError::InputValidation(err)
    }
}

/// Why a deliberation ended without publishing a decision.
#[derive(Clone, Debug, PartialEq, Eq)]
pub enum FiniteDecisionUnknownReason {
    ExpressionEvaluationFault { context: String, fault: EvalFault },
    DependencyFault { context: String, detail: String },
    TypeFault { context: String, detail: String },
    DecisionKeyConflict { detail: String },
    AdmissionError { candidate: String, detail: String },
    EvaluationError { detail: String },
    InvalidPhase { candidate: String, phase: u64 },
    QuiescenceVerificationFault { detail: String },
    CommitTickError { detail: String },
    InvariantViolation { detail: String },
}

/// An expression could not be evaluated.
pub open spec fn expression_class(r: FiniteDecisionUnknownReason) -> bool {
    r is ExpressionEvaluationFault
}

/// A value had the wrong type.
pub open spec fn type_class(r: FiniteDecisionUnknownReason) -> bool {
    r is TypeFault
}

/// A dependency could not be resolved.
pub open spec fn dependency_class(r: FiniteDecisionUnknownReason) -> bool {
    r is DependencyFault
}

/// The frontier deliberation failed.
pub open spec fn frontier_class(r: FiniteDecisionUnknownReason) -> bool {
    r is DecisionKeyConflict || r is AdmissionError || r is EvaluationError || r is InvalidPhase
}

/// Committing or settling failed.
pub open spec fn commit_class(r: FiniteDecisionUnknownReason) -> bool {
    r is CommitTickError || r is QuiescenceVerificationFault || r is InvariantViolation
}

/// Number of the classes a reason falls in.
pub open spec fn class_count(r: FiniteDecisionUnknownReason) -> int {
    (if expression_class(r) { 1int } else { 0 }) + (if type_class(r) { 1int } else { 0 }) + (if dependency_class(r) {
        1int
    } else {
        0
    }) + (if frontier_class(r) { 1int } else { 0 }) + (if commit_class(r) { 1int } else { 0 })
}

impl FiniteDecisionUnknownReason {
    /// Whether this reason is an expression evaluation fault.
    pub fn is_expression_fault(&self) -> (b: bool)
        ensures
            b == expression_class(*self),
    {
        matches!(self, FiniteDecisionUnknownReason::ExpressionEvaluationFault { .. })
    }

    /// Whether this reason is a type fault.
    pub fn is_type_fault(&self) -> (b: bool)
        ensures
            b == type_class(*self),
    {
        matches!(self, FiniteDecisionUnknownReason::TypeFault { .. })
    }

    /// Whether this reason is a dependency fault.
    pub fn is_dependency_fault(&self) -> (b: bool)
        ensures
            b == dependency_class(*self),
    {
        matches!(self, FiniteDecisionUnknownReason::DependencyFault { .. })
    }

    /// Whether this reason is a frontier deliberation fault.
    pub fn is_frontier_fault(&self) -> (b: bool)
        ensures
            b == frontier_class(*self),
    {
        match self {
            FiniteDecisionUnknownReason::DecisionKeyConflict { .. } => true,
            FiniteDecisionUnknownReason::AdmissionError { .. } => true,
            FiniteDecisionUnknownReason::EvaluationError { .. } => true,
            FiniteDecisionUnknownReason::InvalidPhase { .. } => true,
            _ => false,
        }
    }

    /// Whether this reason is a commit or settlement fault.
    pub fn is_commit_fault(&self) -> (b: bool)
        ensures
            b == commit_class(*self),
    {
        match self {
            FiniteDecisionUnknownReason::CommitTickError { .. } => true,
            FiniteDecisionUnknownReason::QuiescenceVerificationFault { .. } => true,
            FiniteDecisionUnknownReason::InvariantViolation { .. } => true,
            _ => false,
        }
    }
}

/// Every reason falls in exactly one of the five classes: expression, type,
/// dependency, frontier, or commit.
pub proof fn lemma_reason_in_one_class(r: FiniteDecisionUnknownReason)
    ensures
        class_count(r) == 1,
{
}

/// The diagnostic text of an unknown reason.
pub open spec fn reason_text(e: FiniteDecisionUnknownReason) -> Seq<char> {
    match e {
        FiniteDecisionUnknownReason::ExpressionEvaluationFault { context, fault } => "expression evaluation fault in "@ + context@ + ": "@ + fault_debug(fault),
        FiniteDecisionUnknownReason::DependencyFault { context, detail } => "dependency fault in "@ + context@ + ": "@ + detail@,
        FiniteDecisionUnknownReason::TypeFault { context, detail } => "type fault in "@ + context@ + ": "@ + detail@,
        FiniteDecisionUnknownReason::DecisionKeyConflict { detail } => "decision key conflict under B^uk discipline: "@ + detail@,
        FiniteDecisionUnknownReason::AdmissionError { candidate, detail } => "deliberation frontier admission error for candidate '"@ + candidate@ + "': "@ + detail@,
        FiniteDecisionUnknownReason::EvaluationError { detail } => "deliberation frontier evaluation error: "@ + detail@,
        FiniteDecisionUnknownReason::InvalidPhase { candidate, phase } => "candidate '"@ + candidate@ + "' declared invalid non-zero phase "@ + decimal(phase as nat),
        FiniteDecisionUnknownReason::QuiescenceVerificationFault { detail } => "quiescence verification fault: "@ + detail@,
        FiniteDecisionUnknownReason::CommitTickError { detail } => "commit tick error: "@ + detail@,
        FiniteDecisionUnknownReason::InvariantViolation { detail } => "invariant violation: "@ + detail@,
    }
}

impl FiniteDecisionUnknownReason {
    /// The diagnostic text of an unknown reason.
    pub fn to_display_string(&self) -> (s: String)
        ensures
            s@ == reason_text(*self),
    {
        match self {
            FiniteDecisionUnknownReason::ExpressionEvaluationFault { context, fault } => {
                let mut s = owned("expression evaluation fault in ");
                s.append(context.as_str());
                s.append(": ");
                let t2 = fault.to_debug_string();
                s.append(t2.as_str());
                s
            },
            FiniteDecisionUnknownReason::DependencyFault { context, detail } => {
                let mut s = owned("dependency fault in ");
                s.append(context.as_str());
                s.append(": ");
                s.append(detail.as_str());
                s
            },
            FiniteDecisionUnknownReason::TypeFault { context, detail } => {
                let mut s = owned("type fault in ");
                s.append(context.as_str());
                s.append(": ");
                s.append(detail.as_str());
                s
            },
            FiniteDecisionUnknownReason::DecisionKeyConflict { detail } => {
                let mut s = owned("decision key conflict under B^uk discipline: ");
                s.append(detail.as_str());
                s
            },
            FiniteDecisionUnknownReason::AdmissionError { candidate, detail } => {
                let mut s = owned("deliberation frontier admission error for candidate '");
                s.append(candidate.as_str());
                s.append("': ");
                s.append(detail.as_str());
                s
            },
            FiniteDecisionUnknownReason::EvaluationError { detail } => {
                let mut s = owned("deliberation frontier evaluation error: ");
                s.append(detail.as_str());
                s
            },
            FiniteDecisionUnknownReason::InvalidPhase { candidate, phase } => {
                let mut s = owned("candidate '");
                s.append(candidate.as_str());
                s.append("' declared invalid non-zero phase ");
                let t2 = u64_text(*phase);
                s.append(t2.as_str());
                s
            },
            FiniteDecisionUnknownReason::QuiescenceVerificationFault { detail } => {
                let mut s = owned("quiescence verification fault: ");
                s.append(detail.as_str());
                s
            },
            FiniteDecisionUnknownReason::CommitTickError { detail } => {
                let mut s = owned("commit tick error: ");
                s.append(detail.as_str());
                s
            },
            FiniteDecisionUnknownReason::InvariantViolation { detail } => {
                let mut s = owned("invariant violation: ");
                s.append(detail.as_str());
                s
            },
        }
    }
}

/// The diagnostic text of a build error.
pub open spec fn build_error_text(e: FiniteDecisionBuildError) -> Seq<char> {
    match e {
        FiniteDecisionBuildError::InputValidation(err) => "input validation failed: "@ + validation_error_text(err),
        FiniteDecisionBuildError::MissingProposal { candidate } => "candidate '"@ + candidate@ + "' in commit was not found in declared proposals"@,
    }
}

impl FiniteDecisionBuildError {
    /// The diagnostic text of a build error.
    pub fn to_display_string(&self) -> (s: String)
        ensures
            s@ == build_error_text(*self),
    {
        match self {
            FiniteDecisionBuildError::InputValidation(err) => {
                let mut s = owned("input validation failed: ");
                let t0 = err.to_display_string();
                s.append(t0.as_str());
                s
            },
            FiniteDecisionBuildError::MissingProposal { candidate } => {
                let mut s = owned("candidate '");
                s.append(candidate.as_str());
                s.append("' in commit was not found in declared proposals");
                s
            },
        }
    }
}

} // verus!
