//! The witness-frontier profile's plan: the closed rules of a rule-agenda
//! plan, offered as a finite frontier of witnesses.
use vstd::prelude::*;

use crate::l3::{L3LowerError, L3PlanV1, L3ValueV1, PlanLimitsV1};

verus! {

/// The profile marker of witness-frontier plans.
pub const L3_WITNESS_FRONTIER_PROFILE: &'static str = "brix.l3.witness-frontier@1";

/// One closed rule of the frontier.
#[derive(Clone, Debug, PartialEq, Eq)]
pub struct WitnessRule {
    pub ordinal: u64,
    pub name: String,
    pub value: L3ValueV1,
}

/// A normalized, finite set of closed rules, with the plan they came from.
#[derive(Clone, Debug, PartialEq, Eq)]
pub struct WitnessFrontierPlan {
    pub profile: String,
    pub rules: Vec<WitnessRule>,
    pub limits: PlanLimitsV1,
    source: L3PlanV1,
}

/// Why a module could not be lowered to a witness-frontier plan.
#[derive(Clone, Debug, PartialEq, Eq)]
pub enum WitnessFrontierLowerError {
    ProfileMismatch { expected: String, found: String },
    ClosedRule(L3LowerError),
}

} // verus!
