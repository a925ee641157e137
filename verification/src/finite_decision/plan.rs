//! The lowered finite-decision plan, lookups into it, and the call-graph
//! checks on its helper functions.
use vstd::prelude::*;
use crate::l3_v2::lower_error_debug;
use crate::text::{decimal, joined, join_with, owned, usize_text};

use crate::keymap::{assoc_get, KeyMap};
use crate::l3_v2::semantics::{arg_exprs, field_exprs};
use crate::l3_v2::exhaustive::arm_exprs;
use crate::l3_v2::{L3ConfigDeclV2, L3ExprV2, L3V2LowerError, L3ValueType};

verus! {

/// The profile marker of finite-decision plans.
pub const FINITE_DECISION_PROFILE: &'static str = "brix.l3.finite-decision@1";

/// Maximum number of functions declared in a finite-decision module.
pub const MAX_FUNCTION_COUNT: usize = 256;

/// Maximum number of parameters of a single function.
pub const MAX_FUNCTION_PARAMS: usize = 32;

/// Maximum nesting depth of expressions.
pub const MAX_EXPR_DEPTH: usize = 128;

/// Maximum number of expression nodes per expression.
pub const MAX_EXPR_NODES: usize = 4096;

/// The grade a contract may carry.
#[derive(Clone, Copy, Debug, PartialEq, Eq)]
pub enum Grade {
    Derived,
    Proven,
    Audited,
}

/// A declared external input.
#[derive(Clone, Debug, PartialEq, Eq)]
pub struct FiniteDecisionInput {
    pub ordinal: u64,
    pub name: String,
    pub ty: L3ValueType,
}

/// A declared parameter or return contract of a helper function.
#[derive(Clone, Debug, PartialEq, Eq)]
pub struct FiniteDecisionContract {
    pub ty: L3ValueType,
    pub grade: Option<Grade>,
}

/// A parameter of a helper function.
#[derive(Clone, Debug, PartialEq, Eq)]
pub struct FiniteDecisionFnParam {
    pub name: String,
    pub contract: Option<FiniteDecisionContract>,
}

/// A normalized pure helper function.
#[derive(Clone, Debug, PartialEq, Eq)]
pub struct FiniteDecisionFunction {
    pub ordinal: u64,
    pub name: String,
    pub params: Vec<FiniteDecisionFnParam>,
    pub ret_contract: Option<FiniteDecisionContract>,
    pub body: L3ExprV2,
}

/// A normalized rule.
#[derive(Clone, Debug, PartialEq, Eq)]
pub struct FiniteDecisionRule {
    pub ordinal: u64,
    pub name: String,
    pub body: L3ExprV2,
    pub depends_on: Vec<String>,
}

/// A candidate proposal.
#[derive(Clone, Debug, PartialEq, Eq)]
pub struct FiniteDecisionProposal {
    pub ordinal: u64,
    pub name: String,
    pub deps: Vec<String>,
    pub priority: u64,
    pub guard: L3ExprV2,
    pub value: L3ExprV2,
}

/// The single commit block.
#[derive(Clone, Debug, PartialEq, Eq)]
pub struct FiniteDecisionCommit {
    pub name: String,
    pub candidates: Vec<String>,
}

/// A lowered finite-decision plan.
#[derive(Clone, Debug, PartialEq, Eq)]
pub struct FiniteDecisionPlan {
    pub profile: String,
    pub configs: Vec<L3ConfigDeclV2>,
    pub inputs: Vec<FiniteDecisionInput>,
    pub functions: Vec<FiniteDecisionFunction>,
    pub lets: Vec<(String, L3ExprV2)>,
    pub rules: Vec<FiniteDecisionRule>,
    pub proposals: Vec<FiniteDecisionProposal>,
    pub commit: FiniteDecisionCommit,
    pub shows: Vec<L3ExprV2>,
}

/// Errors occurring during finite-decision lowering.
#[allow(inconsistent_fields)]
#[derive(Clone, Debug, PartialEq, Eq)]
pub enum FiniteDecisionLowerError {
    ProfileMismatch { expected: String, found: String },
    ItemNotAllowed(String),
    NoCommit,
    MultipleCommits(usize),
    EmptyCommit(String),
    DuplicateProposalName(String),
    DuplicateInputName(String),
    DuplicateFunctionName(String),
    DuplicateItemName(String),
    DuplicateFunctionParameter { func: String, param: String },
    TooManyFunctions { limit: usize, count: usize },
    TooManyFunctionParams { func: String, limit: usize, count: usize },
    FunctionCycle { func: String, cycle: Vec<String> },
    FunctionArityMismatch { func: String, expected: usize, found: usize },
    RuleFactReadInFunction { func: String, fact: String },
    InputReadInFunction { func: String, input: String },
    GlobalLetReadInFunction { func: String, binding: String },
    UnsupportedContractType { ty: String, detail: String },
    UnsupportedContractGrade { grade: Grade, detail: String },
    UnknownContractType { name: String },
    ExpressionDepthExceeded { limit: usize },
    ExpressionNodeLimitExceeded { limit: usize },
    InputNameTooLong { limit: usize },
    UnsupportedInputType { name: String, ty: String },
    UnknownCandidateInCommit { commit: String, candidate: String },
    DuplicateCandidateInCommit { commit: String, candidate: String },
    UndeclaredDependency { proposal: String, dep: String },
    ForwardOrSelfDependency { proposal: String, dep: String },
    UndeclaredFactRead { proposal: String, fact: String },
    FunctionConstructorCollision { func: String, constructor: String },
    DuplicateMatchBinder(String),
    RuleDependencyError(L3V2LowerError),
    ExprError(L3V2LowerError),
    UnresolvedImport(String),
}

/// Index of the first input named `name`.
pub open spec fn input_index(inputs: Seq<FiniteDecisionInput>, name: Seq<char>) -> Option<int> {
    if exists|i: int| 0 <= i < inputs.len() && (#[trigger] inputs[i]).name@ == name {
        Some(choose|i: int| 0 <= i < inputs.len() && inputs[i].name@ == name && forall|j: int| 0 <= j < i ==> (#[trigger] inputs[j]).name@ != name)
    } else {
        None
    }
}

impl FiniteDecisionPlan {
    /// The first declared input named `name`.
    pub fn find_input(&self, name: &str) -> (r: Option<&FiniteDecisionInput>)
        ensures
            match r {
                Some(x) => exists|i: int|
                    0 <= i < self.inputs@.len() && self.inputs@[i] == *x && x.name@ == name@ && forall|j: int|
                        0 <= j < i ==> (#[trigger] self.inputs@[j]).name@ != name@,
                None => forall|i: int| 0 <= i < self.inputs@.len() ==> (#[trigger] self.inputs@[i]).name@ != name@,
            },
    {
        let mut i: usize = 0;
        while i < self.inputs.len()
            invariant
                i <= self.inputs@.len(),
                forall|j: int| 0 <= j < i ==> (#[trigger] self.inputs@[j]).name@ != name@,
            decreases self.inputs@.len() - i,
        {
            if crate::keymap::same_text(self.inputs[i].name.as_str(), name) {
                return Some(&self.inputs[i]);
            }
            i = i + 1;
        }
        None
    }

    /// The first declared function named `name`.
    pub fn find_function(&self, name: &str) -> (r: Option<&FiniteDecisionFunction>)
        ensures
            match r {
                Some(x) => exists|i: int|
                    0 <= i < self.functions@.len() && self.functions@[i] == *x && x.name@ == name@ && forall|j: int|
                        0 <= j < i ==> (#[trigger] self.functions@[j]).name@ != name@,
                None => forall|i: int| 0 <= i < self.functions@.len() ==> (#[trigger] self.functions@[i]).name@ != name@,
            },
    {
        let mut i: usize = 0;
        while i < self.functions.len()
            invariant
                i <= self.functions@.len(),
                forall|j: int| 0 <= j < i ==> (#[trigger] self.functions@[j]).name@ != name@,
            decreases self.functions@.len() - i,
        {
            if crate::keymap::same_text(self.functions[i].name.as_str(), name) {
                return Some(&self.functions[i]);
            }
            i = i + 1;
        }
        None
    }

    /// The first proposal for candidate `name`.
    pub fn find_proposal(&self, name: &str) -> (r: Option<&FiniteDecisionProposal>)
        ensures
            match r {
                Some(x) => exists|i: int|
                    0 <= i < self.proposals@.len() && self.proposals@[i] == *x && x.name@ == name@ && forall|j: int|
                        0 <= j < i ==> (#[trigger] self.proposals@[j]).name@ != name@,
                None => forall|i: int| 0 <= i < self.proposals@.len() ==> (#[trigger] self.proposals@[i]).name@ != name@,
            },
    {
        let mut i: usize = 0;
        while i < self.proposals.len()
            invariant
                i <= self.proposals@.len(),
                forall|j: int| 0 <= j < i ==> (#[trigger] self.proposals@[j]).name@ != name@,
            decreases self.proposals@.len() - i,
        {
            if crate::keymap::same_text(self.proposals[i].name.as_str(), name) {
                return Some(&self.proposals[i]);
            }
            i = i + 1;
        }
        None
    }
}

/// The names of the helpers an expression calls.
pub open spec fn calls_in(e: L3ExprV2) -> Set<Seq<char>>
    decreases e, 1nat, 0nat,
{
    match e {
        L3ExprV2::Call { func, .. } => set![func@] + calls_in_args(e, 0),
        L3ExprV2::Ctor { .. } => calls_in_args(e, 0),
        L3ExprV2::Record { .. } => calls_in_fields(e, 0),
        L3ExprV2::Field(b, _) => calls_in(*b),
        L3ExprV2::Arith(_, a, b) => calls_in(*a) + calls_in(*b),
        L3ExprV2::Cmp(_, a, b) => calls_in(*a) + calls_in(*b),
        L3ExprV2::Match { scrutinee, .. } => calls_in(*scrutinee) + calls_in_arms(e, 0),
        _ => Set::empty(),
    }
}

/// Calls in the arguments of `parent` from index `i` on.
pub open spec fn calls_in_args(parent: L3ExprV2, i: nat) -> Set<Seq<char>>
    decreases parent, 0nat, arg_exprs(parent).len() - i,
{
    if i >= arg_exprs(parent).len() {
        Set::empty()
    } else {
        calls_in(arg_exprs(parent)[i as int]) + calls_in_args(parent, i + 1)
    }
}

/// Calls in the field values of `parent` from index `i` on.
pub open spec fn calls_in_fields(parent: L3ExprV2, i: nat) -> Set<Seq<char>>
    decreases parent, 0nat, field_exprs(parent).len() - i,
{
    if i >= field_exprs(parent).len() {
        Set::empty()
    } else {
        calls_in(field_exprs(parent)[i as int].1) + calls_in_fields(parent, i + 1)
    }
}

/// Calls in the arm bodies of `parent` from index `i` on.
pub open spec fn calls_in_arms(parent: L3ExprV2, i: nat) -> Set<Seq<char>>
    decreases parent, 0nat, arm_exprs(parent).len() - i,
{
    if i >= arm_exprs(parent).len() {
        Set::empty()
    } else {
        calls_in(arm_exprs(parent)[i as int].1) + calls_in_arms(parent, i + 1)
    }
}

/// The names a set-like map holds.
pub open spec fn names_of<V>(m: KeyMap<V>) -> Set<Seq<char>> {
    Set::new(|k: Seq<char>| assoc_get(m.pairs(), k) is Some)
}

/// Record a name in a set-like map.
pub(crate) fn note_name(calls: &mut KeyMap<()>, name: &String)
    ensures
        names_of(*final(calls)) == names_of(*old(calls)).insert(name@),
{
    let ghost before = calls.pairs();
    calls.ascending_now();
    calls.insert(name.clone(), ());
    proof {
        assert forall|k: Seq<char>| #[trigger] names_of(*calls).contains(k) == names_of(*old(calls)).insert(name@).contains(k) by {
            crate::keymap::lemma_insert_get(before, name@, (), k);
        }
        assert(names_of(*calls) =~= names_of(*old(calls)).insert(name@));
    }
}

/// Collect the names of the helpers `e` calls into `calls`.
#[verifier::loop_isolation(false)]
pub fn collect_function_calls(e: &L3ExprV2, calls: &mut KeyMap<()>)
    ensures
        names_of(*final(calls)) == names_of(*old(calls)) + calls_in(*e),
    decreases *e,
{
    match e {
        L3ExprV2::Call { func, args } => {
            note_name(calls, func);
            let ghost mid = names_of(*calls);
            let mut i: usize = 0;
            while i < args.len()
                invariant
                    i <= args@.len(),
                    arg_exprs(*e) == args@,
                    names_of(*calls) + calls_in_args(*e, i as nat) == mid + calls_in_args(*e, 0),
                decreases args@.len() - i,
            {
                proof {
                    assert(decreases_to!(*e => (*e)->Call_args));
                    assert(decreases_to!((*e)->Call_args => (*e)->Call_args@));
                    assert(decreases_to!((*e)->Call_args@ => (*e)->Call_args@[i as int]));
                }
                let ghost before = names_of(*calls);
                collect_function_calls(&args[i], calls);
                proof {
                    assert(names_of(*calls) + calls_in_args(*e, (i + 1) as nat) =~= before + calls_in_args(*e, i as nat));
                }
                i = i + 1;
            }
            proof {
                assert(names_of(*calls) =~= names_of(*calls) + calls_in_args(*e, args@.len() as nat));
                assert(names_of(*calls) =~= names_of(*old(calls)) + calls_in(*e));
            }
        },
        L3ExprV2::Ctor { args, .. } => {
            let mut i: usize = 0;
            while i < args.len()
                invariant
                    i <= args@.len(),
                    arg_exprs(*e) == args@,
                    names_of(*calls) + calls_in_args(*e, i as nat) == names_of(*old(calls)) + calls_in_args(*e, 0),
                decreases args@.len() - i,
            {
                proof {
                    assert(decreases_to!(*e => (*e)->Ctor_args));
                    assert(decreases_to!((*e)->Ctor_args => (*e)->Ctor_args@));
                    assert(decreases_to!((*e)->Ctor_args@ => (*e)->Ctor_args@[i as int]));
                }
                let ghost before = names_of(*calls);
                collect_function_calls(&args[i], calls);
                proof {
                    assert(names_of(*calls) + calls_in_args(*e, (i + 1) as nat) =~= before + calls_in_args(*e, i as nat));
                }
                i = i + 1;
            }
            proof {
                assert(names_of(*calls) =~= names_of(*calls) + calls_in_args(*e, args@.len() as nat));
            }
        },
        L3ExprV2::Record { fields, .. } => {
            let mut i: usize = 0;
            while i < fields.len()
                invariant
                    i <= fields@.len(),
                    field_exprs(*e) == fields@,
                    names_of(*calls) + calls_in_fields(*e, i as nat) == names_of(*old(calls)) + calls_in_fields(*e, 0),
                decreases fields@.len() - i,
            {
                proof {
                    assert(decreases_to!(*e => (*e)->Record_fields));
                    assert(decreases_to!((*e)->Record_fields => (*e)->Record_fields@));
                    assert(decreases_to!((*e)->Record_fields@ => (*e)->Record_fields@[i as int]));
                    assert(decreases_to!((*e)->Record_fields@[i as int] => (*e)->Record_fields@[i as int].1));
                }
                let ghost before = names_of(*calls);
                collect_function_calls(&fields[i].1, calls);
                proof {
                    assert(names_of(*calls) + calls_in_fields(*e, (i + 1) as nat) =~= before + calls_in_fields(*e, i as nat));
                }
                i = i + 1;
            }
            proof {
                assert(names_of(*calls) =~= names_of(*calls) + calls_in_fields(*e, fields@.len() as nat));
            }
        },
        L3ExprV2::Field(b, _) => {
            collect_function_calls(b, calls);
        },
        L3ExprV2::Arith(_, a, b) | L3ExprV2::Cmp(_, a, b) => {
            collect_function_calls(a, calls);
            collect_function_calls(b, calls);
            proof {
                assert(names_of(*calls) =~= names_of(*old(calls)) + calls_in(*e));
            }
        },
        L3ExprV2::Match { scrutinee, arms } => {
            collect_function_calls(scrutinee, calls);
            let ghost mid = names_of(*calls);
            let mut i: usize = 0;
            while i < arms.len()
                invariant
                    i <= arms@.len(),
                    arm_exprs(*e) == arms@,
                    names_of(*calls) + calls_in_arms(*e, i as nat) == mid + calls_in_arms(*e, 0),
                decreases arms@.len() - i,
            {
                proof {
                    assert(decreases_to!(*e => (*e)->Match_arms));
                    assert(decreases_to!((*e)->Match_arms => (*e)->Match_arms@));
                    assert(decreases_to!((*e)->Match_arms@ => (*e)->Match_arms@[i as int]));
                    assert(decreases_to!((*e)->Match_arms@[i as int] => (*e)->Match_arms@[i as int].1));
                }
                let ghost before = names_of(*calls);
                collect_function_calls(&arms[i].1, calls);
                proof {
                    assert(names_of(*calls) + calls_in_arms(*e, (i + 1) as nat) =~= before + calls_in_arms(*e, i as nat));
                }
                i = i + 1;
            }
            proof {
                assert(names_of(*calls) =~= names_of(*calls) + calls_in_arms(*e, arms@.len() as nat));
                assert(names_of(*calls) =~= names_of(*old(calls)) + calls_in(*e));
            }
        },
        _ => {
            proof {
                assert(names_of(*calls) =~= names_of(*old(calls)) + calls_in(*e));
            }
        },
    }
}

/// The `Debug` name of a grade.
pub open spec fn grade_name(g: Grade) -> Seq<char> {
    match g {
        Grade::Derived => "Derived"@,
        Grade::Proven => "Proven"@,
        Grade::Audited => "Audited"@,
    }
}

/// The `Debug` name of a grade.
pub fn grade_name_text(g: Grade) -> (s: String)
    ensures
        s@ == grade_name(g),
{
    match g {
        Grade::Derived => owned("Derived"),
        Grade::Proven => owned("Proven"),
        Grade::Audited => owned("Audited"),
    }
}

/// The diagnostic text of a lowering error.
pub open spec fn plan_error_text(e: FiniteDecisionLowerError) -> Seq<char> {
    match e {
        FiniteDecisionLowerError::ProfileMismatch { expected, found } => "profile mismatch: expected '"@ + expected@ + "', found '"@ + found@ + "'"@,
        FiniteDecisionLowerError::ItemNotAllowed(item) => "item not allowed in finite-decision: "@ + item@,
        FiniteDecisionLowerError::NoCommit => "finite-decision module must contain exactly one commit declaration, found none"@,
        FiniteDecisionLowerError::MultipleCommits(count) => "finite-decision module must contain exactly one commit declaration, found "@ + decimal(count as nat),
        FiniteDecisionLowerError::EmptyCommit(name) => "commit declaration '"@ + name@ + "' has no candidate members"@,
        FiniteDecisionLowerError::DuplicateProposalName(name) => "duplicate proposal name: '"@ + name@ + "'"@,
        FiniteDecisionLowerError::DuplicateInputName(name) => "duplicate input name: '"@ + name@ + "'"@,
        FiniteDecisionLowerError::DuplicateFunctionName(name) => "duplicate function name: '"@ + name@ + "'"@,
        FiniteDecisionLowerError::DuplicateItemName(name) => "duplicate top-level item name: '"@ + name@ + "'"@,
        FiniteDecisionLowerError::DuplicateFunctionParameter { func, param } => "duplicate parameter '"@ + param@ + "' in function '"@ + func@ + "'"@,
        FiniteDecisionLowerError::TooManyFunctions { limit, count } => "function count exceeds limit ("@ + decimal(count as nat) + " > "@ + decimal(limit as nat) + ")"@,
        FiniteDecisionLowerError::TooManyFunctionParams { func, limit, count } => "parameter count in function '"@ + func@ + "' exceeds limit ("@ + decimal(count as nat) + " > "@ + decimal(limit as nat) + ")"@,
        FiniteDecisionLowerError::FunctionCycle { func, cycle } => "function cycle detected involving '"@ + func@ + "': "@ + joined(cycle@.map_values(|s: String| s@), " -> "@),
        FiniteDecisionLowerError::FunctionArityMismatch { func, expected, found } => "function '"@ + func@ + "' expected "@ + decimal(expected as nat) + " argument(s), found "@ + decimal(found as nat),
        FiniteDecisionLowerError::RuleFactReadInFunction { func, fact } => "function '"@ + func@ + "' reads rule fact '"@ + fact@ + "'; pure helpers cannot access rule facts"@,
        FiniteDecisionLowerError::InputReadInFunction { func, input } => "function '"@ + func@ + "' reads input '"@ + input@ + "'; pure helpers cannot access external inputs directly"@,
        FiniteDecisionLowerError::GlobalLetReadInFunction { func, binding } => "function '"@ + func@ + "' reads global binding '"@ + binding@ + "'; pure helpers must take all data as parameters"@,
        FiniteDecisionLowerError::UnsupportedContractType { ty, detail } => "unsupported contract type '"@ + ty@ + "': "@ + detail@,
        FiniteDecisionLowerError::UnsupportedContractGrade { grade, detail } => "unsupported contract grade '"@ + grade_name(grade) + "': "@ + detail@,
        FiniteDecisionLowerError::UnknownContractType { name } => "unknown contract type '"@ + name@ + "'"@,
        FiniteDecisionLowerError::ExpressionDepthExceeded { limit } => "expression nesting depth exceeds limit ("@ + decimal(limit as nat) + ")"@,
        FiniteDecisionLowerError::ExpressionNodeLimitExceeded { limit } => "expression node count exceeds limit ("@ + decimal(limit as nat) + ")"@,
        FiniteDecisionLowerError::InputNameTooLong { limit } => "input name exceeds length limit ("@ + decimal(limit as nat) + " bytes)"@,
        FiniteDecisionLowerError::UnsupportedInputType { name, ty } => "unsupported input type for '"@ + name@ + "': '"@ + ty@ + "' (only Int, Bool, Str are supported)"@,
        FiniteDecisionLowerError::UnknownCandidateInCommit { commit, candidate } => "commit '"@ + commit@ + "' references undeclared proposal '"@ + candidate@ + "'"@,
        FiniteDecisionLowerError::DuplicateCandidateInCommit { commit, candidate } => "commit '"@ + commit@ + "' contains duplicate candidate '"@ + candidate@ + "'"@,
        FiniteDecisionLowerError::UndeclaredDependency { proposal, dep } => "proposal '"@ + proposal@ + "' declares dependency '"@ + dep@ + "' which is not an earlier rule"@,
        FiniteDecisionLowerError::ForwardOrSelfDependency { proposal, dep } => "proposal '"@ + proposal@ + "' has forward or self-dependency on '"@ + dep@ + "'"@,
        FiniteDecisionLowerError::UndeclaredFactRead { proposal, fact } => "proposal '"@ + proposal@ + "' reads fact '"@ + fact@ + "' without declaring it as a dependency"@,
        FiniteDecisionLowerError::FunctionConstructorCollision { func, constructor } => "function '"@ + func@ + "' collides with declared constructor '"@ + constructor@ + "'"@,
        FiniteDecisionLowerError::DuplicateMatchBinder(binder) => "duplicate binder '"@ + binder@ + "' in match pattern"@,
        FiniteDecisionLowerError::RuleDependencyError(err) => "rule dependency error: "@ + lower_error_debug(err),
        FiniteDecisionLowerError::ExprError(err) => "expression lowering error: "@ + lower_error_debug(err),
        FiniteDecisionLowerError::UnresolvedImport(path) => "unresolved import: "@ + path@,
    }
}

impl FiniteDecisionLowerError {
    /// The diagnostic text of a lowering error.
    pub fn to_display_string(&self) -> (s: String)
        ensures
            s@ == plan_error_text(*self),
    {
        match self {
            FiniteDecisionLowerError::ProfileMismatch { expected, found } => {
                let mut s = owned("profile mismatch: expected '");
                s.append(expected.as_str());
                s.append("', found '");
                s.append(found.as_str());
                s.append("'");
                s
            },
            FiniteDecisionLowerError::ItemNotAllowed(item) => {
                let mut s = owned("item not allowed in finite-decision: ");
                s.append(item.as_str());
                s
            },
            FiniteDecisionLowerError::NoCommit => {
                let mut s = owned("finite-decision module must contain exactly one commit declaration, found none");
                s
            },
            FiniteDecisionLowerError::MultipleCommits(count) => {
                let mut s = owned("finite-decision module must contain exactly one commit declaration, found ");
                let t0 = usize_text(*count);
                s.append(t0.as_str());
                s
            },
            FiniteDecisionLowerError::EmptyCommit(name) => {
                let mut s = owned("commit declaration '");
                s.append(name.as_str());
                s.append("' has no candidate members");
                s
            },
            FiniteDecisionLowerError::DuplicateProposalName(name) => {
                let mut s = owned("duplicate proposal name: '");
                s.append(name.as_str());
                s.append("'");
                s
            },
            FiniteDecisionLowerError::DuplicateInputName(name) => {
                let mut s = owned("duplicate input name: '");
                s.append(name.as_str());
                s.append("'");
                s
            },
            FiniteDecisionLowerError::DuplicateFunctionName(name) => {
                let mut s = owned("duplicate function name: '");
                s.append(name.as_str());
                s.append("'");
                s
            },
            FiniteDecisionLowerError::DuplicateItemName(name) => {
                let mut s = owned("duplicate top-level item name: '");
                s.append(name.as_str());
                s.append("'");
                s
            },
            FiniteDecisionLowerError::DuplicateFunctionParameter { func, param } => {
                let mut s = owned("duplicate parameter '");
                s.append(param.as_str());
                s.append("' in function '");
                s.append(func.as_str());
                s.append("'");
                s
            },
            FiniteDecisionLowerError::TooManyFunctions { limit, count } => {
                let mut s = owned("function count exceeds limit (");
                let t0 = usize_text(*count);
                s.append(t0.as_str());
                s.append(" > ");
                let t2 = usize_text(*limit);
                s.append(t2.as_str());
                s.append(")");
                s
            },
            FiniteDecisionLowerError::TooManyFunctionParams { func, limit, count } => {
                let mut s = owned("parameter count in function '");
                s.append(func.as_str());
                s.append("' exceeds limit (");
                let t2 = usize_text(*count);
                s.append(t2.as_str());
                s.append(" > ");
                let t4 = usize_text(*limit);
                s.append(t4.as_str());
                s.append(")");
                s
            },
            FiniteDecisionLowerError::FunctionCycle { func, cycle } => {
                let mut s = owned("function cycle detected involving '");
                s.append(func.as_str());
                s.append("': ");
                let t2 = join_with(cycle, " -> ");
                s.append(t2.as_str());
                s
            },
            FiniteDecisionLowerError::FunctionArityMismatch { func, expected, found } => {
                let mut s = owned("function '");
                s.append(func.as_str());
                s.append("' expected ");
                let t2 = usize_text(*expected);
                s.append(t2.as_str());
                s.append(" argument(s), found ");
                let t4 = usize_text(*found);
                s.append(t4.as_str());
                s
            },
            FiniteDecisionLowerError::RuleFactReadInFunction { func, fact } => {
                let mut s = owned("function '");
                s.append(func.as_str());
                s.append("' reads rule fact '");
                s.append(fact.as_str());
                s.append("'; pure helpers cannot access rule facts");
                s
            },
            FiniteDecisionLowerError::InputReadInFunction { func, input } => {
                let mut s = owned("function '");
                s.append(func.as_str());
                s.append("' reads input '");
                s.append(input.as_str());
                s.append("'; pure helpers cannot access external inputs directly");
                s
            },
            FiniteDecisionLowerError::GlobalLetReadInFunction { func, binding } => {
                let mut s = owned("function '");
                s.append(func.as_str());
                s.append("' reads global binding '");
                s.append(binding.as_str());
                s.append("'; pure helpers must take all data as parameters");
                s
            },
            FiniteDecisionLowerError::UnsupportedContractType { ty, detail } => {
                let mut s = owned("unsupported contract type '");
                s.append(ty.as_str());
                s.append("': ");
                s.append(detail.as_str());
                s
            },
            FiniteDecisionLowerError::UnsupportedContractGrade { grade, detail } => {
                let mut s = owned("unsupported contract grade '");
                let t0 = grade_name_text(*grade);
                s.append(t0.as_str());
                s.append("': ");
                s.append(detail.as_str());
                s
            },
            FiniteDecisionLowerError::UnknownContractType { name } => {
                let mut s = owned("unknown contract type '");
                s.append(name.as_str());
                s.append("'");
                s
            },
            FiniteDecisionLowerError::ExpressionDepthExceeded { limit } => {
                let mut s = owned("expression nesting depth exceeds limit (");
                let t0 = usize_text(*limit);
                s.append(t0.as_str());
                s.append(")");
                s
            },
            FiniteDecisionLowerError::ExpressionNodeLimitExceeded { limit } => {
                let mut s = owned("expression node count exceeds limit (");
                let t0 = usize_text(*limit);
                s.append(t0.as_str());
                s.append(")");
                s
            },
            FiniteDecisionLowerError::InputNameTooLong { limit } => {
                let mut s = owned("input name exceeds length limit (");
                let t0 = usize_text(*limit);
                s.append(t0.as_str());
                s.append(" bytes)");
                s
            },
            FiniteDecisionLowerError::UnsupportedInputType { name, ty } => {
                let mut s = owned("unsupported input type for '");
                s.append(name.as_str());
                s.append("': '");
                s.append(ty.as_str());
                s.append("' (only Int, Bool, Str are supported)");
                s
            },
            FiniteDecisionLowerError::UnknownCandidateInCommit { commit, candidate } => {
                let mut s = owned("commit '");
                s.append(commit.as_str());
                s.append("' references undeclared proposal '");
                s.append(candidate.as_str());
                s.append("'");
                s
            },
            FiniteDecisionLowerError::DuplicateCandidateInCommit { commit, candidate } => {
                let mut s = owned("commit '");
                s.append(commit.as_str());
                s.append("' contains duplicate candidate '");
                s.append(candidate.as_str());
                s.append("'");
                s
            },
            FiniteDecisionLowerError::UndeclaredDependency { proposal, dep } => {
                let mut s = owned("proposal '");
                s.append(proposal.as_str());
                s.append("' declares dependency '");
                s.append(dep.as_str());
                s.append("' which is not an earlier rule");
                s
            },
            FiniteDecisionLowerError::ForwardOrSelfDependency { proposal, dep } => {
                let mut s = owned("proposal '");
                s.append(proposal.as_str());
                s.append("' has forward or self-dependency on '");
                s.append(dep.as_str());
                s.append("'");
                s
            },
            FiniteDecisionLowerError::UndeclaredFactRead { proposal, fact } => {
                let mut s = owned("proposal '");
                s.append(proposal.as_str());
                s.append("' reads fact '");
                s.append(fact.as_str());
                s.append("' without declaring it as a dependency");
                s
            },
            FiniteDecisionLowerError::FunctionConstructorCollision { func, constructor } => {
                let mut s = owned("function '");
                s.append(func.as_str());
                s.append("' collides with declared constructor '");
                s.append(constructor.as_str());
                s.append("'");
                s
            },
            FiniteDecisionLowerError::DuplicateMatchBinder(binder) => {
                let mut s = owned("duplicate binder '");
                s.append(binder.as_str());
                s.append("' in match pattern");
                s
            },
            FiniteDecisionLowerError::RuleDependencyError(err) => {
                let mut s = owned("rule dependency error: ");
                let t0 = err.to_debug_string();
                s.append(t0.as_str());
                s
            },
            FiniteDecisionLowerError::ExprError(err) => {
                let mut s = owned("expression lowering error: ");
                let t0 = err.to_debug_string();
                s.append(t0.as_str());
                s
            },
            FiniteDecisionLowerError::UnresolvedImport(path) => {
                let mut s = owned("unresolved import: ");
                s.append(path.as_str());
                s
            },
        }
    }
}

/// Some proposal is named `name`.
pub open spec fn proposed(props: Seq<FiniteDecisionProposal>, name: Seq<char>) -> bool {
    exists|j: int| 0 <= j < props.len() && (#[trigger] props[j]).name@ == name
}

/// The first commit candidate, from the `i`-th on, that no proposal names.
pub open spec fn unknown_candidate(cands: Seq<String>, props: Seq<FiniteDecisionProposal>, i: nat) -> Option<Seq<char>>
    decreases cands.len() - i,
{
    if i >= cands.len() {
        None
    } else if proposed(props, cands[i as int]@) {
        unknown_candidate(cands, props, i + 1)
    } else {
        Some(cands[i as int]@)
    }
}

impl FiniteDecisionPlan {
    /// Check that every commit candidate names a declared proposal; the first
    /// that does not is refused.
    pub fn check_commit_candidates(&self) -> (r: Result<(), FiniteDecisionLowerError>)
        ensures
            match unknown_candidate(self.commit.candidates@, self.proposals@, 0) {
                None => r is Ok,
                Some(c) => r matches Err(FiniteDecisionLowerError::UnknownCandidateInCommit { commit, candidate })
                    && commit@ == self.commit.name@ && candidate@ == c,
            },
    {
        let ghost cands = self.commit.candidates@;
        let ghost props = self.proposals@;
        let mut i: usize = 0;
        while i < self.commit.candidates.len()
            invariant
                i <= cands.len(),
                cands == self.commit.candidates@,
                props == self.proposals@,
                unknown_candidate(cands, props, i as nat) == unknown_candidate(cands, props, 0),
            decreases cands.len() - i,
        {
            let cand = &self.commit.candidates[i];
            match self.find_proposal(cand.as_str()) {
                None => {
                    proof {
                        assert(!proposed(props, cand@));
                    }
                    return Err(
                        FiniteDecisionLowerError::UnknownCandidateInCommit {
                            commit: self.commit.name.clone(),
                            candidate: cand.clone(),
                        },
                    );
                },
                Some(_) => {},
            }
            i = i + 1;
        }
        Ok(())
    }
}

} // verus!
