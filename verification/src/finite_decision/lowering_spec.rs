//! What lowering a surface module to a finite-decision plan yields, stated
//! pass by pass: the profile, the admitted items, the single commit, the
//! tables read off the whole module, the helper signatures, each item in
//! order, then recursion among the helpers, their exhaustiveness, and the
//! commit's candidates.
use vstd::prelude::*;

use crate::input::MAX_INPUT_NAME_BYTES;
use crate::keymap::{assoc_get, insert_pairs, keys_ascending, KeyMap};
use crate::l3_v2::exhaustive::{names, sum_model};
use crate::l3_v2::expr_view::ExprModel;
use crate::l3_v2::reads::{lemma_lower_reads, reads};
use crate::l3_v2::lower::{lower_fault_is, lower_spec, surface_args, surface_arms, surface_fields, LowerFault, ScopeModel, SurfaceExpr};
use crate::l3_v2::lower_plan::{
    plan_fault_is, register_variants, rule_deps, ConfigShape, PlanFault, SurfaceConfigBody, SurfaceField, SurfaceInnerTy,
    SurfaceItem, SurfaceParam, SurfaceTy, SurfaceVariant,
};
use crate::l3_v2::{L3ConfigBodyV2, L3ConfigDeclV2, L3ExprV2, L3V2LowerError, L3ValueType};
use crate::text::byte_len;
use super::cycles::{dfs_all, names_view, DfsOutcome};
use super::models::{calls_of, gap_of_model};
use super::plan::{
    names_of, FiniteDecisionContract, FiniteDecisionFnParam, FiniteDecisionFunction, FiniteDecisionInput, FiniteDecisionLowerError,
    FiniteDecisionPlan, FiniteDecisionProposal, FiniteDecisionRule, Grade, FINITE_DECISION_PROFILE, MAX_EXPR_DEPTH, MAX_EXPR_NODES,
    MAX_FUNCTION_COUNT, MAX_FUNCTION_PARAMS,
};

verus! {

/// Why a contract annotation is refused, in words.
pub open spec fn grade_detail() -> Seq<char> {
    "helpers cannot declare or elevate to @Proven or @Audited"@
}

pub open spec fn float_detail() -> Seq<char> {
    "Float is not supported in finite-decision"@
}

pub open spec fn nominal_detail() -> Seq<char> {
    "sum and record contract annotations are not supported in finite-decision alpha (only Int, Bool, Str are supported)"@
}

pub open spec fn record_detail() -> Seq<char> {
    "composite types are not supported in function contracts in this slice"@
}

pub open spec fn generic_detail() -> Seq<char> {
    "generic/parameterized types are not supported in finite-decision"@
}

pub open spec fn nested_detail() -> Seq<char> {
    "nested grade annotations are not supported"@
}

/// Why a module is not a finite-decision plan, as a model.
pub enum FdFault {
    Profile { found: Seq<char> },
    ItemNotAllowed(Seq<char>),
    UnresolvedImport(Seq<char>),
    TooManyFunctions { count: nat },
    NoCommit,
    MultipleCommits(nat),
    EmptyCommit(Seq<char>),
    DuplicateCandidate { commit: Seq<char>, candidate: Seq<char> },
    Collision(Seq<char>),
    DuplicateFunctionName(Seq<char>),
    TooManyParams { func: Seq<char>, count: nat },
    DuplicateParam { func: Seq<char>, param: Seq<char> },
    ContractGrade(Grade),
    ContractType { ty: Seq<char>, detail: Seq<char> },
    UnknownContractType(Seq<char>),
    InputNameTooLong,
    DuplicateInputName(Seq<char>),
    DuplicateItemName(Seq<char>),
    UnsupportedInputType { name: Seq<char>, ty: Seq<char> },
    Depth,
    Nodes,
    InputReadInFunction { func: Seq<char>, input: Seq<char> },
    RuleFactReadInFunction { func: Seq<char>, fact: Seq<char> },
    GlobalLetReadInFunction { func: Seq<char>, binding: Seq<char> },
    Arity { func: Seq<char>, expected: usize, found: usize },
    DuplicateBinder(Seq<char>),
    Expr(LowerFault),
    NonExhaustive { sum: Seq<char>, missing: Seq<Seq<char>> },
    RuleDeps(PlanFault),
    DuplicateProposalName(Seq<char>),
    ProposalSelf { proposal: Seq<char>, dep: Seq<char> },
    ProposalUndeclared { proposal: Seq<char>, dep: Seq<char> },
    ProposalFactRead { proposal: Seq<char>, fact: Seq<char> },
    /// Some helper reaches itself through calls; the error names the cycle
    /// the walk over the call graph meets first and the helper that closes
    /// it.
    Cycle { func: Seq<char>, cycle: Seq<Seq<char>> },
    UnknownCandidate { commit: Seq<char>, candidate: Seq<char> },
}

/// A lowered helper, as a model.
pub struct FnModel {
    pub name: Seq<char>,
    pub params: Seq<(Seq<char>, Option<FiniteDecisionContract>)>,
    pub ret: Option<FiniteDecisionContract>,
    pub body: ExprModel,
}

/// A lowered rule, as a model.
pub struct RuleModel {
    pub name: Seq<char>,
    pub body: ExprModel,
    pub depends_on: Seq<Seq<char>>,
}

/// A lowered proposal, as a model.
pub struct ProposalModel {
    pub name: Seq<char>,
    pub deps: Seq<Seq<char>>,
    pub priority: u64,
    pub guard: ExprModel,
    pub value: ExprModel,
}

/// The parts of a plan lowered item by item, as a model.
pub struct PlanParts {
    pub configs: Seq<(Seq<char>, ConfigShape)>,
    pub inputs: Seq<(Seq<char>, L3ValueType)>,
    pub functions: Seq<FnModel>,
    pub lets: Seq<(Seq<char>, ExprModel)>,
    pub rules: Seq<RuleModel>,
    pub proposals: Seq<ProposalModel>,
    pub shows: Seq<ExprModel>,
}

/// A finite-decision plan, as a model: its parts and its commit's name and
/// candidates.
pub struct FdPlanModel {
    pub parts: PlanParts,
    pub commit: (Seq<char>, Seq<Seq<char>>),
}

/// The helper named `n` that is declared last, if any.
pub open spec fn model_body(fs: Seq<FnModel>, n: Seq<char>) -> Option<ExprModel>
    decreases fs.len(),
{
    if fs.len() == 0 {
        None
    } else if fs.last().name == n {
        Some(fs.last().body)
    } else {
        model_body(fs.drop_last(), n)
    }
}

/// The body of helper `a` calls helper `b`.
pub open spec fn model_calls(fs: Seq<FnModel>, a: Seq<char>, b: Seq<char>) -> bool {
    model_body(fs, a) matches Some(body) && calls_of(body).contains(b)
}

/// The `j`-th step of `c` is a helper call.
pub open spec fn model_linked(fs: Seq<FnModel>, c: Seq<Seq<char>>, j: int) -> bool {
    model_calls(fs, c[j], c[j + 1])
}

/// `c` is a chain of helper calls back to where it started, whose last
/// call is made by `func`.
pub open spec fn is_model_cycle(fs: Seq<FnModel>, func: Seq<char>, c: Seq<Seq<char>>) -> bool {
    &&& c.len() >= 2
    &&& c[0] == c.last()
    &&& c[c.len() - 2] == func
    &&& forall|j: int| 0 <= j < c.len() - 1 ==> #[trigger] model_linked(fs, c, j)
}

/// Some helper reaches itself through calls.
pub open spec fn has_model_cycle(fs: Seq<FnModel>) -> bool {
    exists|f: Seq<char>, c: Seq<Seq<char>>| is_model_cycle(fs, f, c)
}

/// `g` is the call graph of helpers `fs`: each declared helper's name, in
/// ascending order, with the names of the helpers its body calls.
pub open spec fn is_model_graph(g: Seq<(Seq<char>, KeyMap<()>)>, fs: Seq<FnModel>) -> bool {
    &&& keys_ascending(g)
    &&& forall|n: Seq<char>| #[trigger] assoc_get(g, n) is Some <==> model_body(fs, n) is Some
    &&& forall|n: Seq<char>| #[trigger] assoc_get(g, n) is Some ==> names_of(assoc_get(g, n)->0) == calls_of(
        model_body(fs, n)->0,
    )
}

/// The cycle the depth-first walk over the helpers' call graph meets first,
/// walking from each helper in ascending order of names and through its
/// callees in ascending order, and the helper that closes it.
pub open spec fn first_cycle(fs: Seq<FnModel>) -> (Seq<char>, Seq<Seq<char>>) {
    match dfs_all(choose|g: Seq<(Seq<char>, KeyMap<()>)>| is_model_graph(g, fs), 0, Map::empty()) {
        DfsOutcome::Cycle(f, c) => (f, c),
        DfsOutcome::Done(_) => (Seq::empty(), Seq::empty()),
    }
}

/// A lowering fault of an expression, with arity faults and duplicate
/// binders named as such.
pub open spec fn shared_fault(f: LowerFault) -> FdFault {
    match f {
        LowerFault::Arity { func, expected, found } => FdFault::Arity { func, expected, found },
        LowerFault::DuplicateBinder(b) => FdFault::DuplicateBinder(b),
        _ => FdFault::Expr(f),
    }
}

/// `e` is the error `f` describes.
pub open spec fn fd_fault_is(e: FiniteDecisionLowerError, f: FdFault) -> bool {
    match f {
        FdFault::Profile { found } => e matches FiniteDecisionLowerError::ProfileMismatch { expected, found: x }
            && expected@ == FINITE_DECISION_PROFILE@ && x@ == found,
        FdFault::ItemNotAllowed(t) => e matches FiniteDecisionLowerError::ItemNotAllowed(x) && x@ == t,
        FdFault::UnresolvedImport(p) => e matches FiniteDecisionLowerError::UnresolvedImport(x) && x@ == p,
        FdFault::TooManyFunctions { count } => e matches FiniteDecisionLowerError::TooManyFunctions { limit, count: c }
            && limit == MAX_FUNCTION_COUNT && c == count,
        FdFault::NoCommit => e is NoCommit,
        FdFault::MultipleCommits(n) => e matches FiniteDecisionLowerError::MultipleCommits(c) && c == n,
        FdFault::EmptyCommit(n) => e matches FiniteDecisionLowerError::EmptyCommit(x) && x@ == n,
        FdFault::DuplicateCandidate { commit, candidate } => e matches FiniteDecisionLowerError::DuplicateCandidateInCommit {
            commit: c,
            candidate: d,
        } && c@ == commit && d@ == candidate,
        FdFault::Collision(n) => e matches FiniteDecisionLowerError::FunctionConstructorCollision { func, constructor }
            && func@ == n && constructor@ == n,
        FdFault::DuplicateFunctionName(n) => e matches FiniteDecisionLowerError::DuplicateFunctionName(x) && x@ == n,
        FdFault::TooManyParams { func, count } => e matches FiniteDecisionLowerError::TooManyFunctionParams {
            func: x,
            limit,
            count: c,
        } && x@ == func && limit == MAX_FUNCTION_PARAMS && c == count,
        FdFault::DuplicateParam { func, param } => e matches FiniteDecisionLowerError::DuplicateFunctionParameter {
            func: x,
            param: p,
        } && x@ == func && p@ == param,
        FdFault::ContractGrade(g) => e matches FiniteDecisionLowerError::UnsupportedContractGrade { grade, detail }
            && grade == g && detail@ == grade_detail(),
        FdFault::ContractType { ty, detail } => e matches FiniteDecisionLowerError::UnsupportedContractType {
            ty: t,
            detail: d,
        } && t@ == ty && d@ == detail,
        FdFault::UnknownContractType(n) => e matches FiniteDecisionLowerError::UnknownContractType { name } && name@ == n,
        FdFault::InputNameTooLong => e matches FiniteDecisionLowerError::InputNameTooLong { limit }
            && limit == MAX_INPUT_NAME_BYTES,
        FdFault::DuplicateInputName(n) => e matches FiniteDecisionLowerError::DuplicateInputName(x) && x@ == n,
        FdFault::DuplicateItemName(n) => e matches FiniteDecisionLowerError::DuplicateItemName(x) && x@ == n,
        FdFault::UnsupportedInputType { name, ty } => e matches FiniteDecisionLowerError::UnsupportedInputType {
            name: n,
            ty: t,
        } && n@ == name && t@ == ty,
        FdFault::Depth => e matches FiniteDecisionLowerError::ExpressionDepthExceeded { limit } && limit == MAX_EXPR_DEPTH,
        FdFault::Nodes => e matches FiniteDecisionLowerError::ExpressionNodeLimitExceeded { limit }
            && limit == MAX_EXPR_NODES,
        FdFault::InputReadInFunction { func, input } => e matches FiniteDecisionLowerError::InputReadInFunction {
            func: x,
            input: i,
        } && x@ == func && i@ == input,
        FdFault::RuleFactReadInFunction { func, fact } => e matches FiniteDecisionLowerError::RuleFactReadInFunction {
            func: x,
            fact: y,
        } && x@ == func && y@ == fact,
        FdFault::GlobalLetReadInFunction { func, binding } => e matches FiniteDecisionLowerError::GlobalLetReadInFunction {
            func: x,
            binding: b,
        } && x@ == func && b@ == binding,
        FdFault::Arity { func, expected, found } => e matches FiniteDecisionLowerError::FunctionArityMismatch {
            func: x,
            expected: a,
            found: b,
        } && x@ == func && a == expected && b == found,
        FdFault::DuplicateBinder(b) => e matches FiniteDecisionLowerError::DuplicateMatchBinder(x) && x@ == b,
        FdFault::Expr(l) => e matches FiniteDecisionLowerError::ExprError(x) && lower_fault_is(x, l),
        FdFault::NonExhaustive { sum, missing } => e matches FiniteDecisionLowerError::ExprError(
            L3V2LowerError::NonExhaustiveMatch { sum: s, missing: m },
        ) && s@ == sum && names(m@) == missing,
        FdFault::RuleDeps(p) => e matches FiniteDecisionLowerError::RuleDependencyError(x) && plan_fault_is(x, p),
        FdFault::DuplicateProposalName(n) => e matches FiniteDecisionLowerError::DuplicateProposalName(x) && x@ == n,
        FdFault::ProposalSelf { proposal, dep } => e matches FiniteDecisionLowerError::ForwardOrSelfDependency {
            proposal: p,
            dep: d,
        } && p@ == proposal && d@ == dep,
        FdFault::ProposalUndeclared { proposal, dep } => e matches FiniteDecisionLowerError::UndeclaredDependency {
            proposal: p,
            dep: d,
        } && p@ == proposal && d@ == dep,
        FdFault::ProposalFactRead { proposal, fact } => e matches FiniteDecisionLowerError::UndeclaredFactRead {
            proposal: p,
            fact: x,
        } && p@ == proposal && x@ == fact,
        FdFault::Cycle { func, cycle } => e matches FiniteDecisionLowerError::FunctionCycle { func: f, cycle: c } && f@ == func
            && names_view(c@) == cycle,
        FdFault::UnknownCandidate { commit, candidate } => e matches FiniteDecisionLowerError::UnknownCandidateInCommit {
            commit: c,
            candidate: d,
        } && c@ == commit && d@ == candidate,
    }
}

// ---------------------------------------------------------------------------
// Admission: refused items, helper count, the single commit.
// ---------------------------------------------------------------------------

/// Why an item may not stand in a finite-decision module.
pub open spec fn refusal(i: SurfaceItem) -> Option<FdFault> {
    match i {
        SurfaceItem::Regime(n) => Some(FdFault::ItemNotAllowed("regime "@ + n@)),
        SurfaceItem::Witness(n) => Some(FdFault::ItemNotAllowed("witness "@ + n@)),
        SurfaceItem::Use(p) => Some(FdFault::UnresolvedImport(p@)),
        _ => None,
    }
}

/// The first refused item from the `i`-th on.
pub open spec fn first_refusal(items: Seq<SurfaceItem>, i: nat) -> Option<FdFault>
    decreases items.len() - i,
{
    if i >= items.len() {
        None
    } else if refusal(items[i as int]) is Some {
        refusal(items[i as int])
    } else {
        first_refusal(items, i + 1)
    }
}

/// The number of helpers among the first `n` items.
pub open spec fn fn_count(items: Seq<SurfaceItem>, n: nat) -> nat
    decreases n,
{
    if n == 0 || n > items.len() {
        0
    } else {
        fn_count(items, (n - 1) as nat) + if items[n - 1] is Fn { 1nat } else { 0nat }
    }
}

/// The positions of the commits among the first `n` items.
pub open spec fn commit_positions(items: Seq<SurfaceItem>, n: nat) -> Seq<int>
    decreases n,
{
    if n == 0 || n > items.len() {
        Seq::empty()
    } else if items[n - 1] is Commit {
        commit_positions(items, (n - 1) as nat).push(n - 1)
    } else {
        commit_positions(items, (n - 1) as nat)
    }
}

/// The first candidate, from the `i`-th on, that an earlier one repeats.
pub open spec fn repeated_from(cs: Seq<Seq<char>>, i: nat) -> Option<Seq<char>>
    decreases cs.len() - i,
{
    if i >= cs.len() {
        None
    } else if cs.take(i as int).contains(cs[i as int]) {
        Some(cs[i as int])
    } else {
        repeated_from(cs, i + 1)
    }
}

/// The commit of a module with exactly one, its candidates nonempty and
/// distinct, or why it has none such.
pub open spec fn the_commit(items: Seq<SurfaceItem>) -> Result<(Seq<char>, Seq<Seq<char>>), FdFault> {
    let ps = commit_positions(items, items.len());
    if ps.len() == 0 {
        Err(FdFault::NoCommit)
    } else if ps.len() > 1 {
        Err(FdFault::MultipleCommits(ps.len()))
    } else {
        match items[ps[0]] {
            SurfaceItem::Commit { name, candidates } => {
                let cs = names(candidates@);
                if cs.len() == 0 {
                    Err(FdFault::EmptyCommit(name@))
                } else if repeated_from(cs, 0) is Some {
                    Err(FdFault::DuplicateCandidate { commit: name@, candidate: repeated_from(cs, 0)->0 })
                } else {
                    Ok((name@, cs))
                }
            },
            _ => Err(FdFault::NoCommit),
        }
    }
}

// ---------------------------------------------------------------------------
// Tables read off the whole module.
// ---------------------------------------------------------------------------

/// What the whole module declares: inputs, rules and `let`s by name, sum
/// and record configs by name, each constructor's sum, each nullary
/// constructor's sum, each sum's variants, and each record's fields.
pub struct Tables {
    pub inputs: Set<Seq<char>>,
    pub rules: Set<Seq<char>>,
    pub lets: Set<Seq<char>>,
    pub sums: Set<Seq<char>>,
    pub recs: Set<Seq<char>>,
    pub variants_of: Seq<(Seq<char>, String)>,
    pub nullary: Seq<(Seq<char>, String)>,
    pub vos: Seq<(Seq<char>, Seq<Seq<char>>)>,
    pub records: Seq<(Seq<char>, Seq<Seq<char>>)>,
}

/// Nothing declared.
pub open spec fn no_tables() -> Tables {
    Tables {
        inputs: Set::empty(),
        rules: Set::empty(),
        lets: Set::empty(),
        sums: Set::empty(),
        recs: Set::empty(),
        variants_of: Seq::empty(),
        nullary: Seq::empty(),
        vos: Seq::empty(),
        records: Seq::empty(),
    }
}

/// The variant names of a sum.
pub open spec fn variant_names(vs: Seq<SurfaceVariant>) -> Seq<Seq<char>> {
    vs.map_values(|v: SurfaceVariant| v.name@)
}

/// The field names of a record.
pub open spec fn field_names(fs: Seq<SurfaceField>) -> Seq<Seq<char>> {
    fs.map_values(|f: SurfaceField| f.name@)
}

/// The tables of the first `n` items.
pub open spec fn tables(items: Seq<SurfaceItem>, n: nat) -> Tables
    decreases n,
{
    if n == 0 || n > items.len() {
        no_tables()
    } else {
        let t = tables(items, (n - 1) as nat);
        match items[n - 1] {
            SurfaceItem::Input { name, .. } => Tables { inputs: t.inputs.insert(name@), ..t },
            SurfaceItem::Rule { name, .. } => Tables { rules: t.rules.insert(name@), ..t },
            SurfaceItem::Let { name, .. } => Tables { lets: t.lets.insert(name@), ..t },
            SurfaceItem::Config { name, body } => match body {
                SurfaceConfigBody::Sum(vs) => {
                    let (vo, nu) = register_variants(vs@, name, t.variants_of, t.nullary, vs@.len());
                    Tables {
                        sums: t.sums.insert(name@),
                        variants_of: vo,
                        nullary: nu,
                        vos: insert_pairs(t.vos, name@, variant_names(vs@)),
                        ..t
                    }
                },
                SurfaceConfigBody::Record(fs) => Tables {
                    recs: t.recs.insert(name@),
                    records: t.records.push((name@, field_names(fs@))),
                    ..t
                },
            },
            _ => t,
        }
    }
}

/// Each constructor's sum, with `true` and `false` of `Bool`.
pub open spec fn sums_with_bool(t: Tables) -> Seq<(Seq<char>, Seq<char>)> {
    insert_pairs(insert_pairs(sum_model(t.variants_of), "true"@, "Bool"@), "false"@, "Bool"@)
}

/// Each sum's variants, with `Bool`'s.
pub open spec fn variants_with_bool(t: Tables) -> Seq<(Seq<char>, Seq<Seq<char>>)> {
    insert_pairs(t.vos, "Bool"@, seq!["false"@, "true"@])
}

// ---------------------------------------------------------------------------
// Helper signatures.
// ---------------------------------------------------------------------------

/// The value type a contract names, without its grade.
pub open spec fn named_contract(n: Seq<char>, t: Tables) -> Result<L3ValueType, FdFault> {
    if n == "Int"@ {
        Ok(L3ValueType::Int)
    } else if n == "Bool"@ {
        Ok(L3ValueType::Bool)
    } else if n == "Str"@ {
        Ok(L3ValueType::Str)
    } else if n == "Float"@ {
        Err(FdFault::ContractType { ty: "Float"@, detail: float_detail() })
    } else if t.sums.contains(n) || t.recs.contains(n) {
        Err(FdFault::ContractType { ty: n, detail: nominal_detail() })
    } else {
        Err(FdFault::UnknownContractType(n))
    }
}

/// The value type the inner type of a graded contract names.
pub open spec fn inner_contract(ty: SurfaceInnerTy, t: Tables) -> Result<L3ValueType, FdFault> {
    match ty {
        SurfaceInnerTy::Named(n) => named_contract(n@, t),
        SurfaceInnerTy::Record => Err(FdFault::ContractType { ty: "anonymous record"@, detail: record_detail() }),
        SurfaceInnerTy::App(n) => Err(FdFault::ContractType { ty: n@ + "<...>"@, detail: generic_detail() }),
        SurfaceInnerTy::Graded => Err(FdFault::ContractType { ty: "nested graded type"@, detail: nested_detail() }),
    }
}

/// A contract annotation: `Int`, `Bool` or `Str`, possibly graded
/// `@Derived`; any other grade or type is refused.
pub open spec fn contract_spec(ty: SurfaceTy, t: Tables) -> Result<FiniteDecisionContract, FdFault> {
    match ty {
        SurfaceTy::Graded(inner, g, _) => match g {
            Grade::Derived => match inner_contract(inner, t) {
                Ok(v) => Ok(FiniteDecisionContract { ty: v, grade: Some(Grade::Derived) }),
                Err(f) => Err(f),
            },
            _ => Err(FdFault::ContractGrade(g)),
        },
        SurfaceTy::Named(n) => match named_contract(n@, t) {
            Ok(v) => Ok(FiniteDecisionContract { ty: v, grade: None }),
            Err(f) => Err(f),
        },
        SurfaceTy::Record => Err(FdFault::ContractType { ty: "anonymous record"@, detail: record_detail() }),
        SurfaceTy::App(n) => Err(FdFault::ContractType { ty: n@ + "<...>"@, detail: generic_detail() }),
    }
}

/// An optional annotation's contract.
pub open spec fn opt_contract(ty: Option<SurfaceTy>, t: Tables) -> Result<Option<FiniteDecisionContract>, FdFault> {
    match ty {
        None => Ok(None),
        Some(x) => match contract_spec(x, t) {
            Ok(c) => Ok(Some(c)),
            Err(f) => Err(f),
        },
    }
}

/// The first `n` parameters of helper `func` with their contracts, or why
/// one is refused: a repeated name, or its annotation.
pub open spec fn params_spec(func: Seq<char>, ps: Seq<SurfaceParam>, t: Tables, n: nat) -> Result<
    Seq<(Seq<char>, Option<FiniteDecisionContract>)>,
    FdFault,
>
    decreases n,
{
    if n == 0 || n > ps.len() {
        Ok(Seq::empty())
    } else {
        match params_spec(func, ps, t, (n - 1) as nat) {
            Err(f) => Err(f),
            Ok(done) => {
                let p = ps[n - 1];
                if done.map_values(|q: (Seq<char>, Option<FiniteDecisionContract>)| q.0).contains(p.name@) {
                    Err(FdFault::DuplicateParam { func, param: p.name@ })
                } else {
                    match opt_contract(p.ty, t) {
                        Err(f) => Err(f),
                        Ok(c) => Ok(done.push((p.name@, c))),
                    }
                }
            },
        }
    }
}

/// A helper's parameters with their contracts and its return contract.
pub open spec fn sig_spec(func: Seq<char>, ps: Seq<SurfaceParam>, ret: Option<SurfaceTy>, t: Tables) -> Result<
    (Seq<(Seq<char>, Option<FiniteDecisionContract>)>, Option<FiniteDecisionContract>),
    FdFault,
> {
    match params_spec(func, ps, t, ps.len()) {
        Err(f) => Err(f),
        Ok(pm) => match opt_contract(ret, t) {
            Err(f) => Err(f),
            Ok(rc) => Ok((pm, rc)),
        },
    }
}

/// The helpers declared among the first `n` items, by name and with their
/// arities, or why one is refused: its name is a constructor's or an
/// earlier helper's, it has too many parameters, or its signature.
pub open spec fn helper_table(items: Seq<SurfaceItem>, t: Tables, n: nat) -> Result<
    (Set<Seq<char>>, Seq<(Seq<char>, usize)>),
    FdFault,
>
    decreases n,
{
    if n == 0 || n > items.len() {
        Ok((Set::empty(), Seq::empty()))
    } else {
        match helper_table(items, t, (n - 1) as nat) {
            Err(f) => Err(f),
            Ok((ns, ar)) => match items[n - 1] {
                SurfaceItem::Fn { name, params, ret, .. } => if assoc_get(t.variants_of, name@) is Some || name@ == "true"@
                    || name@ == "false"@ {
                    Err(FdFault::Collision(name@))
                } else if ns.contains(name@) {
                    Err(FdFault::DuplicateFunctionName(name@))
                } else if params@.len() > MAX_FUNCTION_PARAMS {
                    Err(FdFault::TooManyParams { func: name@, count: params@.len() })
                } else {
                    match sig_spec(name@, params@, ret, t) {
                        Err(f) => Err(f),
                        Ok(_) => Ok((ns.insert(name@), insert_pairs(ar, name@, params@.len() as usize))),
                    }
                },
                _ => Ok((ns, ar)),
            },
        }
    }
}

// ---------------------------------------------------------------------------
// Expression bounds.
// ---------------------------------------------------------------------------

/// The nodes counted after visiting `e` at nesting depth `depth` with
/// `count` counted before, or the limit it breaks: nodes are counted in
/// pre-order, each checked against the depth limit before it is counted.
pub open spec fn bounds(e: SurfaceExpr, depth: nat, count: nat) -> Result<nat, FdFault>
    decreases e, 1nat, 0nat,
{
    if depth > MAX_EXPR_DEPTH {
        Err(FdFault::Depth)
    } else if count + 1 > MAX_EXPR_NODES {
        Err(FdFault::Nodes)
    } else {
        let c = count + 1;
        match e {
            SurfaceExpr::Field(b, _) => bounds(*b, depth + 1, c),
            SurfaceExpr::Prove(b) => bounds(*b, depth + 1, c),
            SurfaceExpr::Why(b) => bounds(*b, depth + 1, c),
            SurfaceExpr::Audit(b) => bounds(*b, depth + 1, c),
            SurfaceExpr::Record { .. } => bounds_fields(e, depth + 1, c, 0),
            SurfaceExpr::Call { .. } => bounds_args(e, depth + 1, c, 0),
            SurfaceExpr::Bin { lhs, rhs, .. } => match bounds(*lhs, depth + 1, c) {
                Err(f) => Err(f),
                Ok(c1) => bounds(*rhs, depth + 1, c1),
            },
            SurfaceExpr::Match { scrutinee, .. } => match bounds(*scrutinee, depth + 1, c) {
                Err(f) => Err(f),
                Ok(c1) => bounds_arms(e, depth + 1, c1, 0),
            },
            _ => Ok(c),
        }
    }
}

/// Bounds of the arguments of `parent` from the `i`-th on.
pub open spec fn bounds_args(parent: SurfaceExpr, depth: nat, count: nat, i: nat) -> Result<nat, FdFault>
    decreases parent, 0nat, surface_args(parent).len() - i,
{
    if i >= surface_args(parent).len() {
        Ok(count)
    } else {
        match bounds(surface_args(parent)[i as int], depth, count) {
            Err(f) => Err(f),
            Ok(c) => bounds_args(parent, depth, c, i + 1),
        }
    }
}

/// Bounds of the field values of `parent` from the `i`-th on.
pub open spec fn bounds_fields(parent: SurfaceExpr, depth: nat, count: nat, i: nat) -> Result<nat, FdFault>
    decreases parent, 0nat, surface_fields(parent).len() - i,
{
    if i >= surface_fields(parent).len() {
        Ok(count)
    } else {
        match bounds(surface_fields(parent)[i as int].1, depth, count) {
            Err(f) => Err(f),
            Ok(c) => bounds_fields(parent, depth, c, i + 1),
        }
    }
}

/// Bounds of the arm bodies of `parent` from the `i`-th on.
pub open spec fn bounds_arms(parent: SurfaceExpr, depth: nat, count: nat, i: nat) -> Result<nat, FdFault>
    decreases parent, 0nat, surface_arms(parent).len() - i,
{
    if i >= surface_arms(parent).len() {
        Ok(count)
    } else {
        match bounds(surface_arms(parent)[i as int].body, depth, count) {
            Err(f) => Err(f),
            Ok(c) => bounds_arms(parent, depth, c, i + 1),
        }
    }
}

// ---------------------------------------------------------------------------
// Items in order.
// ---------------------------------------------------------------------------

/// What stays fixed while items are lowered: whether the module declares
/// helpers, its tables, the helpers' arities, and the constructor tables
/// the exhaustiveness check reads.
pub struct FdContext {
    pub has_fns: bool,
    pub t: Tables,
    pub arities: Seq<(Seq<char>, usize)>,
}

/// What lowering has gathered so far: the names of inputs, `let`s, rules,
/// proposals and all top-level items; the constructor tables in force; and
/// the plan's parts.
pub struct FdState {
    pub inputs: Set<Seq<char>>,
    pub lets: Set<Seq<char>>,
    pub rules: Set<Seq<char>>,
    pub proposals: Set<Seq<char>>,
    pub top: Set<Seq<char>>,
    pub variants_of: Seq<(Seq<char>, String)>,
    pub nullary: Seq<(Seq<char>, String)>,
    pub parts: PlanParts,
}

/// The scope an expression is lowered in.
pub open spec fn fd_scope(c: FdContext, st: FdState, lets: Set<Seq<char>>, rules: Set<Seq<char>>, in_rule: bool) -> ScopeModel {
    ScopeModel {
        lets,
        rules,
        nullary: st.nullary,
        variants_of: st.variants_of,
        functions: c.arities,
        records: c.t.records,
        in_rule,
        helper_enabled: c.has_fns,
    }
}

/// The limit an expression breaks, checked only in modules with helpers.
pub open spec fn over_bounds(c: FdContext, e: SurfaceExpr) -> Option<FdFault> {
    if c.has_fns {
        match bounds(e, 0, 0) {
            Err(f) => Some(f),
            Ok(_) => None,
        }
    } else {
        None
    }
}

/// The first uncovered `match` of a lowered expression.
pub open spec fn gap_fault(m: ExprModel, t: Tables) -> Option<FdFault> {
    match gap_of_model(m, sums_with_bool(t), variants_with_bool(t)) {
        Some((sum, missing)) => Some(FdFault::NonExhaustive { sum, missing }),
        None => None,
    }
}

/// The first uncovered `match`, checked only in modules with helpers.
pub open spec fn unchecked(c: FdContext, m: ExprModel) -> Option<FdFault> {
    if c.has_fns {
        gap_fault(m, c.t)
    } else {
        None
    }
}

/// A helper body's lowering fault: a read of an input, a rule's fact or a
/// global `let` is named as such.
pub open spec fn helper_fault(func: Seq<char>, t: Tables, f: LowerFault) -> FdFault {
    match f {
        LowerFault::Unresolved(n) => if t.inputs.contains(n) {
            FdFault::InputReadInFunction { func, input: n }
        } else if t.rules.contains(n) {
            FdFault::RuleFactReadInFunction { func, fact: n }
        } else if t.lets.contains(n) {
            FdFault::GlobalLetReadInFunction { func, binding: n }
        } else {
            FdFault::Expr(f)
        },
        _ => shared_fault(f),
    }
}

/// A rule body's lowering fault: a read of an earlier rule it does not
/// declare is named as such.
pub open spec fn rule_fault(rule: Seq<char>, rules: Set<Seq<char>>, f: LowerFault) -> FdFault {
    match f {
        LowerFault::Unresolved(n) => if rules.contains(n) {
            FdFault::RuleDeps(PlanFault::UndeclaredFactRead { rule, fact: n })
        } else {
            FdFault::Expr(f)
        },
        _ => shared_fault(f),
    }
}

/// A proposal's lowering fault: a read of a rule it does not declare is
/// named as such.
pub open spec fn proposal_fault(proposal: Seq<char>, rules: Set<Seq<char>>, f: LowerFault) -> FdFault {
    match f {
        LowerFault::Unresolved(n) => if rules.contains(n) {
            FdFault::ProposalFactRead { proposal, fact: n }
        } else {
            FdFault::Expr(f)
        },
        _ => shared_fault(f),
    }
}

/// The first `n` dependencies of a proposal, deduplicated, or why one is
/// not an earlier rule.
pub open spec fn proposal_deps(proposal: Seq<char>, deps: Seq<String>, rules: Set<Seq<char>>, n: nat) -> Result<
    Seq<Seq<char>>,
    FdFault,
>
    decreases n,
{
    if n == 0 || n > deps.len() {
        Ok(Seq::empty())
    } else {
        match proposal_deps(proposal, deps, rules, (n - 1) as nat) {
            Err(f) => Err(f),
            Ok(ds) => {
                let d = deps[n - 1]@;
                if d == proposal {
                    Err(FdFault::ProposalSelf { proposal, dep: d })
                } else if !rules.contains(d) {
                    Err(FdFault::ProposalUndeclared { proposal, dep: d })
                } else if ds.contains(d) {
                    Ok(ds)
                } else {
                    Ok(ds.push(d))
                }
            },
        }
    }
}

/// The type of an input: `Int`, `Bool` or `Str`.
pub open spec fn input_type(name: Seq<char>, ty: SurfaceTy, written: Seq<char>) -> Result<L3ValueType, FdFault> {
    match ty {
        SurfaceTy::Named(n) => if n@ == "Int"@ {
            Ok(L3ValueType::Int)
        } else if n@ == "Bool"@ {
            Ok(L3ValueType::Bool)
        } else if n@ == "Str"@ {
            Ok(L3ValueType::Str)
        } else {
            Err(FdFault::UnsupportedInputType { name, ty: n@ })
        },
        _ => Err(FdFault::UnsupportedInputType { name, ty: written }),
    }
}

/// The shape of a config body.
pub open spec fn shape_of(body: SurfaceConfigBody) -> ConfigShape {
    match body {
        SurfaceConfigBody::Sum(vs) => ConfigShape::Sum(vs@.map_values(|v: SurfaceVariant| (v.name@, v.params@.len() as usize))),
        SurfaceConfigBody::Record(fs) => ConfigShape::Record(field_names(fs@)),
    }
}

/// The names of a helper's parameters.
pub open spec fn param_names(ps: Seq<SurfaceParam>) -> Set<Seq<char>> {
    ps.map_values(|p: SurfaceParam| p.name@).to_set()
}

/// Lower one item.
pub open spec fn fd_item(c: FdContext, st: FdState, item: SurfaceItem) -> Result<FdState, FdFault> {
    let visible = st.lets + st.inputs;
    match item {
        SurfaceItem::Input { name, ty, written } => if byte_len(name@) > MAX_INPUT_NAME_BYTES {
            Err(FdFault::InputNameTooLong)
        } else if st.inputs.contains(name@) {
            Err(FdFault::DuplicateInputName(name@))
        } else if st.top.contains(name@) {
            Err(FdFault::DuplicateItemName(name@))
        } else {
            match input_type(name@, ty, written@) {
                Err(f) => Err(f),
                Ok(vt) => Ok(
                    FdState {
                        inputs: st.inputs.insert(name@),
                        top: st.top.insert(name@),
                        parts: PlanParts { inputs: st.parts.inputs.push((name@, vt)), ..st.parts },
                        ..st
                    },
                ),
            }
        },
        SurfaceItem::Config { name, body } => if st.top.contains(name@) {
            Err(FdFault::DuplicateItemName(name@))
        } else {
            let (vo, nu) = match body {
                SurfaceConfigBody::Sum(vs) => if c.has_fns {
                    (st.variants_of, st.nullary)
                } else {
                    register_variants(vs@, name, st.variants_of, st.nullary, vs@.len())
                },
                _ => (st.variants_of, st.nullary),
            };
            Ok(
                FdState {
                    top: st.top.insert(name@),
                    variants_of: vo,
                    nullary: nu,
                    parts: PlanParts { configs: st.parts.configs.push((name@, shape_of(body))), ..st.parts },
                    ..st
                },
            )
        },
        SurfaceItem::Fn { name, params, ret, body } => if st.top.contains(name@) {
            Err(FdFault::DuplicateItemName(name@))
        } else if bounds(body, 0, 0) is Err {
            Err(bounds(body, 0, 0)->Err_0)
        } else {
            let ps = param_names(params@);
            match lower_spec(
                body,
                ScopeModel { lets: ps, rules: Set::empty(), in_rule: false, helper_enabled: true, ..fd_scope(c, st, ps, Set::empty(), false) },
                ps,
            ) {
                Err(f) => Err(helper_fault(name@, c.t, f)),
                Ok(b) => match sig_spec(name@, params@, ret, c.t) {
                    Err(f) => Err(f),
                    Ok((pm, rc)) => Ok(
                        FdState {
                            top: st.top.insert(name@),
                            parts: PlanParts {
                                functions: st.parts.functions.push(FnModel { name: name@, params: pm, ret: rc, body: b }),
                                ..st.parts
                            },
                            ..st
                        },
                    ),
                },
            }
        },
        SurfaceItem::Let { name, value, .. } => if st.top.contains(name@) {
            Err(FdFault::DuplicateItemName(name@))
        } else if over_bounds(c, value) is Some {
            Err(over_bounds(c, value)->0)
        } else {
            match lower_spec(value, fd_scope(c, st, visible, Set::empty(), false), Set::empty()) {
                Err(f) => Err(shared_fault(f)),
                Ok(v) => if unchecked(c, v) is Some {
                    Err(unchecked(c, v)->0)
                } else {
                    Ok(
                        FdState {
                            lets: st.lets.insert(name@),
                            top: st.top.insert(name@),
                            parts: PlanParts { lets: st.parts.lets.push((name@, v)), ..st.parts },
                            ..st
                        },
                    )
                },
            }
        },
        SurfaceItem::Rule { name, params, body, .. } => if st.top.contains(name@) {
            Err(FdFault::DuplicateItemName(name@))
        } else if over_bounds(c, body) is Some {
            Err(over_bounds(c, body)->0)
        } else {
            match rule_deps(name@, params@, st.rules, params@.len()) {
                Err(f) => Err(FdFault::RuleDeps(f)),
                Ok(ds) => match lower_spec(body, fd_scope(c, st, visible, ds.to_set(), true), Set::empty()) {
                    Err(f) => Err(rule_fault(name@, st.rules, f)),
                    Ok(b) => if unchecked(c, b) is Some {
                        Err(unchecked(c, b)->0)
                    } else {
                        Ok(
                            FdState {
                                rules: st.rules.insert(name@),
                                top: st.top.insert(name@),
                                parts: PlanParts {
                                    rules: st.parts.rules.push(RuleModel { name: name@, body: b, depends_on: ds }),
                                    ..st.parts
                                },
                                ..st
                            },
                        )
                    },
                },
            }
        },
        SurfaceItem::Propose { name, deps, priority, guard, value } => if st.proposals.contains(name@) {
            Err(FdFault::DuplicateProposalName(name@))
        } else if st.top.contains(name@) {
            Err(FdFault::DuplicateItemName(name@))
        } else if over_bounds(c, guard) is Some {
            Err(over_bounds(c, guard)->0)
        } else if over_bounds(c, value) is Some {
            Err(over_bounds(c, value)->0)
        } else {
            match proposal_deps(name@, deps@, st.rules, deps@.len()) {
                Err(f) => Err(f),
                Ok(ds) => {
                    let sc = fd_scope(c, st, visible, ds.to_set(), true);
                    match lower_spec(guard, sc, Set::empty()) {
                        Err(f) => Err(proposal_fault(name@, st.rules, f)),
                        Ok(g) => if unchecked(c, g) is Some {
                            Err(unchecked(c, g)->0)
                        } else {
                            match lower_spec(value, sc, Set::empty()) {
                                Err(f) => Err(proposal_fault(name@, st.rules, f)),
                                Ok(v) => if unchecked(c, v) is Some {
                                    Err(unchecked(c, v)->0)
                                } else {
                                    Ok(
                                        FdState {
                                            proposals: st.proposals.insert(name@),
                                            top: st.top.insert(name@),
                                            parts: PlanParts {
                                                proposals: st.parts.proposals.push(
                                                    ProposalModel { name: name@, deps: ds, priority, guard: g, value: v },
                                                ),
                                                ..st.parts
                                            },
                                            ..st
                                        },
                                    )
                                },
                            }
                        },
                    }
                },
            }
        },
        SurfaceItem::Show(e) => if over_bounds(c, e) is Some {
            Err(over_bounds(c, e)->0)
        } else {
            match lower_spec(e, fd_scope(c, st, visible, st.rules, true), Set::empty()) {
                Err(f) => Err(shared_fault(f)),
                Ok(v) => if unchecked(c, v) is Some {
                    Err(unchecked(c, v)->0)
                } else {
                    Ok(FdState { parts: PlanParts { shows: st.parts.shows.push(v), ..st.parts }, ..st })
                },
            }
        },
        _ => Ok(st),
    }
}

/// No parts yet.
pub open spec fn no_parts() -> PlanParts {
    PlanParts {
        configs: Seq::empty(),
        inputs: Seq::empty(),
        functions: Seq::empty(),
        lets: Seq::empty(),
        rules: Seq::empty(),
        proposals: Seq::empty(),
        shows: Seq::empty(),
    }
}

/// The state before the first item: with helpers, every constructor is
/// visible from the start; without, constructors come into view as their
/// configs are lowered.
pub open spec fn fd_start(c: FdContext) -> FdState {
    FdState {
        inputs: Set::empty(),
        lets: Set::empty(),
        rules: Set::empty(),
        proposals: Set::empty(),
        top: Set::empty(),
        variants_of: if c.has_fns { c.t.variants_of } else { Seq::empty() },
        nullary: if c.has_fns { c.t.nullary } else { Seq::empty() },
        parts: no_parts(),
    }
}

/// The first `n` items lowered in order.
pub open spec fn fd_gather(c: FdContext, items: Seq<SurfaceItem>, n: nat) -> Result<FdState, FdFault>
    decreases n,
{
    if n == 0 || n > items.len() {
        Ok(fd_start(c))
    } else {
        match fd_gather(c, items, (n - 1) as nat) {
            Err(f) => Err(f),
            Ok(st) => fd_item(c, st, items[n - 1]),
        }
    }
}

/// The first helper body, from the `i`-th on, that leaves a `match`
/// uncovered.
pub open spec fn helper_gap(fs: Seq<FnModel>, t: Tables, i: nat) -> Option<FdFault>
    decreases fs.len() - i,
{
    if i >= fs.len() {
        None
    } else if gap_fault(fs[i as int].body, t) is Some {
        gap_fault(fs[i as int].body, t)
    } else {
        helper_gap(fs, t, i + 1)
    }
}

/// The first candidate, from the `i`-th on, that names no proposal.
pub open spec fn unknown_from(cs: Seq<Seq<char>>, props: Set<Seq<char>>, i: nat) -> Option<Seq<char>>
    decreases cs.len() - i,
{
    if i >= cs.len() {
        None
    } else if !props.contains(cs[i as int]) {
        Some(cs[i as int])
    } else {
        unknown_from(cs, props, i + 1)
    }
}

/// The finite-decision plan of a module, or the first reason it is not
/// one: the profile; a `regime`, `witness` or `use`; too many helpers; the
/// commit; the helper signatures; each item in order; recursion among the
/// helpers; an uncovered `match` in a helper; a candidate that names no
/// proposal.
pub open spec fn fd_plan_spec(items: Seq<SurfaceItem>, profile: Seq<char>) -> Result<FdPlanModel, FdFault> {
    let t = tables(items, items.len());
    if profile != FINITE_DECISION_PROFILE@ {
        Err(FdFault::Profile { found: profile })
    } else if first_refusal(items, 0) is Some {
        Err(first_refusal(items, 0)->0)
    } else if fn_count(items, items.len()) > MAX_FUNCTION_COUNT {
        Err(FdFault::TooManyFunctions { count: fn_count(items, items.len()) })
    } else {
        match the_commit(items) {
            Err(f) => Err(f),
            Ok(commit) => match helper_table(items, t, items.len()) {
                Err(f) => Err(f),
                Ok((_, ar)) => {
                    let c = FdContext { has_fns: fn_count(items, items.len()) > 0, t, arities: ar };
                    match fd_gather(c, items, items.len()) {
                        Err(f) => Err(f),
                        Ok(st) => if has_model_cycle(st.parts.functions) {
                            Err(FdFault::Cycle { func: first_cycle(st.parts.functions).0, cycle: first_cycle(st.parts.functions).1 })
                        } else if helper_gap(st.parts.functions, t, 0) is Some {
                            Err(helper_gap(st.parts.functions, t, 0)->0)
                        } else if unknown_from(commit.1, st.proposals, 0) is Some {
                            Err(FdFault::UnknownCandidate { commit: commit.0, candidate: unknown_from(commit.1, st.proposals, 0)->0 })
                        } else {
                            Ok(FdPlanModel { parts: st.parts, commit })
                        },
                    }
                },
            },
        }
    }
}

// ---------------------------------------------------------------------------
// The plan as a model.
// ---------------------------------------------------------------------------

/// A config declaration, as a model.
pub open spec fn config_model(d: L3ConfigDeclV2) -> (Seq<char>, ConfigShape) {
    (
        d.name@,
        match d.body {
            L3ConfigBodyV2::Sum(vs) => ConfigShape::Sum(vs@.map_values(|v: (String, usize)| (v.0@, v.1))),
            L3ConfigBodyV2::Record(fs) => ConfigShape::Record(names(fs@)),
        },
    )
}

/// A helper, as a model.
pub open spec fn fn_model(f: FiniteDecisionFunction) -> FnModel {
    FnModel {
        name: f.name@,
        params: f.params@.map_values(|p: FiniteDecisionFnParam| (p.name@, p.contract)),
        ret: f.ret_contract,
        body: f.body@,
    }
}

/// A rule, as a model.
pub open spec fn rule_model(r: FiniteDecisionRule) -> RuleModel {
    RuleModel { name: r.name@, body: r.body@, depends_on: names(r.depends_on@) }
}

/// A proposal, as a model.
pub open spec fn proposal_model(p: FiniteDecisionProposal) -> ProposalModel {
    ProposalModel { name: p.name@, deps: names(p.deps@), priority: p.priority, guard: p.guard@, value: p.value@ }
}

/// The parts of a plan, as a model.
pub open spec fn parts_model(
    configs: Seq<L3ConfigDeclV2>,
    inputs: Seq<FiniteDecisionInput>,
    functions: Seq<FiniteDecisionFunction>,
    lets: Seq<(String, L3ExprV2)>,
    rules: Seq<FiniteDecisionRule>,
    proposals: Seq<FiniteDecisionProposal>,
    shows: Seq<L3ExprV2>,
) -> PlanParts {
    PlanParts {
        configs: configs.map_values(|d: L3ConfigDeclV2| config_model(d)),
        inputs: inputs.map_values(|i: FiniteDecisionInput| (i.name@, i.ty)),
        functions: functions.map_values(|f: FiniteDecisionFunction| fn_model(f)),
        lets: lets.map_values(|l: (String, L3ExprV2)| (l.0@, l.1@)),
        rules: rules.map_values(|r: FiniteDecisionRule| rule_model(r)),
        proposals: proposals.map_values(|p: FiniteDecisionProposal| proposal_model(p)),
        shows: shows.map_values(|x: L3ExprV2| x@),
    }
}

/// A plan, as a model.
pub open spec fn plan_model(p: FiniteDecisionPlan) -> FdPlanModel {
    FdPlanModel {
        parts: parts_model(p.configs@, p.inputs@, p.functions@, p.lets@, p.rules@, p.proposals@, p.shows@),
        commit: (p.commit.name@, names(p.commit.candidates@)),
    }
}

/// Inputs, helpers, rules and proposals are numbered in order from 0.
pub open spec fn numbered(
    inputs: Seq<FiniteDecisionInput>,
    functions: Seq<FiniteDecisionFunction>,
    rules: Seq<FiniteDecisionRule>,
    proposals: Seq<FiniteDecisionProposal>,
) -> bool {
    &&& forall|i: int| 0 <= i < inputs.len() ==> (#[trigger] inputs[i]).ordinal == i
    &&& forall|i: int| 0 <= i < functions.len() ==> (#[trigger] functions[i]).ordinal == i
    &&& forall|i: int| 0 <= i < rules.len() ==> (#[trigger] rules[i]).ordinal == i
    &&& forall|i: int| 0 <= i < proposals.len() ==> (#[trigger] proposals[i]).ordinal == i
}

// ---------------------------------------------------------------------------
// Laws.
// ---------------------------------------------------------------------------

/// A contract a helper may carry: `Int`, `Bool` or `Str`, ungraded or
/// graded `@Derived`.
pub open spec fn supported_contract(c: Option<FiniteDecisionContract>) -> bool {
    match c {
        None => true,
        Some(k) => (k.ty == L3ValueType::Int || k.ty == L3ValueType::Bool || k.ty == L3ValueType::Str) && (k.grade is None
            || k.grade == Some(Grade::Derived)),
    }
}

/// Every contract of a helper is supported.
pub open spec fn helper_contracts_supported(f: FnModel) -> bool {
    &&& supported_contract(f.ret)
    &&& forall|i: int| 0 <= i < f.params.len() ==> supported_contract(#[trigger] f.params[i].1)
}

proof fn lemma_contract_supported(ty: Option<SurfaceTy>, t: Tables)
    requires
        opt_contract(ty, t) is Ok,
    ensures
        supported_contract(opt_contract(ty, t)->Ok_0),
{
}

proof fn lemma_params_supported(func: Seq<char>, ps: Seq<SurfaceParam>, t: Tables, n: nat)
    requires
        params_spec(func, ps, t, n) is Ok,
    ensures
        forall|i: int| 0 <= i < params_spec(func, ps, t, n)->Ok_0.len() ==> supported_contract(
            #[trigger] params_spec(func, ps, t, n)->Ok_0[i].1,
        ),
    decreases n,
{
    if n > 0 && n <= ps.len() {
        lemma_params_supported(func, ps, t, (n - 1) as nat);
        lemma_contract_supported(ps[n - 1].ty, t);
    }
}

/// What every gathered state keeps: the proposal names are those of the
/// gathered proposals, and every gathered helper's contracts are supported.
pub open spec fn gathered_keeps(st: FdState) -> bool {
    &&& st.proposals == st.parts.proposals.map_values(|p: ProposalModel| p.name).to_set()
    &&& forall|i: int| 0 <= i < st.parts.functions.len() ==> helper_contracts_supported(#[trigger] st.parts.functions[i])
}

proof fn lemma_gather_keeps(c: FdContext, items: Seq<SurfaceItem>, n: nat)
    requires
        fd_gather(c, items, n) is Ok,
    ensures
        gathered_keeps(fd_gather(c, items, n)->Ok_0),
    decreases n,
{
    if n == 0 || n > items.len() {
        assert(no_parts().proposals.map_values(|p: ProposalModel| p.name).to_set() =~= Set::<Seq<char>>::empty());
    } else {
        lemma_gather_keeps(c, items, (n - 1) as nat);
        let st = fd_gather(c, items, (n - 1) as nat)->Ok_0;
        let st2 = fd_gather(c, items, n)->Ok_0;
        let names0 = st.parts.proposals.map_values(|p: ProposalModel| p.name);
        let names1 = st2.parts.proposals.map_values(|p: ProposalModel| p.name);
        match items[n - 1] {
            SurfaceItem::Propose { name, .. } => {
                assert(names1 =~= names0.push(name@));
                assert(names1.to_set() =~= names0.to_set().insert(name@)) by {
                    assert forall|x: Seq<char>| #[trigger] names1.contains(x) == (names0.contains(x) || x == name@) by {
                        if names1.contains(x) {
                            let k = choose|k: int| 0 <= k < names1.len() && names1[k] == x;
                            if k < names0.len() {
                                assert(names0[k] == x);
                            }
                        }
                        if names0.contains(x) {
                            let k = choose|k: int| 0 <= k < names0.len() && names0[k] == x;
                            assert(names1[k] == x);
                        }
                        if x == name@ {
                            assert(names1[names0.len() as int] == x);
                        }
                    }
                }
            },
            SurfaceItem::Fn { name, params, ret, body } => {
                let fs = st2.parts.functions;
                if fs.len() > st.parts.functions.len() {
                    lemma_params_supported(name@, params@, c.t, params@.len());
                    lemma_contract_supported(ret, c.t);
                    assert forall|i: int| 0 <= i < fs.len() implies helper_contracts_supported(#[trigger] fs[i]) by {
                        if i < st.parts.functions.len() {
                            assert(fs[i] == st.parts.functions[i]);
                        }
                    }
                }
            },
            _ => {
                assert(names1 =~= names0);
            },
        }
    }
}

proof fn lemma_repeated_none(cs: Seq<Seq<char>>, i: nat)
    requires
        repeated_from(cs, i) is None,
    ensures
        forall|a: int, b: int| 0 <= a < b < cs.len() && b >= i ==> cs[a] != cs[b],
    decreases cs.len() - i,
{
    if i < cs.len() {
        lemma_repeated_none(cs, i + 1);
        assert forall|a: int| 0 <= a < i implies cs[a] != cs[i as int] by {
            if cs[a] == cs[i as int] {
                assert(cs.take(i as int)[a] == cs[a]);
            }
        }
    }
}

proof fn lemma_unknown_none(cs: Seq<Seq<char>>, props: Set<Seq<char>>, i: nat)
    requires
        unknown_from(cs, props, i) is None,
    ensures
        forall|k: int| i <= k < cs.len() ==> props.contains(#[trigger] cs[k]),
    decreases cs.len() - i,
{
    if i < cs.len() {
        lemma_unknown_none(cs, props, i + 1);
    }
}

/// A lowered plan's helpers do not call themselves, directly or through
/// one another.
pub proof fn lemma_lowered_helpers_do_not_recurse(items: Seq<SurfaceItem>, profile: Seq<char>)
    requires
        fd_plan_spec(items, profile) is Ok,
    ensures
        !has_model_cycle(fd_plan_spec(items, profile)->Ok_0.parts.functions),
{
}

/// A lowered plan's helpers carry only `Int`, `Bool` and `Str` contracts,
/// each ungraded or graded `@Derived`.
pub proof fn lemma_lowered_contracts_supported(items: Seq<SurfaceItem>, profile: Seq<char>)
    requires
        fd_plan_spec(items, profile) is Ok,
    ensures
        forall|i: int| 0 <= i < fd_plan_spec(items, profile)->Ok_0.parts.functions.len() ==> helper_contracts_supported(
            #[trigger] fd_plan_spec(items, profile)->Ok_0.parts.functions[i],
        ),
{
    let t = tables(items, items.len());
    let ar = helper_table(items, t, items.len())->Ok_0.1;
    let c = FdContext { has_fns: fn_count(items, items.len()) > 0, t, arities: ar };
    lemma_gather_keeps(c, items, items.len());
}

/// A lowered plan has one commit, whose candidates are nonempty, distinct,
/// and each the name of one of the plan's proposals.
pub proof fn lemma_one_commit_over_known_candidates(items: Seq<SurfaceItem>, profile: Seq<char>)
    requires
        fd_plan_spec(items, profile) is Ok,
    ensures
        ({
            let m = fd_plan_spec(items, profile)->Ok_0;
            let cs = m.commit.1;
            &&& commit_positions(items, items.len()).len() == 1
            &&& cs.len() > 0
            &&& forall|a: int, b: int| 0 <= a < b < cs.len() ==> cs[a] != cs[b]
            &&& forall|k: int| 0 <= k < cs.len() ==> m.parts.proposals.map_values(|p: ProposalModel| p.name).contains(
                #[trigger] cs[k],
            )
        }),
{
    let t = tables(items, items.len());
    let ar = helper_table(items, t, items.len())->Ok_0.1;
    let c = FdContext { has_fns: fn_count(items, items.len()) > 0, t, arities: ar };
    lemma_gather_keeps(c, items, items.len());
    let st = fd_gather(c, items, items.len())->Ok_0;
    let commit = the_commit(items)->Ok_0;
    let ps = commit_positions(items, items.len());
    if let SurfaceItem::Commit { name, candidates } = items[ps[0]] {
        lemma_repeated_none(names(candidates@), 0);
    }
    lemma_unknown_none(commit.1, st.proposals, 0);
}

/// What the parts read of the rules' facts: a helper body and a `let`
/// value none, a rule body and a proposal's guard and value only the facts
/// of the rules they declare.
pub open spec fn parts_read_declared(p: PlanParts) -> bool {
    &&& forall|i: int| 0 <= i < p.functions.len() ==> reads(#[trigger] p.functions[i].body) == Set::<Seq<char>>::empty()
    &&& forall|i: int| 0 <= i < p.lets.len() ==> reads(#[trigger] p.lets[i].1) == Set::<Seq<char>>::empty()
    &&& forall|i: int| 0 <= i < p.rules.len() ==> reads(#[trigger] p.rules[i].body).subset_of(p.rules[i].depends_on.to_set())
    &&& forall|i: int| 0 <= i < p.proposals.len() ==> reads(#[trigger] p.proposals[i].guard).subset_of(
        p.proposals[i].deps.to_set(),
    ) && reads(p.proposals[i].value).subset_of(p.proposals[i].deps.to_set())
}

proof fn lemma_gather_reads(c: FdContext, items: Seq<SurfaceItem>, n: nat)
    requires
        fd_gather(c, items, n) is Ok,
    ensures
        parts_read_declared(fd_gather(c, items, n)->Ok_0.parts),
    decreases n,
{
    if n > 0 && n <= items.len() {
        lemma_gather_reads(c, items, (n - 1) as nat);
        let st = fd_gather(c, items, (n - 1) as nat)->Ok_0;
        let visible = st.lets + st.inputs;
        match items[n - 1] {
            SurfaceItem::Fn { name, params, body, .. } => {
                let ps = param_names(params@);
                lemma_lower_reads(
                    body,
                    ScopeModel { lets: ps, rules: Set::empty(), in_rule: false, helper_enabled: true, ..fd_scope(c, st, ps, Set::empty(), false) },
                    ps,
                );
            },
            SurfaceItem::Let { value, .. } => {
                lemma_lower_reads(value, fd_scope(c, st, visible, Set::empty(), false), Set::empty());
            },
            SurfaceItem::Rule { name, params, body, .. } => {
                if let Ok(ds) = rule_deps(name@, params@, st.rules, params@.len()) {
                    lemma_lower_reads(body, fd_scope(c, st, visible, ds.to_set(), true), Set::empty());
                }
            },
            SurfaceItem::Propose { name, deps, guard, value, .. } => {
                if let Ok(ds) = proposal_deps(name@, deps@, st.rules, deps@.len()) {
                    lemma_lower_reads(guard, fd_scope(c, st, visible, ds.to_set(), true), Set::empty());
                    lemma_lower_reads(value, fd_scope(c, st, visible, ds.to_set(), true), Set::empty());
                }
            },
            _ => {},
        }
        let p0 = st.parts;
        let p1 = fd_gather(c, items, n)->Ok_0.parts;
        assert forall|i: int| 0 <= i < p1.functions.len() implies reads(#[trigger] p1.functions[i].body) == Set::<Seq<char>>::empty() by {
            if i < p0.functions.len() {
                assert(p1.functions[i] == p0.functions[i]);
            }
        }
        assert forall|i: int| 0 <= i < p1.lets.len() implies reads(#[trigger] p1.lets[i].1) == Set::<Seq<char>>::empty() by {
            if i < p0.lets.len() {
                assert(p1.lets[i] == p0.lets[i]);
            }
        }
        assert forall|i: int| 0 <= i < p1.rules.len() implies reads(#[trigger] p1.rules[i].body).subset_of(
            p1.rules[i].depends_on.to_set(),
        ) by {
            if i < p0.rules.len() {
                assert(p1.rules[i] == p0.rules[i]);
            }
        }
        assert forall|i: int| 0 <= i < p1.proposals.len() implies reads(#[trigger] p1.proposals[i].guard).subset_of(
            p1.proposals[i].deps.to_set(),
        ) && reads(p1.proposals[i].value).subset_of(p1.proposals[i].deps.to_set()) by {
            if i < p0.proposals.len() {
                assert(p1.proposals[i] == p0.proposals[i]);
            }
        }
    }
}

/// Helpers take their data as arguments: no helper body and no `let` value
/// of a lowered plan reads a rule's fact, and each rule body and each
/// proposal's guard and value read only the facts of the rules they
/// declare.
pub proof fn lemma_lowered_reads_declared(items: Seq<SurfaceItem>, profile: Seq<char>)
    requires
        fd_plan_spec(items, profile) is Ok,
    ensures
        parts_read_declared(fd_plan_spec(items, profile)->Ok_0.parts),
{
    let t = tables(items, items.len());
    let ar = helper_table(items, t, items.len())->Ok_0.1;
    let c = FdContext { has_fns: fn_count(items, items.len()) > 0, t, arities: ar };
    lemma_gather_reads(c, items, items.len());
}

} // verus!
