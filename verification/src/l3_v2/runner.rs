//! The v2 runner: `let` bindings once, then rules in dependency order, each
//! committing at most once.
use vstd::prelude::*;

use crate::keymap::{assoc_get, insert_pairs, KeyMap};
use crate::l3_v2::eval::{eval, EvalEnv};
use crate::l3_v2::exhaustive::names;
use crate::l3_v2::semantics::{eval_result, outcome, EnvModel};
use crate::l3_v2::{EvalFault, FaultModel, L3ExprV2, L3PlanItemV2, L3PlanV2, L3ValueV2, ValueModel};

verus! {

/// One committed fact: a rule's body evaluated, published, and available for
/// later rules to read.
#[derive(Clone, Debug, PartialEq, Eq)]
pub struct CommittedFactV2 {
    /// Commit order, from zero.
    pub ordinal: u64,
    pub rule: String,
    pub value: L3ValueV2,
    /// The facts this one was derived from, as declared in the plan.
    pub depends_on: Vec<String>,
}

/// Why a v2 run stopped. None of these certifies quiescence: the runner
/// reports what it observed.
#[derive(Clone, Debug, PartialEq, Eq)]
pub enum RunStopV2 {
    /// Every rule in the plan committed.
    AllRulesCommitted,
    /// No rule is eligible, and some remain uncommitted.
    NoEligibleRule { pending: Vec<String> },
    /// A `let` value or a rule body faulted; the run stops there.
    Faulted { rule: String, fault: EvalFault },
}

/// The result of running a v2 plan.
#[derive(Clone, Debug, PartialEq, Eq)]
pub struct L3RunV2 {
    pub facts: Vec<CommittedFactV2>,
    pub stop: RunStopV2,
}

/// Model of a committed fact.
pub struct FactModel {
    pub ordinal: u64,
    pub rule: Seq<char>,
    pub value: ValueModel,
    pub depends_on: Seq<Seq<char>>,
}

/// Model of a stop reason.
pub enum StopModel {
    AllRulesCommitted,
    NoEligibleRule { pending: Seq<Seq<char>> },
    Faulted { rule: Seq<char>, fault: FaultModel },
}

/// Model of a run.
pub struct RunModel {
    pub facts: Seq<FactModel>,
    pub stop: StopModel,
}

impl View for CommittedFactV2 {
    type V = FactModel;

    open spec fn view(&self) -> FactModel {
        FactModel {
            ordinal: self.ordinal,
            rule: self.rule@,
            value: self.value@,
            depends_on: names(self.depends_on@),
        }
    }
}

impl View for RunStopV2 {
    type V = StopModel;

    open spec fn view(&self) -> StopModel {
        match self {
            RunStopV2::AllRulesCommitted => StopModel::AllRulesCommitted,
            RunStopV2::NoEligibleRule { pending } => StopModel::NoEligibleRule { pending: names(pending@) },
            RunStopV2::Faulted { rule, fault } => StopModel::Faulted { rule: rule@, fault: fault@ },
        }
    }
}

/// Models of a sequence of facts.
pub open spec fn facts_model(s: Seq<CommittedFactV2>) -> Seq<FactModel> {
    s.map_values(|f: CommittedFactV2| f@)
}

impl View for L3RunV2 {
    type V = RunModel;

    open spec fn view(&self) -> RunModel {
        RunModel { facts: facts_model(self.facts@), stop: self.stop@ }
    }
}

/// A rule as the runner sees it: name, body, declared dependencies.
pub type RuleModel = (Seq<char>, L3ExprV2, Seq<Seq<char>>);

/// The rules among the first `n` items, in declaration order.
pub open spec fn plan_rules(items: Seq<L3PlanItemV2>, n: nat) -> Seq<RuleModel>
    decreases n,
{
    if n == 0 || n > items.len() {
        Seq::empty()
    } else {
        let r = plan_rules(items, (n - 1) as nat);
        match items[n - 1] {
            L3PlanItemV2::Rule { name, body, depends_on } => r.push((name@, body, names(depends_on@))),
            _ => r,
        }
    }
}

/// The environment a run starts from: nothing bound, no helpers, no schemas.
pub open spec fn empty_env() -> EnvModel {
    EnvModel {
        inputs: Seq::empty(),
        lets: Seq::empty(),
        facts: Seq::empty(),
        locals: Seq::empty(),
        functions: Seq::empty(),
        schemas: Seq::empty(),
    }
}

/// The environment after the `let` items among the first `n`, each
/// evaluated once in order, or the name and fault of the first that faults.
pub open spec fn bind_lets(items: Seq<L3PlanItemV2>, n: nat) -> Result<EnvModel, (Seq<char>, FaultModel)>
    decreases n,
{
    if n == 0 || n > items.len() {
        Ok(empty_env())
    } else {
        match bind_lets(items, (n - 1) as nat) {
            Err(x) => Err(x),
            Ok(env) => match items[n - 1] {
                L3PlanItemV2::Let { name, value } => match eval_result(value, env) {
                    Ok(v) => Ok(EnvModel { lets: insert_pairs(env.lets, name@, v), ..env }),
                    Err(f) => Err((name@, f)),
                },
                _ => Ok(env),
            },
        }
    }
}

/// A rule may run: it has not committed, and each of its dependencies has.
pub open spec fn eligible(rule: RuleModel, committed: Set<Seq<char>>) -> bool {
    &&& !committed.contains(rule.0)
    &&& forall|j: int| 0 <= j < rule.2.len() ==> committed.contains(#[trigger] rule.2[j])
}

/// Index of the first eligible rule from index `i` on.
pub open spec fn first_eligible(rules: Seq<RuleModel>, committed: Set<Seq<char>>, i: nat) -> Option<int>
    decreases rules.len() - i,
{
    if i >= rules.len() {
        None
    } else if eligible(rules[i as int], committed) {
        Some(i as int)
    } else {
        first_eligible(rules, committed, i + 1)
    }
}

/// Number of the first `n` rules whose name has not committed.
pub open spec fn uncommitted(rules: Seq<RuleModel>, committed: Set<Seq<char>>, n: nat) -> nat
    decreases n,
{
    if n == 0 || n > rules.len() {
        0
    } else {
        uncommitted(rules, committed, (n - 1) as nat) + if committed.contains(rules[n - 1].0) {
            0nat
        } else {
            1nat
        }
    }
}

/// Names of the first `n` rules that have not committed, in order.
pub open spec fn pending_names(rules: Seq<RuleModel>, committed: Set<Seq<char>>, n: nat) -> Seq<Seq<char>>
    decreases n,
{
    if n == 0 || n > rules.len() {
        Seq::empty()
    } else {
        let p = pending_names(rules, committed, (n - 1) as nat);
        if committed.contains(rules[n - 1].0) {
            p
        } else {
            p.push(rules[n - 1].0)
        }
    }
}

pub proof fn lemma_first_eligible(rules: Seq<RuleModel>, committed: Set<Seq<char>>, i: nat)
    ensures
        first_eligible(rules, committed, i) matches Some(k) ==> {
            &&& i <= k < rules.len()
            &&& eligible(rules[k], committed)
            &&& forall|j: int| i <= j < k ==> !eligible(#[trigger] rules[j], committed)
        },
        first_eligible(rules, committed, i) is None ==> forall|j: int|
            i <= j < rules.len() ==> !eligible(#[trigger] rules[j], committed),
    decreases rules.len() - i,
{
    if i < rules.len() {
        lemma_first_eligible(rules, committed, i + 1);
    }
}

/// Committing a name that some rule carries and that has not committed
/// lowers the uncommitted count.
pub proof fn lemma_uncommitted_drops(rules: Seq<RuleModel>, committed: Set<Seq<char>>, k: int, n: nat)
    requires
        0 <= k < n <= rules.len(),
        !committed.contains(rules[k].0),
    ensures
        uncommitted(rules, committed.insert(rules[k].0), n) < uncommitted(rules, committed, n),
    decreases n,
{
    lemma_uncommitted_mono(rules, committed, rules[k].0, (n - 1) as nat);
    if k < n - 1 {
        lemma_uncommitted_drops(rules, committed, k, (n - 1) as nat);
    }
}

proof fn lemma_uncommitted_mono(rules: Seq<RuleModel>, committed: Set<Seq<char>>, x: Seq<char>, n: nat)
    ensures
        uncommitted(rules, committed.insert(x), n) <= uncommitted(rules, committed, n),
    decreases n,
{
    if n > 0 && n <= rules.len() {
        lemma_uncommitted_mono(rules, committed, x, (n - 1) as nat);
    }
}

/// The committed fact for rule `r` with value `v`, as the `n`-th commit.
pub open spec fn fact_for(r: RuleModel, v: ValueModel, n: nat) -> FactModel {
    FactModel { ordinal: n as u64, rule: r.0, value: v, depends_on: r.2 }
}

/// The rest of a run from a state: repeatedly commit the first eligible
/// rule, until none is eligible or a body faults.
pub open spec fn agenda(
    rules: Seq<RuleModel>,
    env: EnvModel,
    facts: Seq<FactModel>,
    committed: Set<Seq<char>>,
) -> RunModel
    decreases uncommitted(rules, committed, rules.len()),
{
    match first_eligible(rules, committed, 0) {
        None => {
            let p = pending_names(rules, committed, rules.len());
            RunModel {
                facts,
                stop: if p.len() == 0 {
                    StopModel::AllRulesCommitted
                } else {
                    StopModel::NoEligibleRule { pending: p }
                },
            }
        },
        Some(k) => {
            let r = rules[k];
            match eval_result(r.1, env) {
                Err(f) => RunModel { facts, stop: StopModel::Faulted { rule: r.0, fault: f } },
                Ok(v) => {
                    proof {
                        lemma_first_eligible(rules, committed, 0);
                        lemma_uncommitted_drops(rules, committed, k, rules.len());
                    }
                    agenda(
                        rules,
                        EnvModel { facts: insert_pairs(env.facts, r.0, v), ..env },
                        facts.push(fact_for(r, v, facts.len())),
                        committed.insert(r.0),
                    )
                },
            }
        },
    }
}

/// The run of a plan.
pub open spec fn run_spec(items: Seq<L3PlanItemV2>) -> RunModel {
    match bind_lets(items, items.len()) {
        Err((name, f)) => RunModel {
            facts: Seq::empty(),
            stop: StopModel::Faulted { rule: name, fault: f },
        },
        Ok(env) => agenda(plan_rules(items, items.len()), env, Seq::empty(), Set::empty()),
    }
}

/// The rule an item declares, if it is one.
pub open spec fn rule_of(item: L3PlanItemV2) -> RuleModel {
    match item {
        L3PlanItemV2::Rule { name, body, depends_on } => (name@, body, names(depends_on@)),
        _ => (Seq::empty(), L3ExprV2::Bool(false), Seq::empty()),
    }
}

/// Positions of the rule items, in declaration order.
fn rule_positions(items: &Vec<L3PlanItemV2>) -> (idx: Vec<usize>)
    ensures
        idx@.len() == plan_rules(items@, items@.len()).len(),
        forall|j: int| 0 <= j < idx@.len() ==> {
            &&& (#[trigger] idx@[j]) < items@.len()
            &&& items@[idx@[j] as int] is Rule
            &&& rule_of(items@[idx@[j] as int]) == plan_rules(items@, items@.len())[j]
        },
{
    let mut idx: Vec<usize> = Vec::new();
    let mut i: usize = 0;
    while i < items.len()
        invariant
            i <= items@.len(),
            idx@.len() == plan_rules(items@, i as nat).len(),
            forall|j: int| 0 <= j < idx@.len() ==> {
                &&& (#[trigger] idx@[j]) < i
                &&& items@[idx@[j] as int] is Rule
                &&& rule_of(items@[idx@[j] as int]) == plan_rules(items@, i as nat)[j]
            },
        decreases items@.len() - i,
    {
        if let L3PlanItemV2::Rule { .. } = &items[i] {
            idx.push(i);
        }
        i = i + 1;
    }
    idx
}

/// Whether `k` is among `v`.
fn name_in(v: &Vec<String>, k: &str) -> (b: bool)
    ensures
        b == exists|j: int| 0 <= j < v@.len() && (#[trigger] v@[j])@ == k@,
{
    let mut j: usize = 0;
    while j < v.len()
        invariant
            j <= v@.len(),
            forall|i: int| 0 <= i < j ==> (#[trigger] v@[i])@ != k@,
        decreases v@.len() - j,
    {
        if crate::keymap::same_text(v[j].as_str(), k) {
            return true;
        }
        j = j + 1;
    }
    false
}

/// A copy of a list of names.
fn copy_names(v: &Vec<String>) -> (r: Vec<String>)
    ensures
        names(r@) == names(v@),
{
    let mut r: Vec<String> = Vec::new();
    let mut j: usize = 0;
    while j < v.len()
        invariant
            j <= v@.len(),
            r@.len() == j,
            forall|i: int| 0 <= i < j ==> (#[trigger] r@[i])@ == v@[i]@,
        decreases v@.len() - j,
    {
        r.push(v[j].clone());
        j = j + 1;
    }
    proof {
        assert(names(r@) =~= names(v@));
    }
    r
}

/// The committed-name set a list of names stands for.
pub open spec fn name_set(v: Seq<String>) -> Set<Seq<char>> {
    Set::new(|k: Seq<char>| exists|j: int| 0 <= j < v.len() && (#[trigger] v[j])@ == k)
}

/// Whether the rule at `pos` may run.
#[verifier::loop_isolation(false)]
fn rule_eligible(items: &Vec<L3PlanItemV2>, pos: usize, committed: &Vec<String>) -> (b: bool)
    requires
        pos < items@.len(),
        items@[pos as int] is Rule,
    ensures
        b == eligible(rule_of(items@[pos as int]), name_set(committed@)),
{
    match &items[pos] {
        L3PlanItemV2::Rule { name, body, depends_on } => {
            proof {
                assert(rule_of(items@[pos as int]) == (name@, *body, names(depends_on@)));
            }
            if name_in(committed, name.as_str()) {
                proof {
                    assert(name_set(committed@).contains(name@));
                }
                return false;
            }
            let mut j: usize = 0;
            while j < depends_on.len()
                invariant
                    j <= depends_on@.len(),
                    forall|i: int|
                        0 <= i < j ==> name_set(committed@).contains(#[trigger] names(depends_on@)[i]),
                decreases depends_on@.len() - j,
            {
                if !name_in(committed, depends_on[j].as_str()) {
                    proof {
                        assert(names(depends_on@)[j as int] == depends_on@[j as int]@);
                        assert(!name_set(committed@).contains(names(depends_on@)[j as int]));
                        assert(rule_of(items@[pos as int]).2[j as int] == names(depends_on@)[j as int]);
                    }
                    return false;
                }
                j = j + 1;
            }
            true
        },
        _ => false,
    }
}

/// Index, among the rules, of the first eligible one.
fn find_eligible(
    items: &Vec<L3PlanItemV2>,
    idx: &Vec<usize>,
    committed: &Vec<String>,
    Ghost(rules): Ghost<Seq<RuleModel>>,
) -> (r: Option<usize>)
    requires
        rules.len() == idx@.len(),
        forall|j: int| 0 <= j < idx@.len() ==> {
            &&& (#[trigger] idx@[j]) < items@.len()
            &&& items@[idx@[j] as int] is Rule
            &&& rule_of(items@[idx@[j] as int]) == rules[j]
        },
    ensures
        match r {
            Some(k) => first_eligible(rules, name_set(committed@), 0) == Some(k as int),
            None => first_eligible(rules, name_set(committed@), 0) is None,
        },
{
    let ghost cset = name_set(committed@);
    proof {
        lemma_first_eligible(rules, cset, 0);
    }
    let mut k: usize = 0;
    while k < idx.len()
        invariant
            k <= idx@.len(),
            rules.len() == idx@.len(),
            cset == name_set(committed@),
            forall|j: int| 0 <= j < idx@.len() ==> {
                &&& (#[trigger] idx@[j]) < items@.len()
                &&& items@[idx@[j] as int] is Rule
                &&& rule_of(items@[idx@[j] as int]) == rules[j]
            },
            forall|j: int| 0 <= j < k ==> !eligible(#[trigger] rules[j], cset),
            first_eligible(rules, cset, 0) == first_eligible(rules, cset, k as nat),
        decreases idx@.len() - k,
    {
        let pos = idx[k];
        if rule_eligible(items, pos, committed) {
            return Some(k);
        }
        k = k + 1;
    }
    None
}

/// Run a v2 plan to completion.
///
/// Each rule commits at most once, so the run terminates; among eligible
/// rules the one declared earliest always goes first, so the same plan gives
/// the same facts in the same order every time.
pub fn run_l3_plan_v2(plan: &L3PlanV2) -> (run: L3RunV2)
    ensures
        run@ == run_spec(plan.items@),
{
    let ghost items = plan.items@;
    let mut env = EvalEnv::new();
    proof {
        assert(env@.inputs =~= Seq::<(Seq<char>, ValueModel)>::empty());
        assert(env@.lets =~= Seq::<(Seq<char>, ValueModel)>::empty());
        assert(env@.facts =~= Seq::<(Seq<char>, ValueModel)>::empty());
        assert(env@.locals =~= Seq::<(Seq<char>, ValueModel)>::empty());
        assert(env@.functions =~= empty_env().functions);
        assert(env@.schemas =~= empty_env().schemas);
        assert(env@ == empty_env());
    }
    let mut i: usize = 0;
    while i < plan.items.len()
        invariant
            i <= items.len(),
            items == plan.items@,
            bind_lets(items, i as nat) == Ok::<EnvModel, (Seq<char>, FaultModel)>(env@),
        decreases items.len() - i,
    {
        if let L3PlanItemV2::Let { name, value } = &plan.items[i] {
            match eval(value, &env) {
                Ok(v) => {
                    env = env.with_let(name.as_str(), v);
                },
                Err(fault) => {
                    proof {
                        assert(bind_lets(items, (i + 1) as nat) == Err::<EnvModel, (Seq<char>, FaultModel)>(
                            (name@, fault@),
                        ));
                        lemma_bind_lets_err(items, (i + 1) as nat);
                    }
                    let run = L3RunV2 {
                        facts: Vec::new(),
                        stop: RunStopV2::Faulted { rule: name.clone(), fault },
                    };
                    proof {
                        assert(facts_model(run.facts@) =~= Seq::<FactModel>::empty());
                    }
                    return run;
                },
            }
        }
        i = i + 1;
    }
    let idx = rule_positions(&plan.items);
    let ghost rules = plan_rules(items, items.len());
    let mut committed: Vec<String> = Vec::new();
    let mut facts: Vec<CommittedFactV2> = Vec::new();
    proof {
        assert(name_set(committed@) =~= Set::<Seq<char>>::empty());
        assert(facts_model(facts@) =~= Seq::<FactModel>::empty());
    }
    loop
        invariant
            items == plan.items@,
            rules == plan_rules(items, items.len()),
            rules.len() == idx@.len(),
            forall|j: int| 0 <= j < idx@.len() ==> {
                &&& (#[trigger] idx@[j]) < items.len()
                &&& items[idx@[j] as int] is Rule
                &&& rule_of(items[idx@[j] as int]) == rules[j]
            },
            run_spec(items) == agenda(rules, env@, facts_model(facts@), name_set(committed@)),
        decreases uncommitted(rules, name_set(committed@), rules.len()),
    {
        let next = find_eligible(&plan.items, &idx, &committed, Ghost(rules));
        match next {
            None => {
                let mut pending: Vec<String> = Vec::new();
                let mut j: usize = 0;
                while j < idx.len()
                    invariant
                        j <= idx@.len(),
                        rules.len() == idx@.len(),
                        forall|t: int| 0 <= t < idx@.len() ==> {
                            &&& (#[trigger] idx@[t]) < items.len()
                            &&& items[idx@[t] as int] is Rule
                            &&& rule_of(items[idx@[t] as int]) == rules[t]
                        },
                        items == plan.items@,
                        names(pending@) == pending_names(rules, name_set(committed@), j as nat),
                    decreases idx@.len() - j,
                {
                    let pos = idx[j];
                    if let L3PlanItemV2::Rule { name, .. } = &plan.items[pos] {
                        if !name_in(&committed, name.as_str()) {
                            let s = name.clone();
                            proof {
                                assert(names(pending@.push(s)) =~= names(pending@).push(s@));
                            }
                            pending.push(s);
                        }
                    }
                    j = j + 1;
                }
                let stop = if pending.len() == 0 {
                    RunStopV2::AllRulesCommitted
                } else {
                    RunStopV2::NoEligibleRule { pending }
                };
                return L3RunV2 { facts, stop };
            },
            Some(k) => {
                proof {
                    lemma_first_eligible(rules, name_set(committed@), 0);
                }
                let pos = idx[k];
                match &plan.items[pos] {
                    L3PlanItemV2::Rule { name, body, depends_on } => {
                        match eval(body, &env) {
                            Ok(value) => {
                                let ghost before = name_set(committed@);
                                let fact = CommittedFactV2 {
                                    ordinal: facts.len() as u64,
                                    rule: name.clone(),
                                    value: value.duplicate(),
                                    depends_on: copy_names(depends_on),
                                };
                                proof {
                                    assert(facts_model(facts@.push(fact)) =~= facts_model(facts@).push(fact@));
                                    lemma_uncommitted_drops(rules, before, k as int, rules.len());
                                }
                                facts.push(fact);
                                env = env.with_fact(name.as_str(), value);
                                let ghost old_c = committed@;
                                let s = name.clone();
                                committed.push(s);
                                proof {
                                    assert(committed@ == old_c.push(s));
                                    assert forall|x: Seq<char>| #[trigger] name_set(committed@).contains(x)
                                        == before.insert(name@).contains(x) by {
                                        if before.contains(x) {
                                            let w = choose|w: int| 0 <= w < old_c.len() && (#[trigger] old_c[w])@ == x;
                                            assert(committed@[w] == old_c[w]);
                                        }
                                        if x == name@ {
                                            assert(committed@[old_c.len() as int]@ == x);
                                        }
                                        if name_set(committed@).contains(x) {
                                            let w = choose|w: int| 0 <= w < committed@.len() && (#[trigger] committed@[w])@ == x;
                                            if w < old_c.len() {
                                                assert(old_c[w] == committed@[w]);
                                            }
                                        }
                                    }
                                    assert(name_set(committed@) =~= before.insert(name@));
                                }
                            },
                            Err(fault) => {
                                return L3RunV2 {
                                    facts,
                                    stop: RunStopV2::Faulted { rule: name.clone(), fault },
                                };
                            },
                        }
                    },
                    _ => {
                        proof {
                            assert(false);
                        }
                    },
                }
            },
        }
    }
}

proof fn lemma_bind_lets_err(items: Seq<L3PlanItemV2>, n: nat)
    requires
        n <= items.len(),
        bind_lets(items, n) is Err,
    ensures
        bind_lets(items, items.len()) == bind_lets(items, n),
    decreases items.len() - n,
{
    if n < items.len() {
        assert(bind_lets(items, n + 1) == bind_lets(items, n));
        lemma_bind_lets_err(items, n + 1);
    }
}

/// Some fact before position `i` committed rule `x`.
pub open spec fn committed_before(facts: Seq<FactModel>, i: int, x: Seq<char>) -> bool {
    exists|j: int| 0 <= j < i && (#[trigger] facts[j]).rule == x
}

/// The journal a run keeps: ordinals count from zero, each rule commits at
/// most once, the committed set is the set of fact rules, and every fact's
/// dependencies committed before it.
pub open spec fn journal_ok(facts: Seq<FactModel>, committed: Set<Seq<char>>) -> bool {
    &&& forall|i: int| 0 <= i < facts.len() ==> (#[trigger] facts[i]).ordinal == i as u64
    &&& forall|i: int, j: int|
        0 <= i < j < facts.len() ==> (#[trigger] facts[i]).rule != (#[trigger] facts[j]).rule
    &&& forall|k: Seq<char>|
        committed.contains(k) <==> exists|i: int| 0 <= i < facts.len() && (#[trigger] facts[i]).rule == k
    &&& forall|i: int, d: int|
        0 <= i < facts.len() && 0 <= d < facts[i].depends_on.len() ==> #[trigger] committed_before(
            facts,
            i,
            facts[i].depends_on[d],
        )
}

/// The facts a run ends with keep the journal.
pub open spec fn facts_ok(facts: Seq<FactModel>) -> bool {
    &&& forall|i: int| 0 <= i < facts.len() ==> (#[trigger] facts[i]).ordinal == i as u64
    &&& forall|i: int, j: int|
        0 <= i < j < facts.len() ==> (#[trigger] facts[i]).rule != (#[trigger] facts[j]).rule
    &&& forall|i: int, d: int|
        0 <= i < facts.len() && 0 <= d < facts[i].depends_on.len() ==> #[trigger] committed_before(
            facts,
            i,
            facts[i].depends_on[d],
        )
}

proof fn lemma_journal_step(facts: Seq<FactModel>, committed: Set<Seq<char>>, r: RuleModel, v: ValueModel)
    requires
        journal_ok(facts, committed),
        eligible(r, committed),
    ensures
        journal_ok(facts.push(fact_for(r, v, facts.len())), committed.insert(r.0)),
{
        let nf = facts.push(fact_for(r, v, facts.len()));
        let nc = committed.insert(r.0);
        assert forall|i: int| 0 <= i < nf.len() implies (#[trigger] nf[i]).ordinal == i as u64 by {
            if i < facts.len() {
                assert(nf[i] == facts[i]);
            }
        }
        assert forall|i: int, j: int| 0 <= i < j < nf.len() implies (#[trigger] nf[i]).rule
            != (#[trigger] nf[j]).rule by {
            assert(nf[i] == facts[i]);
            if j < facts.len() {
                assert(nf[j] == facts[j]);
            } else {
                assert(committed.contains(facts[i].rule));
            }
        }
        assert forall|x: Seq<char>| nc.contains(x) <==> exists|i: int|
            0 <= i < nf.len() && (#[trigger] nf[i]).rule == x by {
            if nc.contains(x) {
                if x == r.0 {
                    assert(nf[facts.len() as int].rule == x);
                } else {
                    let i = choose|i: int| 0 <= i < facts.len() && (#[trigger] facts[i]).rule == x;
                    assert(nf[i] == facts[i]);
                }
            }
            if exists|i: int| 0 <= i < nf.len() && (#[trigger] nf[i]).rule == x {
                let i = choose|i: int| 0 <= i < nf.len() && (#[trigger] nf[i]).rule == x;
                if i < facts.len() {
                    assert(nf[i] == facts[i]);
                }
            }
        }
        assert forall|i: int, d: int|
            0 <= i < nf.len() && 0 <= d < nf[i].depends_on.len() implies #[trigger] committed_before(
                nf,
                i,
                nf[i].depends_on[d],
            ) by {
            if i < facts.len() {
                assert(nf[i] == facts[i]);
                assert(committed_before(facts, i, facts[i].depends_on[d]));
                let j = choose|j: int| 0 <= j < i && (#[trigger] facts[j]).rule == facts[i].depends_on[d];
                assert(nf[j] == facts[j]);
            } else {
                assert(committed.contains(r.2[d]));
                let j = choose|j: int| 0 <= j < facts.len() && (#[trigger] facts[j]).rule == r.2[d];
                assert(nf[j] == facts[j]);
            }
        }

}

proof fn lemma_agenda_journal(
    rules: Seq<RuleModel>,
    env: EnvModel,
    facts: Seq<FactModel>,
    committed: Set<Seq<char>>,
)
    requires
        journal_ok(facts, committed),
    ensures
        facts_ok(agenda(rules, env, facts, committed).facts),
    decreases uncommitted(rules, committed, rules.len()),
{
    lemma_first_eligible(rules, committed, 0);
    match first_eligible(rules, committed, 0) {
        None => {},
        Some(k) => {
            let r = rules[k];
            match eval_result(r.1, env) {
                Err(_) => {},
                Ok(v) => {
                    lemma_uncommitted_drops(rules, committed, k, rules.len());
                    let nf = facts.push(fact_for(r, v, facts.len()));
                    let nc = committed.insert(r.0);
                    lemma_journal_step(facts, committed, r, v);
                    lemma_agenda_journal(
                        rules,
                        EnvModel { facts: insert_pairs(env.facts, r.0, v), ..env },
                        nf,
                        nc,
                    );
                },
            }
        },
    }
}

/// The journal of every run: a fact's ordinal is its position, each rule
/// commits at most once, and every declared dependency of a fact was
/// committed by an earlier fact.
pub proof fn lemma_run_journal(items: Seq<L3PlanItemV2>)
    ensures
        facts_ok(run_spec(items).facts),
{
    match bind_lets(items, items.len()) {
        Err(_) => {},
        Ok(env) => {
            assert(journal_ok(Seq::empty(), Set::empty()));
            lemma_agenda_journal(plan_rules(items, items.len()), env, Seq::empty(), Set::empty());
        },
    }
}

proof fn lemma_pending_names(rules: Seq<RuleModel>, committed: Set<Seq<char>>, n: nat)
    requires
        n <= rules.len(),
    ensures
        forall|x: Seq<char>| pending_names(rules, committed, n).contains(x) ==> !committed.contains(x),
        pending_names(rules, committed, n).len() == 0 <==> forall|j: int|
            0 <= j < n ==> committed.contains(#[trigger] rules[j].0),
    decreases n,
{
    if n > 0 {
        lemma_pending_names(rules, committed, (n - 1) as nat);
        let p = pending_names(rules, committed, (n - 1) as nat);
        if !committed.contains(rules[n - 1].0) {
            assert forall|x: Seq<char>| p.push(rules[n - 1].0).contains(x) implies !committed.contains(x) by {
                let q = p.push(rules[n - 1].0);
                if x != rules[n - 1].0 {
                    let i = choose|i: int| 0 <= i < q.len() && #[trigger] q[i] == x;
                    assert(p[i] == x);
                }
            }
        }
    }
}

proof fn lemma_agenda_stop(
    rules: Seq<RuleModel>,
    env: EnvModel,
    facts: Seq<FactModel>,
    committed: Set<Seq<char>>,
)
    requires
        journal_ok(facts, committed),
    ensures
        agenda(rules, env, facts, committed).stop is AllRulesCommitted ==> forall|j: int|
            0 <= j < rules.len() ==> exists|i: int|
                0 <= i < agenda(rules, env, facts, committed).facts.len() && (#[trigger] agenda(
                    rules,
                    env,
                    facts,
                    committed,
                ).facts[i]).rule == (#[trigger] rules[j]).0,
        agenda(rules, env, facts, committed).stop matches StopModel::NoEligibleRule { pending } ==> {
            &&& pending.len() > 0
            &&& forall|x: Seq<char>| #[trigger] pending.contains(x) ==> forall|i: int|
                0 <= i < agenda(rules, env, facts, committed).facts.len() ==> (#[trigger] agenda(
                    rules,
                    env,
                    facts,
                    committed,
                ).facts[i]).rule != x
        },
    decreases uncommitted(rules, committed, rules.len()),
{
    lemma_first_eligible(rules, committed, 0);
    match first_eligible(rules, committed, 0) {
        None => {
            lemma_pending_names(rules, committed, rules.len());
            let p = pending_names(rules, committed, rules.len());
            assert forall|x: Seq<char>| #[trigger] p.contains(x) implies forall|i: int|
                0 <= i < facts.len() ==> (#[trigger] facts[i]).rule != x by {
                assert forall|i: int| 0 <= i < facts.len() implies (#[trigger] facts[i]).rule != x by {
                    if facts[i].rule == x {
                        assert(committed.contains(x));
                    }
                }
            }
        },
        Some(k) => {
            let r = rules[k];
            match eval_result(r.1, env) {
                Err(_) => {},
                Ok(v) => {
                    lemma_uncommitted_drops(rules, committed, k, rules.len());
                    let nf = facts.push(fact_for(r, v, facts.len()));
                    let nc = committed.insert(r.0);
                    lemma_journal_step(facts, committed, r, v);
                    lemma_agenda_stop(
                        rules,
                        EnvModel { facts: insert_pairs(env.facts, r.0, v), ..env },
                        nf,
                        nc,
                    );
                },
            }
        },
    }
}

/// How a run ends: when it reports that every rule committed, each rule of
/// the plan has a fact; when it reports no eligible rule, the pending list is
/// non-empty and names only rules without a fact.
pub proof fn lemma_run_stop(items: Seq<L3PlanItemV2>)
    ensures
        run_spec(items).stop is AllRulesCommitted ==> forall|j: int|
            0 <= j < plan_rules(items, items.len()).len() ==> exists|i: int|
                0 <= i < run_spec(items).facts.len() && (#[trigger] run_spec(items).facts[i]).rule
                    == (#[trigger] plan_rules(items, items.len())[j]).0,
        run_spec(items).stop matches StopModel::NoEligibleRule { pending } ==> {
            &&& pending.len() > 0
            &&& forall|x: Seq<char>| #[trigger] pending.contains(x) ==> forall|i: int|
                0 <= i < run_spec(items).facts.len() ==> (#[trigger] run_spec(items).facts[i]).rule != x
        },
{
    match bind_lets(items, items.len()) {
        Err(_) => {},
        Ok(env) => {
            assert(journal_ok(Seq::empty(), Set::empty()));
            lemma_agenda_stop(plan_rules(items, items.len()), env, Seq::empty(), Set::empty());
        },
    }
}

} // verus!
