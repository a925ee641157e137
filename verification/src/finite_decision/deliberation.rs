//! The evaluation a deliberation performs before any candidate is settled:
//! bound inputs first, then the closed `let` bindings, then every rule in
//! order, then each commit candidate's proposal guard and value. The same
//! environment, with the facts of a run, evaluates the `show` expressions.
use std::sync::Arc;
use vstd::prelude::*;

use crate::finite_decision::plan::{
    names_of, note_name, unknown_candidate, FiniteDecisionContract, FiniteDecisionFunction, FiniteDecisionInput,
    FiniteDecisionLowerError, FiniteDecisionPlan, FiniteDecisionProposal, FiniteDecisionRule, Grade,
};
use crate::finite_decision::runtime::{FiniteDecisionBuildError, FiniteDecisionUnknownReason};
use crate::input::shards::InputSnapshot;
use crate::input::validation::{copy_value_type, declarations_complete, declarations_met, InputValidationError};
use crate::input::{scalar_value, ScalarModel};
use crate::keymap::{assoc_get, insert_pairs, lemma_insert_get, same_text, KeyMap};
use crate::l3_v2::eval::{eval, EvalEnv};
use crate::l3_v2::runner::empty_env;
use crate::l3_v2::semantics::{eval_result, EnvModel};
use crate::l3_v2::{
    model_type_text, type_of_value, EvalFault, FaultModel, L3ExprV2, L3FunctionDef, L3SchemaType, L3ValueType,
    L3ValueV2, ValueModel,
};
use crate::text::{decimal, join2, join3, owned, usize_text};

verus! {

/// An external input bound into a deliberation, published at grade
/// `Derived`.
#[derive(Clone, Debug, PartialEq, Eq)]
pub struct BoundInput {
    pub ordinal: u64,
    pub name: String,
    pub ty: L3ValueType,
    pub value: L3ValueV2,
    pub grade: Grade,
}

/// A fact a rule derived, published at grade `Derived`.
#[derive(Clone, Debug, PartialEq, Eq)]
pub struct DerivedFact {
    pub rule: String,
    pub value: L3ValueV2,
    pub ordinal: u64,
    pub grade: Grade,
}

/// The environment with the helpers `helpers` after binding the first `n`
/// inputs, in order.
pub open spec fn input_env(helpers: Seq<(Seq<char>, Arc<L3FunctionDef>)>, inputs: Seq<BoundInput>, n: nat) -> EnvModel
    decreases n,
{
    if n == 0 || n > inputs.len() {
        EnvModel { functions: helpers, ..empty_env() }
    } else {
        let env = input_env(helpers, inputs, (n - 1) as nat);
        EnvModel { inputs: insert_pairs(env.inputs, inputs[n - 1].name@, inputs[n - 1].value@), ..env }
    }
}

/// The environment after the first `n` closed `let` bindings, each
/// evaluated once in order, or the name and fault of the first that faults.
pub open spec fn let_env(lets: Seq<(String, L3ExprV2)>, env: EnvModel, n: nat) -> Result<
    EnvModel,
    (Seq<char>, FaultModel),
>
    decreases n,
{
    if n == 0 || n > lets.len() {
        Ok(env)
    } else {
        match let_env(lets, env, (n - 1) as nat) {
            Err(x) => Err(x),
            Ok(e) => match eval_result(lets[n - 1].1, e) {
                Ok(v) => Ok(EnvModel { lets: insert_pairs(e.lets, lets[n - 1].0@, v), ..e }),
                Err(f) => Err((lets[n - 1].0@, f)),
            },
        }
    }
}

/// A derived fact as a model: rule, value, ordinal.
pub type FactEntry = (Seq<char>, ValueModel, u64);

/// The first `n` rules evaluated in order: the facts derived, the
/// environment with each fact recorded, and the name and fault of the rule
/// that stopped the pass, if one did.
pub open spec fn rule_pass(rules: Seq<FiniteDecisionRule>, env: EnvModel, n: nat) -> (
    Seq<FactEntry>,
    EnvModel,
    Option<(Seq<char>, FaultModel)>,
)
    decreases n,
{
    if n == 0 || n > rules.len() {
        (Seq::empty(), env, None)
    } else {
        let (fs, e, stop) = rule_pass(rules, env, (n - 1) as nat);
        if stop is Some {
            (fs, e, stop)
        } else {
            let r = rules[n - 1];
            match eval_result(r.body, e) {
                Ok(v) => (
                    fs.push((r.name@, v, r.ordinal)),
                    EnvModel { facts: insert_pairs(e.facts, r.name@, v), ..e },
                    None,
                ),
                Err(f) => (fs, e, Some((r.name@, f))),
            }
        }
    }
}

/// The schema type a helper contract checks: the primitive of the same
/// name, or the named type of a sum or record.
pub open spec fn contract_schema(c: Option<FiniteDecisionContract>) -> Option<L3SchemaType> {
    match c {
        None => None,
        Some(ct) => Some(
            match ct.ty {
                L3ValueType::Int => L3SchemaType::Int,
                L3ValueType::Bool => L3SchemaType::Bool,
                L3ValueType::Str => L3SchemaType::Str,
                L3ValueType::Sum(n) => L3SchemaType::Named(n),
                L3ValueType::Record(n) => L3SchemaType::Named(n),
            },
        ),
    }
}

/// The schema type a helper contract checks.
fn contract_schema_of(c: &Option<FiniteDecisionContract>) -> (r: Option<L3SchemaType>)
    ensures
        r == contract_schema(*c),
{
    match c {
        None => None,
        Some(ct) => Some(
            match &ct.ty {
                L3ValueType::Int => L3SchemaType::Int,
                L3ValueType::Bool => L3SchemaType::Bool,
                L3ValueType::Str => L3SchemaType::Str,
                L3ValueType::Sum(n) => L3SchemaType::Named(n.clone()),
                L3ValueType::Record(n) => L3SchemaType::Named(n.clone()),
            },
        ),
    }
}

/// `d` is the evaluator's definition of helper `f`: same name, parameters
/// and contracts, no schemas, and the same body.
pub open spec fn def_of(d: L3FunctionDef, f: FiniteDecisionFunction) -> bool {
    &&& d.name@ == f.name@
    &&& d.params@.len() == f.params@.len()
    &&& forall|j: int|
        0 <= j < f.params@.len() ==> (#[trigger] d.params@[j]).0@ == f.params@[j].name@ && d.params@[j].1
            == contract_schema(f.params@[j].contract)
    &&& d.ret_contract == contract_schema(f.ret_contract)
    &&& d.schemas.pairs().len() == 0
    &&& d.body@ == f.body@
}

/// The evaluator's definition of helper `f`.
pub fn helper_definition(f: &FiniteDecisionFunction) -> (d: L3FunctionDef)
    ensures
        def_of(d, *f),
{
    let mut params: Vec<(String, Option<L3SchemaType>)> = Vec::new();
    let mut j: usize = 0;
    while j < f.params.len()
        invariant
            j <= f.params@.len(),
            params@.len() == j,
            forall|k: int|
                0 <= k < j ==> (#[trigger] params@[k]).0@ == f.params@[k].name@ && params@[k].1 == contract_schema(
                    f.params@[k].contract,
                ),
        decreases f.params@.len() - j,
    {
        let c = contract_schema_of(&f.params[j].contract);
        params.push((f.params[j].name.clone(), c));
        j = j + 1;
    }
    L3FunctionDef {
        name: f.name.clone(),
        params,
        ret_contract: contract_schema_of(&f.ret_contract),
        schemas: Arc::new(KeyMap::new()),
        body: f.body.copy_expr(),
    }
}

/// Index of the last of the first `n` helpers named `k`.
pub open spec fn last_named(fs: Seq<FiniteDecisionFunction>, k: Seq<char>, n: nat) -> Option<int>
    decreases n,
{
    if n == 0 || n > fs.len() {
        None
    } else if fs[n - 1].name@ == k {
        Some(n - 1)
    } else {
        last_named(fs, k, (n - 1) as nat)
    }
}

/// `m` maps each helper name to the definition of the last helper declared
/// under it.
pub open spec fn defines_helpers(m: Seq<(Seq<char>, Arc<L3FunctionDef>)>, fs: Seq<FiniteDecisionFunction>, n: nat) -> bool {
    forall|k: Seq<char>|
        match #[trigger] last_named(fs, k, n) {
            None => assoc_get(m, k) is None,
            Some(i) => assoc_get(m, k) matches Some(d) && def_of(*d, fs[i]),
        }
}

/// The plan's helpers, by name, as the evaluator runs them.
pub fn helper_definitions(plan: &FiniteDecisionPlan) -> (m: KeyMap<Arc<L3FunctionDef>>)
    ensures
        defines_helpers(m.pairs(), plan.functions@, plan.functions@.len()),
{
    let ghost fs = plan.functions@;
    let mut m: KeyMap<Arc<L3FunctionDef>> = KeyMap::new();
    let mut i: usize = 0;
    while i < plan.functions.len()
        invariant
            i <= fs.len(),
            fs == plan.functions@,
            defines_helpers(m.pairs(), fs, i as nat),
        decreases fs.len() - i,
    {
        let f = &plan.functions[i];
        let d = Arc::new(helper_definition(f));
        m.ascending_now();
        let ghost before = m.pairs();
        m.insert(f.name.clone(), d);
        proof {
            assert forall|k: Seq<char>|
                #![trigger last_named(fs, k, (i + 1) as nat)]
                match last_named(fs, k, (i + 1) as nat) {
                    None => assoc_get(m.pairs(), k) is None,
                    Some(j) => assoc_get(m.pairs(), k) matches Some(e) && def_of(*e, fs[j]),
                } by {
                lemma_insert_get(before, f.name@, d, k);
                assert(last_named(fs, k, (i + 1) as nat) == if f.name@ == k {
                    Some(i as int)
                } else {
                    last_named(fs, k, i as nat)
                });
            }
        }
        i = i + 1;
    }
    m
}

/// `facts` are the derived facts `m`, each at grade `Derived`.
pub open spec fn facts_match(facts: Seq<DerivedFact>, m: Seq<FactEntry>) -> bool {
    &&& facts.len() == m.len()
    &&& forall|i: int|
        0 <= i < m.len() ==> {
            &&& (#[trigger] facts[i]).rule@ == m[i].0
            &&& facts[i].value@ == m[i].1
            &&& facts[i].ordinal == m[i].2
            &&& facts[i].grade == Grade::Derived
        }
}

/// Bind each input, in order, into a fresh environment holding `helpers`.
pub fn bind_environment(helpers: KeyMap<Arc<L3FunctionDef>>, inputs: &[BoundInput]) -> (env: EvalEnv)
    ensures
        env@ == input_env(helpers.pairs(), inputs@, inputs@.len()),
{
    let ghost hp = helpers.pairs();
    let mut env = EvalEnv::new().with_functions(helpers);
    proof {
        assert(env@.inputs =~= Seq::empty());
        assert(env@.lets =~= Seq::empty());
        assert(env@.facts =~= Seq::empty());
        assert(env@.locals =~= Seq::empty());
        assert(env@.schemas =~= Seq::empty());
        assert(env@ == (EnvModel { functions: hp, ..empty_env() }));
    }
    let mut i: usize = 0;
    while i < inputs.len()
        invariant
            i <= inputs@.len(),
            env@ == input_env(hp, inputs@, i as nat),
        decreases inputs@.len() - i,
    {
        let v = inputs[i].value.duplicate();
        env = env.with_input(inputs[i].name.as_str(), v);
        i = i + 1;
    }
    env
}

/// Evaluate the closed `let` bindings in order into `env`; the first that
/// faults stops with its name and fault.
#[verifier::loop_isolation(false)]
pub fn evaluate_lets(lets: &Vec<(String, L3ExprV2)>, env: EvalEnv) -> (r: Result<EvalEnv, (String, EvalFault)>)
    ensures
        match let_env(lets@, env@, lets@.len()) {
            Ok(e) => r matches Ok(x) && x@ == e,
            Err((name, f)) => r matches Err((n, g)) && n@ == name && g@ == f,
        },
{
    let ghost start = env@;
    let mut env = env;
    let mut i: usize = 0;
    while i < lets.len()
        invariant
            i <= lets@.len(),
            let_env(lets@, start, i as nat) == Ok::<EnvModel, (Seq<char>, FaultModel)>(env@),
        decreases lets@.len() - i,
    {
        match eval(&lets[i].1, &env) {
            Ok(v) => {
                env = env.with_let(lets[i].0.as_str(), v);
            },
            Err(f) => {
                proof {
                    assert(eval_result(lets@[i as int].1, env@) == Err::<ValueModel, FaultModel>(f@));
                    assert(let_env(lets@, start, (i + 1) as nat) == Err::<EnvModel, (Seq<char>, FaultModel)>(
                        (lets@[i as int].0@, f@),
                    ));
                    lemma_let_env_stops(lets@, start, (i + 1) as nat, lets@.len());
                }
                return Err((lets[i].0.clone(), f));
            },
        }
        i = i + 1;
    }
    Ok(env)
}

proof fn lemma_let_env_stops(lets: Seq<(String, L3ExprV2)>, env: EnvModel, k: nat, n: nat)
    requires
        k <= n <= lets.len(),
        let_env(lets, env, k) is Err,
    ensures
        let_env(lets, env, n) == let_env(lets, env, k),
    decreases n - k,
{
    if k < n {
        lemma_let_env_stops(lets, env, k, (n - 1) as nat);
    }
}

proof fn lemma_rule_pass_stops(rules: Seq<FiniteDecisionRule>, env: EnvModel, k: nat, n: nat)
    requires
        k <= n <= rules.len(),
        rule_pass(rules, env, k).2 is Some,
    ensures
        rule_pass(rules, env, n) == rule_pass(rules, env, k),
    decreases n - k,
{
    if k < n {
        lemma_rule_pass_stops(rules, env, k, (n - 1) as nat);
    }
}

/// Evaluate every rule in order, recording each fact as it is derived; the
/// first rule that faults stops the pass with its name and fault, and the
/// facts derived before it.
#[verifier::loop_isolation(false)]
pub fn derive_facts(rules: &Vec<FiniteDecisionRule>, env: EvalEnv) -> (r: (
    Vec<DerivedFact>,
    EvalEnv,
    Option<(String, EvalFault)>,
))
    ensures
        ({
            let (fs, e, stop) = rule_pass(rules@, env@, rules@.len());
            &&& facts_match(r.0@, fs)
            &&& r.1@ == e
            &&& match stop {
                None => r.2 is None,
                Some((name, f)) => r.2 matches Some((n, g)) && n@ == name && g@ == f,
            }
        }),
{
    let ghost start = env@;
    let mut env = env;
    let mut facts: Vec<DerivedFact> = Vec::new();
    let mut i: usize = 0;
    while i < rules.len()
        invariant
            i <= rules@.len(),
            rule_pass(rules@, start, i as nat).2 is None,
            rule_pass(rules@, start, i as nat).1 == env@,
            facts_match(facts@, rule_pass(rules@, start, i as nat).0),
        decreases rules@.len() - i,
    {
        let rule = &rules[i];
        match eval(&rule.body, &env) {
            Ok(v) => {
                let fact = DerivedFact {
                    rule: rule.name.clone(),
                    value: v.duplicate(),
                    ordinal: rule.ordinal,
                    grade: Grade::Derived,
                };
                facts.push(fact);
                env = env.with_fact(rule.name.as_str(), v);
            },
            Err(f) => {
                proof {
                    assert(eval_result(rule.body, env@) == Err::<ValueModel, FaultModel>(f@));
                    assert(rule_pass(rules@, start, (i + 1) as nat).2 == Some((rule.name@, f@)));
                    lemma_rule_pass_stops(rules@, start, (i + 1) as nat, rules@.len());
                }
                return (facts, env, Some((rule.name.clone(), f)));
            },
        }
        i = i + 1;
    }
    (facts, env, None)
}

/// Index of the first proposal named `name`, from the `i`-th on.
pub open spec fn proposal_index(props: Seq<FiniteDecisionProposal>, name: Seq<char>, i: nat) -> Option<int>
    decreases props.len() - i,
{
    if i >= props.len() {
        None
    } else if props[i as int].name@ == name {
        Some(i as int)
    } else {
        proposal_index(props, name, i + 1)
    }
}

proof fn lemma_proposal_found(props: Seq<FiniteDecisionProposal>, name: Seq<char>, s: nat, i: int)
    requires
        s <= i < props.len(),
        props[i].name@ == name,
        forall|j: int| s <= j < i ==> (#[trigger] props[j]).name@ != name,
    ensures
        proposal_index(props, name, s) == Some(i),
    decreases i - s,
{
    if s < i {
        lemma_proposal_found(props, name, s + 1, i);
    }
}

proof fn lemma_proposal_absent(props: Seq<FiniteDecisionProposal>, name: Seq<char>, s: nat)
    requires
        forall|j: int| s <= j < props.len() ==> (#[trigger] props[j]).name@ != name,
    ensures
        proposal_index(props, name, s) is None,
    decreases props.len() - s,
{
    if s < props.len() {
        lemma_proposal_absent(props, name, s + 1);
    }
}

/// Why a deliberation stopped before settling, as a model.
pub enum StopReason {
    Expression { context: Seq<char>, fault: FaultModel },
    Dependency { context: Seq<char>, detail: Seq<char> },
    Type { context: Seq<char>, detail: Seq<char> },
}

/// `r` is the reason `m` describes.
pub open spec fn reason_is(r: FiniteDecisionUnknownReason, m: StopReason) -> bool {
    match m {
        StopReason::Expression { context, fault } => r matches FiniteDecisionUnknownReason::ExpressionEvaluationFault {
            context: c,
            fault: f,
        } && c@ == context && f@ == fault,
        StopReason::Dependency { context, detail } => r matches FiniteDecisionUnknownReason::DependencyFault {
            context: c,
            detail: d,
        } && c@ == context && d@ == detail,
        StopReason::Type { context, detail } => r matches FiniteDecisionUnknownReason::TypeFault {
            context: c,
            detail: d,
        } && c@ == context && d@ == detail,
    }
}

/// Admitted candidates and candidate values.
pub type PoolModel = (Set<Seq<char>>, Seq<(Seq<char>, ValueModel)>);

/// Weigh candidate `cand`: its proposal's guard must evaluate to a boolean,
/// admitting the candidate when true, and its value is evaluated either way.
pub open spec fn weigh(plan: FiniteDecisionPlan, env: EnvModel, cand: Seq<char>, pool: PoolModel) -> Result<
    PoolModel,
    StopReason,
> {
    match proposal_index(plan.proposals@, cand, 0) {
        None => Err(
            StopReason::Dependency {
                context: "candidate proposal "@ + cand,
                detail: "proposal missing from plan"@,
            },
        ),
        Some(k) => {
            let p = plan.proposals@[k];
            let guard_context = "proposal "@ + p.name@ + " guard"@;
            match eval_result(p.guard, env) {
                Err(f) => Err(StopReason::Expression { context: guard_context, fault: f }),
                Ok(ValueModel::Bool(b)) => match eval_result(p.value, env) {
                    Err(f) => Err(StopReason::Expression { context: "proposal "@ + p.name@ + " value"@, fault: f }),
                    Ok(v) => Ok(
                        (
                            if b {
                                pool.0.insert(cand)
                            } else {
                                pool.0
                            },
                            pool.1.push((cand, v)),
                        ),
                    ),
                },
                Ok(g) => Err(
                    StopReason::Type {
                        context: guard_context,
                        detail: "guard must evaluate to Bool, found "@ + model_type_text(g),
                    },
                ),
            }
        },
    }
}

/// The pool after weighing the first `n` commit candidates in order.
pub open spec fn pool_spec(plan: FiniteDecisionPlan, env: EnvModel, n: nat) -> Result<PoolModel, StopReason>
    decreases n,
{
    if n == 0 || n > plan.commit.candidates@.len() {
        Ok((Set::empty(), Seq::empty()))
    } else {
        match pool_spec(plan, env, (n - 1) as nat) {
            Err(s) => Err(s),
            Ok(pool) => weigh(plan, env, plan.commit.candidates@[n - 1]@, pool),
        }
    }
}

/// `v` holds the named values `m`.
pub open spec fn values_match(v: Seq<(String, L3ValueV2)>, m: Seq<(Seq<char>, ValueModel)>) -> bool {
    &&& v.len() == m.len()
    &&& forall|i: int| 0 <= i < m.len() ==> (#[trigger] v[i]).0@ == m[i].0 && v[i].1@ == m[i].1
}

proof fn lemma_pool_stops(plan: FiniteDecisionPlan, env: EnvModel, k: nat, n: nat)
    requires
        k <= n <= plan.commit.candidates@.len(),
        pool_spec(plan, env, k) is Err,
    ensures
        pool_spec(plan, env, n) == pool_spec(plan, env, k),
    decreases n - k,
{
    if k < n {
        lemma_pool_stops(plan, env, k, (n - 1) as nat);
    }
}

/// Weigh each commit candidate's proposal in order under `env`: the set of
/// admitted candidates and each candidate's value, or the reason the first
/// failing candidate stops the deliberation.
#[verifier::loop_isolation(false)]
pub fn weigh_proposals(plan: &FiniteDecisionPlan, env: &EvalEnv) -> (r: Result<
    (KeyMap<()>, Vec<(String, L3ValueV2)>),
    FiniteDecisionUnknownReason,
>)
    ensures
        match pool_spec(*plan, env@, plan.commit.candidates@.len()) {
            Ok((adm, vals)) => r matches Ok((a, v)) && names_of(a) == adm && values_match(v@, vals),
            Err(m) => r matches Err(x) && reason_is(x, m),
        },
{
    let ghost props = plan.proposals@;
    let mut admitted: KeyMap<()> = KeyMap::new();
    let mut values: Vec<(String, L3ValueV2)> = Vec::new();
    proof {
        assert(names_of(admitted) =~= Set::<Seq<char>>::empty());
    }
    let mut i: usize = 0;
    while i < plan.commit.candidates.len()
        invariant
            i <= plan.commit.candidates@.len(),
            pool_spec(*plan, env@, i as nat) matches Ok((adm, vals)) && names_of(admitted) == adm
                && values_match(values@, vals),
        decreases plan.commit.candidates@.len() - i,
    {
        let cand = &plan.commit.candidates[i];
        let ghost pool = pool_spec(*plan, env@, i as nat)->Ok_0;
        match plan.find_proposal(cand.as_str()) {
            None => {
                proof {
                    lemma_proposal_absent(props, cand@, 0);
                    lemma_pool_stops(*plan, env@, (i + 1) as nat, plan.commit.candidates@.len());
                }
                return Err(
                    FiniteDecisionUnknownReason::DependencyFault {
                        context: join2("candidate proposal ", cand.as_str()),
                        detail: owned("proposal missing from plan"),
                    },
                );
            },
            Some(p) => {
                proof {
                    let k = choose|k: int|
                        0 <= k < props.len() && props[k] == *p && p.name@ == cand@ && forall|j: int|
                            0 <= j < k ==> (#[trigger] props[j]).name@ != cand@;
                    lemma_proposal_found(props, cand@, 0, k);
                }
                match eval(&p.guard, env) {
                    Err(f) => {
                        proof {
                            lemma_pool_stops(*plan, env@, (i + 1) as nat, plan.commit.candidates@.len());
                        }
                        return Err(
                            FiniteDecisionUnknownReason::ExpressionEvaluationFault {
                                context: join3("proposal ", p.name.as_str(), " guard"),
                                fault: f,
                            },
                        );
                    },
                    Ok(L3ValueV2::Bool(b)) => {
                        match eval(&p.value, env) {
                            Err(f) => {
                                proof {
                                    lemma_pool_stops(*plan, env@, (i + 1) as nat, plan.commit.candidates@.len());
                                }
                                return Err(
                                    FiniteDecisionUnknownReason::ExpressionEvaluationFault {
                                        context: join3("proposal ", p.name.as_str(), " value"),
                                        fault: f,
                                    },
                                );
                            },
                            Ok(v) => {
                                if b {
                                    note_name(&mut admitted, cand);
                                }
                                values.push((cand.clone(), v));
                            },
                        }
                    },
                    Ok(other) => {
                        let found = type_of_value(&other).to_display_string();
                        proof {
                            lemma_pool_stops(*plan, env@, (i + 1) as nat, plan.commit.candidates@.len());
                        }
                        return Err(
                            FiniteDecisionUnknownReason::TypeFault {
                                context: join3("proposal ", p.name.as_str(), " guard"),
                                detail: join2("guard must evaluate to Bool, found ", found.as_str()),
                            },
                        );
                    },
                }
            },
        }
        i = i + 1;
    }
    Ok((admitted, values))
}

/// Two values have the same type category: the same primitive, or sums or
/// records of the same name.
pub open spec fn same_type(a: ValueModel, b: ValueModel) -> bool {
    match a {
        ValueModel::Int(_) => b is Int,
        ValueModel::Str(_) => b is Str,
        ValueModel::Bool(_) => b is Bool,
        ValueModel::Ctor { nominal_sum, .. } => b matches ValueModel::Ctor { nominal_sum: s, .. } && s == nominal_sum,
        ValueModel::Record { nominal_config, .. } => b matches ValueModel::Record { nominal_config: c, .. } && c
            == nominal_config,
    }
}

/// Whether two values have the same type category.
pub fn same_value_type(a: &L3ValueV2, b: &L3ValueV2) -> (r: bool)
    ensures
        r == same_type(a@, b@),
{
    match (a, b) {
        (L3ValueV2::Int(_), L3ValueV2::Int(_)) => true,
        (L3ValueV2::Str(_), L3ValueV2::Str(_)) => true,
        (L3ValueV2::Bool(_), L3ValueV2::Bool(_)) => true,
        (L3ValueV2::Ctor { nominal_sum: x, .. }, L3ValueV2::Ctor { nominal_sum: y, .. }) => same_text(
            x.as_str(),
            y.as_str(),
        ),
        (L3ValueV2::Record { nominal_config: x, .. }, L3ValueV2::Record { nominal_config: y, .. }) => same_text(
            x.as_str(),
            y.as_str(),
        ),
        _ => false,
    }
}

/// Index of the first value, from the `i`-th on, whose type differs from
/// the first value's.
pub open spec fn first_mismatch(vals: Seq<(Seq<char>, ValueModel)>, i: nat) -> Option<int>
    decreases vals.len() - i,
{
    if i >= vals.len() {
        None
    } else if !same_type(vals[i as int].1, vals[0].1) {
        Some(i as int)
    } else {
        first_mismatch(vals, i + 1)
    }
}

/// All candidate values must share one type; the first that differs from
/// the first candidate's is refused.
pub open spec fn value_types_spec(vals: Seq<(Seq<char>, ValueModel)>) -> Result<(), StopReason> {
    if vals.len() <= 1 {
        Ok(())
    } else {
        match first_mismatch(vals, 1) {
            None => Ok(()),
            Some(k) => Err(
                StopReason::Type {
                    context: "proposal values"@,
                    detail: "proposal '"@ + vals[k].0 + "' value type "@ + model_type_text(vals[k].1)
                        + " does not match expected "@ + model_type_text(vals[0].1),
                },
            ),
        }
    }
}

/// Check that all candidate values share one type.
pub fn check_value_types(vals: &Vec<(String, L3ValueV2)>) -> (r: Result<(), FiniteDecisionUnknownReason>)
    ensures
        match value_types_spec(vals@.map_values(|p: (String, L3ValueV2)| (p.0@, p.1@))) {
            Ok(()) => r is Ok,
            Err(m) => r matches Err(x) && reason_is(x, m),
        },
{
    let ghost m = vals@.map_values(|p: (String, L3ValueV2)| (p.0@, p.1@));
    if vals.len() <= 1 {
        return Ok(());
    }
    let mut i: usize = 1;
    while i < vals.len()
        invariant
            1 <= i <= vals@.len(),
            m == vals@.map_values(|p: (String, L3ValueV2)| (p.0@, p.1@)),
            first_mismatch(m, i as nat) == first_mismatch(m, 1),
        decreases vals@.len() - i,
    {
        if !same_value_type(&vals[i].1, &vals[0].1) {
            let expected = type_of_value(&vals[0].1).to_display_string();
            let actual = type_of_value(&vals[i].1).to_display_string();
            let head = join3("proposal '", vals[i].0.as_str(), "' value type ");
            let middle = join3(head.as_str(), actual.as_str(), " does not match expected ");
            let detail = join2(middle.as_str(), expected.as_str());
            return Err(FiniteDecisionUnknownReason::TypeFault { context: owned("proposal values"), detail });
        }
        i = i + 1;
    }
    Ok(())
}

/// What a deliberation evaluates before settling: the derived facts, and
/// the admitted candidates with every candidate's value, or the reason it
/// stops. Inputs bind first, then `let`s, then rules, then the pool.
pub open spec fn deliberation_spec(
    plan: FiniteDecisionPlan,
    inputs: Seq<BoundInput>,
    helpers: Seq<(Seq<char>, Arc<L3FunctionDef>)>,
) -> (
    Seq<FactEntry>,
    Result<PoolModel, StopReason>,
) {
    match let_env(plan.lets@, input_env(helpers, inputs, inputs.len()), plan.lets@.len()) {
        Err((name, f)) => (Seq::empty(), Err(StopReason::Expression { context: "let "@ + name, fault: f })),
        Ok(env1) => {
            let (fs, env2, stop) = rule_pass(plan.rules@, env1, plan.rules@.len());
            match stop {
                Some((name, f)) => (fs, Err(StopReason::Expression { context: "rule "@ + name, fault: f })),
                None => match pool_spec(plan, env2, plan.commit.candidates@.len()) {
                    Err(m) => (fs, Err(m)),
                    Ok(pool) => match value_types_spec(pool.1) {
                        Err(m) => (fs, Err(m)),
                        Ok(()) => (fs, Ok(pool)),
                    },
                },
            }
        },
    }
}

/// The evaluated commit pool, ready for the frontier.
pub struct CandidatePool {
    pub facts: Vec<DerivedFact>,
    pub admitted: KeyMap<()>,
    pub values: Vec<(String, L3ValueV2)>,
}

/// A deliberation that stopped before settling: the facts derived so far
/// and why it stopped.
pub struct DeliberationStop {
    pub facts: Vec<DerivedFact>,
    pub reason: FiniteDecisionUnknownReason,
}

/// Evaluate a deliberation up to its frontier with the plan's helpers
/// `helpers` in scope: bind `inputs`, evaluate the `let`s and every rule,
/// weigh each commit candidate's proposal, and check that the candidate
/// values share one type.
pub fn evaluate_candidate_pool(
    plan: &FiniteDecisionPlan,
    inputs: &[BoundInput],
    helpers: KeyMap<Arc<L3FunctionDef>>,
) -> (r: Result<
    CandidatePool,
    DeliberationStop,
>)
    ensures
        ({
            let (fs, out) = deliberation_spec(*plan, inputs@, helpers.pairs());
            match out {
                Ok((adm, vals)) => r matches Ok(p) && facts_match(p.facts@, fs) && names_of(p.admitted) == adm
                    && values_match(p.values@, vals),
                Err(m) => r matches Err(s) && facts_match(s.facts@, fs) && reason_is(s.reason, m),
            }
        }),
{
    let env = bind_environment(helpers, inputs);
    let env = match evaluate_lets(&plan.lets, env) {
        Ok(e) => e,
        Err((name, fault)) => {
            let context = join2("let ", name.as_str());
            return Err(
                DeliberationStop {
                    facts: Vec::new(),
                    reason: FiniteDecisionUnknownReason::ExpressionEvaluationFault { context, fault },
                },
            );
        },
    };
    let (facts, env, stop) = derive_facts(&plan.rules, env);
    match stop {
        Some((name, fault)) => {
            let context = join2("rule ", name.as_str());
            return Err(
                DeliberationStop {
                    facts,
                    reason: FiniteDecisionUnknownReason::ExpressionEvaluationFault { context, fault },
                },
            );
        },
        None => {},
    }
    match weigh_proposals(plan, &env) {
        Err(reason) => Err(DeliberationStop { facts, reason }),
        Ok((admitted, values)) => {
            proof {
                let vals = pool_spec(*plan, env@, plan.commit.candidates@.len())->Ok_0.1;
                assert(values@.map_values(|p: (String, L3ValueV2)| (p.0@, p.1@)) =~= vals);
            }
            match check_value_types(&values) {
                Err(reason) => Err(DeliberationStop { facts, reason }),
                Ok(()) => Ok(CandidatePool { facts, admitted, values }),
            }
        },
    }
}

/// The environment after recording the first `n` facts, in order.
pub open spec fn fact_env(facts: Seq<DerivedFact>, env: EnvModel, n: nat) -> EnvModel
    decreases n,
{
    if n == 0 || n > facts.len() {
        env
    } else {
        let e = fact_env(facts, env, (n - 1) as nat);
        EnvModel { facts: insert_pairs(e.facts, facts[n - 1].rule@, facts[n - 1].value@), ..e }
    }
}

/// The values of the first `n` expressions, each evaluated in order, or the
/// index and fault of the first that faults.
pub open spec fn shows_spec(shows: Seq<L3ExprV2>, env: EnvModel, n: nat) -> Result<Seq<ValueModel>, (nat, FaultModel)>
    decreases n,
{
    if n == 0 || n > shows.len() {
        Ok(Seq::empty())
    } else {
        match shows_spec(shows, env, (n - 1) as nat) {
            Err(x) => Err(x),
            Ok(vs) => match eval_result(shows[n - 1], env) {
                Ok(v) => Ok(vs.push(v)),
                Err(f) => Err(((n - 1) as nat, f)),
            },
        }
    }
}

/// The values of a plan's `show` expressions after a run that derived
/// `facts`: inputs, then `let`s, then the facts, then each `show` in order.
pub open spec fn show_values_spec(
    plan: FiniteDecisionPlan,
    inputs: Seq<BoundInput>,
    facts: Seq<DerivedFact>,
    helpers: Seq<(Seq<char>, Arc<L3FunctionDef>)>,
) -> Result<
    Seq<ValueModel>,
    StopReason,
> {
    match let_env(plan.lets@, input_env(helpers, inputs, inputs.len()), plan.lets@.len()) {
        Err((name, f)) => Err(StopReason::Expression { context: "let "@ + name, fault: f }),
        Ok(env1) => match shows_spec(plan.shows@, fact_env(facts, env1, facts.len()), plan.shows@.len()) {
            Ok(vs) => Ok(vs),
            Err((idx, f)) => Err(StopReason::Expression { context: "show["@ + decimal(idx) + "]"@, fault: f }),
        },
    }
}

proof fn lemma_shows_stop(shows: Seq<L3ExprV2>, env: EnvModel, k: nat, n: nat)
    requires
        k <= n <= shows.len(),
        shows_spec(shows, env, k) is Err,
    ensures
        shows_spec(shows, env, n) == shows_spec(shows, env, k),
    decreases n - k,
{
    if k < n {
        lemma_shows_stop(shows, env, k, (n - 1) as nat);
    }
}

/// Evaluate a plan's `show` expressions, with the plan's helpers `helpers`
/// in scope, after a run that derived `facts`.
#[verifier::loop_isolation(false)]
pub fn evaluate_show_values(
    plan: &FiniteDecisionPlan,
    inputs: &[BoundInput],
    facts: &[DerivedFact],
    helpers: KeyMap<Arc<L3FunctionDef>>,
) -> (r: Result<
    Vec<L3ValueV2>,
    FiniteDecisionUnknownReason,
>)
    ensures
        match show_values_spec(*plan, inputs@, facts@, helpers.pairs()) {
            Ok(vs) => r matches Ok(v) && v@.len() == vs.len() && forall|i: int| 0 <= i < vs.len() ==> (#[trigger] v@[i])@
                == vs[i],
            Err(m) => r matches Err(x) && reason_is(x, m),
        },
{
    let env = bind_environment(helpers, inputs);
    let mut env = match evaluate_lets(&plan.lets, env) {
        Ok(e) => e,
        Err((name, fault)) => {
            let context = join2("let ", name.as_str());
            return Err(FiniteDecisionUnknownReason::ExpressionEvaluationFault { context, fault });
        },
    };
    let ghost env1 = env@;
    let mut j: usize = 0;
    while j < facts.len()
        invariant
            j <= facts@.len(),
            env@ == fact_env(facts@, env1, j as nat),
        decreases facts@.len() - j,
    {
        env = env.with_fact(facts[j].rule.as_str(), facts[j].value.duplicate());
        j = j + 1;
    }
    let mut out: Vec<L3ValueV2> = Vec::new();
    let mut i: usize = 0;
    while i < plan.shows.len()
        invariant
            i <= plan.shows@.len(),
            env@ == fact_env(facts@, env1, facts@.len()),
            shows_spec(plan.shows@, env@, i as nat) matches Ok(vs) && out@.len() == vs.len() && forall|k: int|
                0 <= k < vs.len() ==> (#[trigger] out@[k])@ == vs[k],
        decreases plan.shows@.len() - i,
    {
        match eval(&plan.shows[i], &env) {
            Ok(v) => {
                out.push(v);
            },
            Err(fault) => {
                proof {
                    lemma_shows_stop(plan.shows@, env@, (i + 1) as nat, plan.shows@.len());
                }
                let n = usize_text(i);
                let context = join3("show[", n.as_str(), "]");
                return Err(FiniteDecisionUnknownReason::ExpressionEvaluationFault { context, fault });
            },
        }
        i = i + 1;
    }
    Ok(out)
}

/// `bound` are the declared inputs, in order, each with its supplied value.
pub open spec fn bound_match(
    bound: Seq<BoundInput>,
    decls: Seq<FiniteDecisionInput>,
    values: Seq<(Seq<char>, ScalarModel)>,
) -> bool {
    &&& bound.len() == decls.len()
    &&& forall|i: int|
        0 <= i < decls.len() ==> {
            &&& (#[trigger] bound[i]).ordinal == decls[i].ordinal
            &&& bound[i].name@ == decls[i].name@
            &&& bound[i].ty == decls[i].ty
            &&& assoc_get(values, decls[i].name@) matches Some(s) && bound[i].value@ == scalar_value(s)
            &&& bound[i].grade == Grade::Derived
        }
}

proof fn lemma_met_supplied(values: Seq<(Seq<char>, ScalarModel)>, decls: Seq<FiniteDecisionInput>, i: nat, j: int)
    requires
        declarations_met(values, decls, i) is Ok,
        i <= j < decls.len(),
    ensures
        assoc_get(values, decls[j].name@) is Some,
    decreases j - i,
{
    if i < j {
        lemma_met_supplied(values, decls, i + 1, j);
    }
}

/// Bind a plan's declared inputs from `snapshot`: the snapshot must fulfil
/// the declarations, and every commit candidate must name a proposal.
pub fn bind_inputs(plan: &FiniteDecisionPlan, snapshot: &InputSnapshot) -> (r: Result<
    Vec<BoundInput>,
    FiniteDecisionBuildError,
>)
    ensures
        match declarations_complete(snapshot@.values, plan.inputs@) {
            Err(f) => r matches Err(FiniteDecisionBuildError::InputValidation(e)) && e@ == f,
            Ok(()) => match unknown_candidate(plan.commit.candidates@, plan.proposals@, 0) {
                Some(c) => r matches Err(FiniteDecisionBuildError::MissingProposal { candidate }) && candidate@ == c,
                None => r matches Ok(b) && bound_match(b@, plan.inputs@, snapshot@.values),
            },
        },
{
    match snapshot.validate_completeness(plan) {
        Err(e) => {
            return Err(FiniteDecisionBuildError::InputValidation(e));
        },
        Ok(()) => {},
    }
    match plan.check_commit_candidates() {
        Err(FiniteDecisionLowerError::UnknownCandidateInCommit { candidate, .. }) => {
            return Err(FiniteDecisionBuildError::MissingProposal { candidate });
        },
        _ => {},
    }
    let ghost values = snapshot@.values;
    let mut bound: Vec<BoundInput> = Vec::new();
    let mut i: usize = 0;
    while i < plan.inputs.len()
        invariant
            i <= plan.inputs@.len(),
            values == snapshot@.values,
            declarations_met(values, plan.inputs@, 0) is Ok,
            bound@.len() == i,
            forall|k: int|
                0 <= k < i ==> {
                    &&& (#[trigger] bound@[k]).ordinal == plan.inputs@[k].ordinal
                    &&& bound@[k].name@ == plan.inputs@[k].name@
                    &&& bound@[k].ty == plan.inputs@[k].ty
                    &&& assoc_get(values, plan.inputs@[k].name@) matches Some(s) && bound@[k].value@ == scalar_value(s)
                    &&& bound@[k].grade == Grade::Derived
                },
        decreases plan.inputs@.len() - i,
    {
        let decl = &plan.inputs[i];
        proof {
            lemma_met_supplied(values, plan.inputs@, 0, i as int);
        }
        match snapshot.get(decl.name.as_str()) {
            None => {
                return Err(
                    FiniteDecisionBuildError::InputValidation(
                        InputValidationError::MissingInput { name: decl.name.clone(), declared: copy_value_type(&decl.ty) },
                    ),
                );
            },
            Some(v) => {
                bound.push(
                    BoundInput {
                        ordinal: decl.ordinal,
                        name: decl.name.clone(),
                        ty: copy_value_type(&decl.ty),
                        value: v.to_l3_value(),
                        grade: Grade::Derived,
                    },
                );
            },
        }
        i = i + 1;
    }
    Ok(bound)
}

} // verus!
