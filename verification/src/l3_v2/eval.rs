//! The v2 evaluator: big-step, left to right, with checked arithmetic and,
//! when helper functions or schemas are in scope, a resource budget.
use std::sync::Arc;
use vstd::prelude::*;

use crate::keymap::{
    assoc_get, assoc_index, insert_pairs, insert_point, key_lt, keys_ascending, lemma_assoc_index,
    share_all, KeyMap,
};
use crate::l3_v2::budget::{sat, unit_model, EvalBudget};
use crate::l3_v2::schema::validate_l3_value;
use crate::l3_v2::{
    fields_model, lemma_ctor_view, lemma_fields_model, lemma_values_model, opt_text,
    type_of_value, values_model, ArithOpV2, CmpOpV2, EvalFault, L3ExprV2, L3FunctionDef,
    L3PatternV2, L3Schema, L3SchemaType, L3ValueV2, ValueModel,
};
use crate::l3_v2::semantics::{
    arm_index, bind_params, bind_spec, body_spec, call_spec, charge, charge_entries, ctor_spec,
    entry_slot, eval_fields_spec, eval_list_spec, eval_result, eval_spec, field_spec, fuel,
    match_spec, may_descend, outcome, param_contracts, param_name_bytes, record_spec, relation_spec,
    reserve, arith_expr_spec, arg_exprs, binding, field_exprs, scrutinee_shape, violation,
    EnvModel,
};
use crate::text::owned;

verus! {


/// The bindings an evaluation runs under: external inputs, prior `let`
/// values, the facts earlier rules have committed, match-bound locals,
/// helper functions, and schemas.
#[derive(Clone, Debug)]
pub struct EvalEnv {
    inputs: KeyMap<L3ValueV2>,
    lets: KeyMap<L3ValueV2>,
    facts: KeyMap<L3ValueV2>,
    locals: KeyMap<L3ValueV2>,
    functions: KeyMap<Arc<L3FunctionDef>>,
    schemas: Arc<KeyMap<L3Schema>>,
}

/// Models of the entries of a value map.
pub open spec fn entries_model(s: Seq<(Seq<char>, L3ValueV2)>) -> Seq<(Seq<char>, ValueModel)> {
    s.map_values(|p: (Seq<char>, L3ValueV2)| (p.0, p.1@))
}

impl View for EvalEnv {
    type V = EnvModel;

    closed spec fn view(&self) -> EnvModel {
        EnvModel {
            inputs: entries_model(self.inputs.pairs()),
            lets: entries_model(self.lets.pairs()),
            facts: entries_model(self.facts.pairs()),
            locals: entries_model(self.locals.pairs()),
            functions: self.functions.pairs(),
            schemas: self.schemas.pairs(),
        }
    }
}

proof fn lemma_insert_point_model(s: Seq<(Seq<char>, L3ValueV2)>, k: Seq<char>)
    ensures
        insert_point(entries_model(s), k) == insert_point(s, k),
    decreases s.len(),
{
    if s.len() > 0 {
        assert(entries_model(s).drop_first() =~= entries_model(s.drop_first()));
        lemma_insert_point_model(s.drop_first(), k);
    }
}

proof fn lemma_insert_model(s: Seq<(Seq<char>, L3ValueV2)>, k: Seq<char>, v: L3ValueV2)
    ensures
        entries_model(insert_pairs(s, k, v)) == insert_pairs(entries_model(s), k, v@),
{
    lemma_insert_point_model(s, k);
    lemma_insert_point_bounds(s, k);
    let i = insert_point(s, k);
    let em = entries_model(s);
    assert(em.len() == s.len());
    let lhs = entries_model(insert_pairs(s, k, v));
    let rhs = insert_pairs(entries_model(s), k, v@);
    if 0 <= i < s.len() {
        assert(em[i].0 == s[i].0);
    }
    if i < s.len() && s[i].0 == k {
        assert(rhs == em.update(i, (k, v@)));
        assert(lhs.len() == rhs.len());
        assert forall|j: int| 0 <= j < lhs.len() implies lhs[j] == rhs[j] by {
            if j == i {
                assert(s.update(i, (k, v))[j] == (k, v));
            } else {
                assert(s.update(i, (k, v))[j] == s[j]);
            }
        }
        assert(lhs =~= rhs);
    } else {
        assert(0 <= i <= s.len()) by {
            lemma_insert_point_bounds(s, k);
        }
        let ins = s.insert(i, (k, v));
        assert(lhs.len() == rhs.len());
        assert forall|j: int| 0 <= j < lhs.len() implies lhs[j] == rhs[j] by {
            if j < i {
                assert(ins[j] == s[j]);
            } else if j == i {
                assert(ins[j] == (k, v));
            } else {
                assert(ins[j] == s[j - 1]);
            }
        }
        assert(lhs =~= rhs);
    }
}

proof fn lemma_insert_point_bounds<V>(s: Seq<(Seq<char>, V)>, k: Seq<char>)
    ensures
        0 <= insert_point(s, k) <= s.len(),
    decreases s.len(),
{
    if s.len() > 0 {
        lemma_insert_point_bounds(s.drop_first(), k);
    }
}

proof fn lemma_entries_len(s: Seq<(Seq<char>, L3ValueV2)>)
    ensures
        entries_model(s).len() == s.len(),
        forall|j: int| 0 <= j < s.len() ==> #[trigger] entries_model(s)[j] == (s[j].0, s[j].1@),
{
}

proof fn lemma_get_model(s: Seq<(Seq<char>, L3ValueV2)>, k: Seq<char>)
    ensures
        assoc_get(entries_model(s), k) == (match assoc_get(s, k) {
            Some(v) => Some(v@),
            None => None,
        }),
    decreases s.len(),
{
    if s.len() > 0 {
        assert(entries_model(s).drop_first() =~= entries_model(s.drop_first()));
        lemma_get_model(s.drop_first(), k);
    }
}

/// Copy of a value map with model-equal values.
fn copy_values(m: &KeyMap<L3ValueV2>) -> (r: KeyMap<L3ValueV2>)
    ensures
        entries_model(r.pairs()) == entries_model(m.pairs()),
{
    m.ascending_now();
    let mut r: KeyMap<L3ValueV2> = KeyMap::new();
    let mut i: usize = 0;
    while i < m.len()
        invariant
            i <= m.pairs().len(),
            keys_ascending(m.pairs()),
            r.pairs().len() == i,
            forall|j: int| 0 <= j < i ==> (#[trigger] r.pairs()[j]).0 == m.pairs()[j].0 && r.pairs()[j].1@
                == m.pairs()[j].1@,
        decreases m.pairs().len() - i,
    {
        let k = m.key_at(i).clone();
        let v = m.value_at(i).duplicate();
        proof {
            if i > 0 {
                assert(r.pairs().last().0 == m.pairs()[i - 1].0);
            }
        }
        r.push_last(k, v);
        i = i + 1;
    }
    proof {
        assert(entries_model(r.pairs()) =~= entries_model(m.pairs()));
    }
    r
}

impl Default for EvalEnv {
    fn default() -> (env: Self)
        ensures
            env@ == crate::l3_v2::building::empty_env(),
    {
        EvalEnv::new()
    }
}

impl EvalEnv {
    /// An environment with nothing bound.
    pub fn new() -> (env: EvalEnv)
        ensures
            env@.inputs.len() == 0,
            env@.lets.len() == 0,
            env@.facts.len() == 0,
            env@.locals.len() == 0,
            env@.functions.len() == 0,
            env@.schemas.len() == 0,
            env@ == crate::l3_v2::building::empty_env(),
    {
        let env = EvalEnv {
            inputs: KeyMap::new(),
            lets: KeyMap::new(),
            facts: KeyMap::new(),
            locals: KeyMap::new(),
            functions: KeyMap::new(),
            schemas: Arc::new(KeyMap::new()),
        };
        proof {
            assert(env@.inputs =~= Seq::empty());
            assert(env@.lets =~= Seq::empty());
            assert(env@.facts =~= Seq::empty());
            assert(env@.locals =~= Seq::empty());
            assert(env@.functions =~= Seq::empty());
            assert(env@.schemas =~= Seq::empty());
        }
        env
    }

    /// Bind an external input.
    pub fn with_input(self, name: &str, v: L3ValueV2) -> (env: EvalEnv)
        ensures
            env@ == (EnvModel { inputs: insert_pairs(self@.inputs, name@, v@), ..self@ }),
    {
        let mut env = self;
        let ghost before = env.inputs.pairs();
        env.inputs.insert(owned(name), v);
        proof {
            lemma_insert_model(before, name@, v);
        }
        env
    }

    /// Bind a closed `let` value.
    pub fn with_let(self, name: &str, v: L3ValueV2) -> (env: EvalEnv)
        ensures
            env@ == (EnvModel { lets: insert_pairs(self@.lets, name@, v@), ..self@ }),
    {
        let mut env = self;
        let ghost before = env.lets.pairs();
        env.lets.insert(owned(name), v);
        proof {
            lemma_insert_model(before, name@, v);
        }
        env
    }

    /// Record the committed fact of `rule`.
    pub fn with_fact(self, rule: &str, v: L3ValueV2) -> (env: EvalEnv)
        ensures
            env@ == (EnvModel { facts: insert_pairs(self@.facts, rule@, v@), ..self@ }),
    {
        let mut env = self;
        let ghost before = env.facts.pairs();
        env.facts.insert(owned(rule), v);
        proof {
            lemma_insert_model(before, rule@, v);
        }
        env
    }

    /// Register a helper function.
    pub fn with_function(self, name: &str, def: L3FunctionDef) -> (env: EvalEnv)
        ensures
            env@ == (EnvModel {
                functions: insert_pairs(self@.functions, name@, Arc::new(def)),
                ..self@
            }),
    {
        let mut env = self;
        env.functions.insert(owned(name), Arc::new(def));
        env
    }

    /// Replace the helper function table.
    pub fn with_functions(self, functions: KeyMap<Arc<L3FunctionDef>>) -> (env: EvalEnv)
        ensures
            env@ == (EnvModel { functions: functions.pairs(), ..self@ }),
    {
        let mut env = self;
        env.functions = functions;
        env
    }

    /// Replace the schema table.
    pub fn with_schemas(self, schemas: Arc<KeyMap<L3Schema>>) -> (env: EvalEnv)
        ensures
            env@ == (EnvModel { schemas: schemas.pairs(), ..self@ }),
    {
        let mut env = self;
        env.schemas = schemas;
        env
    }

    /// Bound external inputs.
    pub fn inputs(&self) -> (m: &KeyMap<L3ValueV2>)
        ensures
            entries_model(m.pairs()) == self@.inputs,
    {
        &self.inputs
    }

    /// Registered helper functions.
    pub fn functions(&self) -> (m: &KeyMap<Arc<L3FunctionDef>>)
        ensures
            m.pairs() == self@.functions,
    {
        &self.functions
    }

    /// Schema table.
    pub fn schemas(&self) -> (m: &Arc<KeyMap<L3Schema>>)
        ensures
            m.pairs() == self@.schemas,
    {
        &self.schemas
    }

    /// Whether every rule in `deps` has committed a fact.
    pub fn satisfies(&self, deps: &[String]) -> (b: bool)
        ensures
            b == (forall|i: int| 0 <= i < deps@.len() ==> assoc_get(#[trigger] self@.facts, deps@[i]@) is Some),
    {
        let mut i: usize = 0;
        while i < deps.len()
            invariant
                i <= deps@.len(),
                forall|j: int| 0 <= j < i ==> assoc_get(#[trigger] self@.facts, deps@[j]@) is Some,
            decreases deps@.len() - i,
        {
            let present = self.facts.contains_key(deps[i].as_str());
            proof {
                lemma_get_model(self.facts.pairs(), deps@[i as int]@);
            }
            if !present {
                return false;
            }
            i = i + 1;
        }
        true
    }

    /// The value `name` is bound to: a local, then a `let`, then an input.
    fn lookup_binding(&self, name: &str) -> (r: Option<&L3ValueV2>)
        ensures
            binding(self@, name@) == (match r {
                Some(v) => Some(v@),
                None => None,
            }),
    {
        proof {
            lemma_get_model(self.locals.pairs(), name@);
            lemma_get_model(self.lets.pairs(), name@);
            lemma_get_model(self.inputs.pairs(), name@);
        }
        match self.locals.get(name) {
            Some(v) => Some(v),
            None => match self.lets.get(name) {
                Some(v) => Some(v),
                None => self.inputs.get(name),
            },
        }
    }

    /// Bind a match-local value.
    fn bind_local(&mut self, name: String, v: L3ValueV2)
        ensures
            final(self)@ == (EnvModel { locals: insert_pairs(old(self)@.locals, name@, v@), ..old(self)@ }),
    {
        let ghost before = self.locals.pairs();
        self.locals.insert(name, v);
        proof {
            lemma_insert_model(before, name@, v);
        }
    }

    /// A copy of this environment with model-equal contents.
    fn duplicate(&self) -> (env: EvalEnv)
        ensures
            env@ == self@,
    {
        EvalEnv {
            inputs: copy_values(&self.inputs),
            lets: copy_values(&self.lets),
            facts: copy_values(&self.facts),
            locals: copy_values(&self.locals),
            functions: share_all(&self.functions),
            schemas: self.schemas.clone(),
        }
    }
}



/// Model of the name of the helper being evaluated, if any.
pub open spec fn label(func: Option<&str>) -> Option<Seq<char>> {
    match func {
        Some(s) => Some(s@),
        None => None,
    }
}

/// An evaluation may start: a budget is well formed, and without one no
/// helper function is in scope.
pub open spec fn ready(b: Option<EvalBudget>, env: EnvModel) -> bool {
    match b {
        Some(x) => x.wf(),
        None => env.functions.len() == 0,
    }
}

/// What an evaluation step leaves of a budget: the same limits, no fewer
/// steps, the nesting depth restored, and, when it succeeded, a well-formed
/// budget at the same call depth.
pub open spec fn kept(before: Option<EvalBudget>, after: Option<EvalBudget>, ok: bool) -> bool {
    match before {
        Some(x) => match after {
            Some(y) => {
                &&& y.same_limits(x)
                &&& y.steps >= x.steps
                &&& y.recursion_depth == x.recursion_depth
                &&& y.call_depth >= x.call_depth
                &&& ok ==> y.wf() && y.call_depth == x.call_depth
            },
            None => false,
        },
        None => after is None,
    }
}

/// Only the allocation counters of a budget moved.
pub open spec fn alloc_only(before: Option<EvalBudget>, after: Option<EvalBudget>) -> bool {
    match before {
        Some(x) => match after {
            Some(y) => y.wf() && y == (EvalBudget {
                allocated_nodes: y.allocated_nodes,
                allocated_bytes: y.allocated_bytes,
                ..x
            }),
            None => false,
        },
        None => after is None,
    }
}

fn add_sat(a: usize, b: usize) -> (r: usize)
    ensures
        r == sat(a + b),
{
    a.saturating_add(b)
}

fn mul_sat(a: usize, b: usize) -> (r: usize)
    ensures
        r == sat(a * b),
{
    match a.checked_mul(b) {
        Some(v) => v,
        None => usize::MAX,
    }
}

/// Reserve `nodes` nodes and `bytes` bytes when a budget is in force.
fn reserve_exec(budget: &mut Option<EvalBudget>, nodes: usize, bytes: usize) -> (r: Result<(), EvalFault>)
    requires
        *old(budget) matches Some(x) ==> x.wf(),
    ensures
        (unit_model(r), *final(budget)) == reserve(*old(budget), nodes, bytes),
        alloc_only(*old(budget), *final(budget)),
{
    match budget {
        Some(b) => b.charge_allocation(nodes, bytes),
        None => Ok(()),
    }
}

/// Charge for a copy of `v` rooted at `depth` when a budget is in force.
fn charge_exec(budget: &mut Option<EvalBudget>, v: &L3ValueV2, depth: usize) -> (r: Result<(), EvalFault>)
    requires
        *old(budget) matches Some(x) ==> x.wf(),
        1 <= depth <= 2,
    ensures
        (unit_model(r), *final(budget)) == charge(*old(budget), v@, depth as int),
        alloc_only(*old(budget), *final(budget)),
{
    match budget {
        Some(b) => b.charge_value(v, depth),
        None => Ok(()),
    }
}

/// Evaluate `e` under `env`, ticking the budget and tracking nesting depth.
fn eval_internal(
    e: &L3ExprV2,
    env: &EvalEnv,
    budget: &mut Option<EvalBudget>,
    func: Option<&str>,
) -> (r: Result<L3ValueV2, EvalFault>)
    requires
        ready(*old(budget), env@),
    ensures
        (outcome(r), *final(budget)) == eval_spec(*e, env@, *old(budget), label(func)),
        kept(*old(budget), *final(budget), r is Ok),
    decreases fuel(*old(budget)), *e, 3nat, 0nat,
{
    let ghost f0 = fuel(*budget);
    let cur = *budget;
    if let Some(mut b) = cur {
        let t = b.tick_step();
        if let Err(f) = t {
            *budget = Some(b);
            return Err(f);
        }
        if b.recursion_depth + 1 > b.max_recursion_depth {
            *budget = Some(b);
            let name = match func {
                Some(s) => owned(s),
                None => owned("<eval>"),
            };
            return Err(EvalFault::CallDepthExceeded { limit: b.max_recursion_depth, func: name });
        }
        b.recursion_depth = b.recursion_depth + 1;
        *budget = Some(b);
    }
    let res = eval_internal_body(e, env, budget, func, Ghost(f0));
    let after = *budget;
    if let Some(mut b) = after {
        b.recursion_depth = if b.recursion_depth > 0 {
            b.recursion_depth - 1
        } else {
            0
        };
        *budget = Some(b);
    }
    res
}

/// One evaluation step once the budget bookkeeping is done.
fn eval_internal_body(
    e: &L3ExprV2,
    env: &EvalEnv,
    budget: &mut Option<EvalBudget>,
    func: Option<&str>,
    Ghost(f0): Ghost<nat>,
) -> (r: Result<L3ValueV2, EvalFault>)
    requires
        ready(*old(budget), env@),
        may_descend(*old(budget), f0),
    ensures
        (outcome(r), *final(budget)) == body_spec(*e, env@, *old(budget), label(func), f0),
        kept(*old(budget), *final(budget), r is Ok),
    decreases f0, *e, 2nat, 0nat,
{
    match e {
        L3ExprV2::Int(n) => Ok(L3ValueV2::Int(*n)),
        L3ExprV2::Bool(v) => Ok(L3ValueV2::Bool(*v)),
        L3ExprV2::Str(s) => {
            let n = crate::text::text_len(s.as_str());
            let r = reserve_exec(budget, 1, n);
            if let Err(f) = r {
                return Err(f);
            }
            Ok(L3ValueV2::Str(s.clone()))
        },
        L3ExprV2::LetRef(name) => {
            let found = env.lookup_binding(name.as_str());
            match found {
                None => Err(EvalFault::Unbound(name.clone())),
                Some(v) => {
                    let r = charge_exec(budget, v, 1);
                    if let Err(f) = r {
                        return Err(f);
                    }
                    Ok(v.duplicate())
                },
            }
        },
        L3ExprV2::RuleFact(rule) => {
            let found = env.facts.get(rule.as_str());
            proof {
                lemma_get_model(env.facts.pairs(), rule@);
            }
            match found {
                None => Err(EvalFault::Unbound(rule.clone())),
                Some(v) => {
                    let r = charge_exec(budget, v, 1);
                    if let Err(f) = r {
                        return Err(f);
                    }
                    Ok(v.duplicate())
                },
            }
        },
        L3ExprV2::NullaryVariant { nominal_sum, variant } => {
            let n = add_sat(
                crate::text::text_len(nominal_sum.as_str()),
                crate::text::text_len(variant.as_str()),
            );
            let r = reserve_exec(budget, 1, n);
            if let Err(f) = r {
                return Err(f);
            }
            let v = L3ValueV2::Ctor {
                nominal_sum: nominal_sum.clone(),
                variant: variant.clone(),
                args: Vec::new(),
            };
            proof {
                lemma_values_model(Seq::<L3ValueV2>::empty());
                assert(values_model(Seq::<L3ValueV2>::empty()) =~= Seq::<ValueModel>::empty());
            }
            Ok(v)
        },
        L3ExprV2::Ctor { .. } => eval_ctor(e, env, budget, func, Ghost(f0)),
        L3ExprV2::Record { .. } => eval_record(e, env, budget, func, Ghost(f0)),
        L3ExprV2::Field(..) => eval_field(e, env, budget, func, Ghost(f0)),
        L3ExprV2::Arith(..) => eval_arith(e, env, budget, func, Ghost(f0)),
        L3ExprV2::Cmp(..) => eval_relation(e, env, budget, func, Ghost(f0)),
        L3ExprV2::Match { .. } => eval_match(e, env, budget, func, Ghost(f0)),
        L3ExprV2::Call { .. } => eval_call(e, env, budget, func, Ghost(f0)),
    }
}

/// Field projection.
#[verifier::loop_isolation(false)]
fn eval_field(
    e: &L3ExprV2,
    env: &EvalEnv,
    budget: &mut Option<EvalBudget>,
    func: Option<&str>,
    Ghost(f0): Ghost<nat>,
) -> (r: Result<L3ValueV2, EvalFault>)
    requires
        ready(*old(budget), env@),
        may_descend(*old(budget), f0),
    ensures
        (outcome(r), *final(budget)) == field_spec(*e, env@, *old(budget), label(func), f0),
        kept(*old(budget), *final(budget), r is Ok),
    decreases f0, *e, 1nat, 0nat,
{
    match e {
        L3ExprV2::Field(base, field) => {
            let v = eval_internal(base, env, budget, func);
            let v = match v {
                Err(f) => return Err(f),
                Ok(v) => v,
            };
            match v {
                L3ValueV2::Record { fields, .. } => {
                    proof {
                        lemma_ctor_view(v);
                        lemma_fields_model(fields@);
                        lemma_assoc_index(fields_model(fields@), field@);
                    }
                    let mut j: usize = 0;
                    while j < fields.len()
                        invariant
                            j <= fields@.len(),
                            forall|k: int| 0 <= k < j ==> (#[trigger] fields@[k]).0@ != field@,
                        decreases fields@.len() - j,
                    {
                        if crate::keymap::same_text(fields[j].0.as_str(), field.as_str()) {
                            proof {
                                let s = fields_model(fields@);
                                assert(s[j as int].0 == field@);
                                assert forall|k: int| 0 <= k < j implies s[k].0 != field@ by {
                                    assert(s[k] == (fields@[k].0@, fields@[k].1@));
                                }
                                assert(assoc_index(s, field@) == Some(j as int));
                            }
                            return Ok(fields[j].1.duplicate());
                        }
                        j = j + 1;
                    }
                    Err(EvalFault::NoSuchField(field.clone()))
                },
                _ => Err(EvalFault::NoSuchField(field.clone())),
            }
        },
        _ => Err(EvalFault::NoMatchingArm),
    }
}

/// Checked integer arithmetic.
fn eval_arith(
    e: &L3ExprV2,
    env: &EvalEnv,
    budget: &mut Option<EvalBudget>,
    func: Option<&str>,
    Ghost(f0): Ghost<nat>,
) -> (r: Result<L3ValueV2, EvalFault>)
    requires
        ready(*old(budget), env@),
        may_descend(*old(budget), f0),
    ensures
        (outcome(r), *final(budget)) == arith_expr_spec(*e, env@, *old(budget), label(func), f0),
        kept(*old(budget), *final(budget), r is Ok),
    decreases f0, *e, 1nat, 0nat,
{
    match e {
        L3ExprV2::Arith(op, lhs, rhs) => {
            let x = eval_internal(lhs, env, budget, func);
            let x = match x {
                Err(f) => return Err(f),
                Ok(x) => x,
            };
            let y = eval_internal(rhs, env, budget, func);
            let y = match y {
                Err(f) => return Err(f),
                Ok(y) => y,
            };
            match (x, y) {
                (L3ValueV2::Int(p), L3ValueV2::Int(q)) => {
                    let z = match op {
                        ArithOpV2::Add => p.checked_add(q),
                        ArithOpV2::Sub => p.checked_sub(q),
                        ArithOpV2::Mul => p.checked_mul(q),
                    };
                    match z {
                        Some(z) => Ok(L3ValueV2::Int(z)),
                        None => Err(EvalFault::Overflow(*op)),
                    }
                },
                _ => Err(EvalFault::OperandShape("arithmetic requires Int operands")),
            }
        },
        _ => Err(EvalFault::NoMatchingArm),
    }
}

/// Comparison.
fn eval_relation(
    e: &L3ExprV2,
    env: &EvalEnv,
    budget: &mut Option<EvalBudget>,
    func: Option<&str>,
    Ghost(f0): Ghost<nat>,
) -> (r: Result<L3ValueV2, EvalFault>)
    requires
        ready(*old(budget), env@),
        may_descend(*old(budget), f0),
    ensures
        (outcome(r), *final(budget)) == relation_spec(*e, env@, *old(budget), label(func), f0),
        kept(*old(budget), *final(budget), r is Ok),
    decreases f0, *e, 1nat, 0nat,
{
    match e {
        L3ExprV2::Cmp(op, lhs, rhs) => {
            let x = eval_internal(lhs, env, budget, func);
            let x = match x {
                Err(f) => return Err(f),
                Ok(x) => x,
            };
            let y = eval_internal(rhs, env, budget, func);
            let y = match y {
                Err(f) => return Err(f),
                Ok(y) => y,
            };
            match op {
                CmpOpV2::Eq => Ok(L3ValueV2::Bool(x.same_as(&y))),
                CmpOpV2::Ne => Ok(L3ValueV2::Bool(!x.same_as(&y))),
                _ => match (x, y) {
                    (L3ValueV2::Int(p), L3ValueV2::Int(q)) => {
                        let out = match op {
                            CmpOpV2::Lt => p < q,
                            CmpOpV2::Le => p <= q,
                            CmpOpV2::Gt => p > q,
                            CmpOpV2::Ge => p >= q,
                            CmpOpV2::Eq => p == q,
                            CmpOpV2::Ne => p != q,
                        };
                        Ok(L3ValueV2::Bool(out))
                    },
                    _ => Err(EvalFault::OperandShape("ordering comparison requires Int operands")),
                },
            }
        },
        _ => Err(EvalFault::NoMatchingArm),
    }
}

/// Evaluate the arguments of a constructor or call expression, in order,
/// optionally charging for each value.
#[verifier::loop_isolation(false)]
fn eval_list(
    e: &L3ExprV2,
    args: &Vec<L3ExprV2>,
    env: &EvalEnv,
    budget: &mut Option<EvalBudget>,
    func: Option<&str>,
    charge_each: bool,
    Ghost(f0): Ghost<nat>,
) -> (r: Result<Vec<L3ValueV2>, EvalFault>)
    requires
        ready(*old(budget), env@),
        may_descend(*old(budget), f0),
        arg_exprs(*e) == args@,
    ensures
        (match r {
            Ok(vals) => Ok(values_model(vals@)),
            Err(f) => Err(f@),
        }, *final(budget)) == eval_list_spec(
            *e,
            env@,
            *old(budget),
            label(func),
            f0,
            0,
            Seq::empty(),
            charge_each,
        ),
        kept(*old(budget), *final(budget), r is Ok),
        r matches Ok(vals) ==> vals@.len() == args@.len(),
    decreases f0, *e, 0nat, args@.len() + 1,
{
    let ghost b0 = *budget;
    let mut out: Vec<L3ValueV2> = Vec::new();
    let mut i: usize = 0;
    proof {
        lemma_values_model(out@);
        assert(values_model(out@) =~= Seq::<ValueModel>::empty());
    }
    while i < args.len()
        invariant
            i <= args@.len(),
            out@.len() == i,
            ready(*budget, env@),
            may_descend(*budget, f0),
            kept(b0, *budget, true),
            eval_list_spec(*e, env@, b0, label(func), f0, 0, Seq::empty(), charge_each)
                == eval_list_spec(
                *e,
                env@,
                *budget,
                label(func),
                f0,
                i as nat,
                values_model(out@),
                charge_each,
            ),
        decreases args@.len() - i,
    {
        proof {
            if *e is Ctor {
                assert(decreases_to!(*e => (*e)->Ctor_args));
                assert(decreases_to!((*e)->Ctor_args => (*e)->Ctor_args@));
                assert(decreases_to!((*e)->Ctor_args@ => (*e)->Ctor_args@[i as int]));
            } else if *e is Call {
                assert(decreases_to!(*e => (*e)->Call_args));
                assert(decreases_to!((*e)->Call_args => (*e)->Call_args@));
                assert(decreases_to!((*e)->Call_args@ => (*e)->Call_args@[i as int]));
            }
        }
        let ghost bi = *budget;
        let v = eval_internal(&args[i], env, budget, func);
        let v = match v {
            Err(f) => return Err(f),
            Ok(v) => v,
        };
        if charge_each {
            let rc = charge_exec(budget, &v, 2);
            if let Err(f) = rc {
                return Err(f);
            }
        }
        proof {
            lemma_values_model(out@);
            lemma_values_model(out@.push(v));
            assert(values_model(out@.push(v)) =~= values_model(out@).push(v@));
        }
        out.push(v);
        i = i + 1;
    }
    Ok(out)
}

/// Constructor application.
fn eval_ctor(
    e: &L3ExprV2,
    env: &EvalEnv,
    budget: &mut Option<EvalBudget>,
    func: Option<&str>,
    Ghost(f0): Ghost<nat>,
) -> (r: Result<L3ValueV2, EvalFault>)
    requires
        ready(*old(budget), env@),
        may_descend(*old(budget), f0),
    ensures
        (outcome(r), *final(budget)) == ctor_spec(*e, env@, *old(budget), label(func), f0),
        kept(*old(budget), *final(budget), r is Ok),
    decreases f0, *e, 1nat, 0nat,
{
    match e {
        L3ExprV2::Ctor { nominal_sum, variant, args } => {
            let bytes = add_sat(
                add_sat(
                    crate::text::text_len(nominal_sum.as_str()),
                    crate::text::text_len(variant.as_str()),
                ),
                mul_sat(args.len(), core::mem::size_of::<L3ValueV2>()),
            );
            let r0 = reserve_exec(budget, 1, bytes);
            if let Err(f) = r0 {
                return Err(f);
            }
            let vals = eval_list(e, args, env, budget, func, true, Ghost(f0));
            let vals = match vals {
                Err(f) => return Err(f),
                Ok(vals) => vals,
            };
            Ok(L3ValueV2::Ctor { nominal_sum: nominal_sum.clone(), variant: variant.clone(), args: vals })
        },
        _ => Err(EvalFault::NoMatchingArm),
    }
}

/// Record literal.
#[verifier::loop_isolation(false)]
fn eval_record(
    e: &L3ExprV2,
    env: &EvalEnv,
    budget: &mut Option<EvalBudget>,
    func: Option<&str>,
    Ghost(f0): Ghost<nat>,
) -> (r: Result<L3ValueV2, EvalFault>)
    requires
        ready(*old(budget), env@),
        may_descend(*old(budget), f0),
    ensures
        (outcome(r), *final(budget)) == record_spec(*e, env@, *old(budget), label(func), f0),
        kept(*old(budget), *final(budget), r is Ok),
    decreases f0, *e, 1nat, 0nat,
{
    match e {
        L3ExprV2::Record { nominal_config, fields } => {
            let bytes = add_sat(
                crate::text::text_len(nominal_config.as_str()),
                mul_sat(fields.len(), core::mem::size_of::<(String, L3ValueV2)>()),
            );
            let r0 = reserve_exec(budget, 1, bytes);
            if let Err(f) = r0 {
                return Err(f);
            }
            let ghost b1 = *budget;
            let mut out: Vec<(String, L3ValueV2)> = Vec::new();
            let mut i: usize = 0;
            proof {
                lemma_fields_model(out@);
                assert(fields_model(out@) =~= Seq::<(Seq<char>, ValueModel)>::empty());
            }
            while i < fields.len()
                invariant
                    i <= fields@.len(),
                    field_exprs(*e) == fields@,
                    ready(*budget, env@),
                    may_descend(*budget, f0),
                    kept(b1, *budget, true),
                    eval_fields_spec(*e, env@, b1, label(func), f0, 0, Seq::empty())
                        == eval_fields_spec(
                        *e,
                        env@,
                        *budget,
                        label(func),
                        f0,
                        i as nat,
                        fields_model(out@),
                    ),
                decreases fields@.len() - i,
            {
                proof {
                    assert(decreases_to!(*e => (*e)->Record_fields));
                    assert(decreases_to!((*e)->Record_fields => (*e)->Record_fields@));
                    assert(decreases_to!((*e)->Record_fields@ => (*e)->Record_fields@[i as int]));
                    assert(decreases_to!((*e)->Record_fields@[i as int] => (*e)->Record_fields@[i as int].1));
                }
                let rn = reserve_exec(budget, 0, crate::text::text_len(fields[i].0.as_str()));
                if let Err(f) = rn {
                    return Err(f);
                }
                let v = eval_internal(&fields[i].1, env, budget, func);
                let v = match v {
                    Err(f) => return Err(f),
                    Ok(v) => v,
                };
                let rc = charge_exec(budget, &v, 2);
                if let Err(f) = rc {
                    return Err(f);
                }
                let name = fields[i].0.clone();
                proof {
                    lemma_fields_model(out@);
                    lemma_fields_model(out@.push((name, v)));
                    assert(fields_model(out@.push((name, v))) =~= fields_model(out@).push(
                        (fields@[i as int].0@, v@),
                    ));
                }
                out.push((name, v));
                i = i + 1;
            }
            Ok(L3ValueV2::Record { nominal_config: nominal_config.clone(), fields: out })
        },
        _ => Err(EvalFault::NoMatchingArm),
    }
}

pub(crate) proof fn lemma_arm_index(arms: Seq<(L3PatternV2, L3ExprV2)>, variant: Seq<char>)
    ensures
        arm_index(arms, variant) matches Some(i) ==> {
            &&& 0 <= i < arms.len()
            &&& arms[i].0->Ctor_variant@ == variant
            &&& forall|j: int| 0 <= j < i ==> (#[trigger] arms[j]).0->Ctor_variant@ != variant
        },
        arm_index(arms, variant) is None <==> forall|j: int|
            0 <= j < arms.len() ==> (#[trigger] arms[j]).0->Ctor_variant@ != variant,
    decreases arms.len(),
{
    if arms.len() > 0 {
        let rest = arms.drop_first();
        lemma_arm_index(rest, variant);
        assert forall|j: int| 0 <= j < rest.len() implies rest[j] == arms[j + 1] by {}
        if arms[0].0->Ctor_variant@ != variant {
            if arm_index(rest, variant) is None {
                assert forall|j: int| 0 <= j < arms.len() implies (#[trigger] arms[j]).0->Ctor_variant@
                    != variant by {
                    if j > 0 {
                        assert(rest[j - 1] == arms[j]);
                    }
                }
            } else {
                let i = arm_index(rest, variant)->0;
                assert(rest[i] == arms[i + 1]);
                assert forall|j: int| 0 <= j < i + 1 implies (#[trigger] arms[j]).0->Ctor_variant@
                    != variant by {
                    if j > 0 {
                        assert(rest[j - 1] == arms[j]);
                    }
                }
            }
        }
    }
}

/// Index of the first arm naming `variant`.
pub(crate) fn find_arm(arms: &Vec<(L3PatternV2, L3ExprV2)>, variant: &str) -> (r: Option<usize>)
    ensures
        match r {
            Some(k) => arm_index(arms@, variant@) == Some(k as int),
            None => arm_index(arms@, variant@) is None,
        },
{
    proof {
        lemma_arm_index(arms@, variant@);
    }
    let mut k: usize = 0;
    while k < arms.len()
        invariant
            k <= arms@.len(),
            forall|j: int| 0 <= j < k ==> (#[trigger] arms@[j]).0->Ctor_variant@ != variant@,
            arm_index(arms@, variant@) matches Some(i) ==> {
                &&& 0 <= i < arms@.len()
                &&& arms@[i].0->Ctor_variant@ == variant@
                &&& forall|j: int| 0 <= j < i ==> (#[trigger] arms@[j]).0->Ctor_variant@ != variant@
            },
            arm_index(arms@, variant@) is None <==> forall|j: int|
                0 <= j < arms@.len() ==> (#[trigger] arms@[j]).0->Ctor_variant@ != variant@,
        decreases arms@.len() - k,
    {
        let same = match &arms[k].0 {
            L3PatternV2::Ctor { variant: pv, .. } => crate::keymap::same_text(pv.as_str(), variant),
        };
        if same {
            return Some(k);
        }
        k = k + 1;
    }
    None
}

/// Charge, in key order, for the name and a copy of the value of every
/// entry of `m`, which sits at offset `off` of `all`.
fn charge_map(
    budget: &mut Option<EvalBudget>,
    m: &KeyMap<L3ValueV2>,
    Ghost(all): Ghost<Seq<(Seq<char>, ValueModel)>>,
    Ghost(off): Ghost<nat>,
) -> (r: Result<(), EvalFault>)
    requires
        *old(budget) matches Some(x) ==> x.wf(),
        off + m.pairs().len() <= all.len(),
        forall|j: int|
            0 <= j < m.pairs().len() ==> all[off + j] == (#[trigger] m.pairs()[j].0, m.pairs()[j].1@),
    ensures
        alloc_only(*old(budget), *final(budget)),
        r is Ok ==> charge_entries(*old(budget), all, off) == charge_entries(
            *final(budget),
            all,
            (off + m.pairs().len()) as nat,
        ),
        r is Err ==> (unit_model(r), *final(budget)) == charge_entries(*old(budget), all, off),
{
    let ghost b0 = *budget;
    let mut i: usize = 0;
    while i < m.len()
        invariant
            i <= m.pairs().len(),
            off + m.pairs().len() <= all.len(),
            forall|j: int|
                0 <= j < m.pairs().len() ==> all[off + j] == (#[trigger] m.pairs()[j].0, m.pairs()[j].1@),
            b0 == *old(budget),
            b0 matches Some(x) ==> x.wf(),
            alloc_only(b0, *budget),
            charge_entries(b0, all, off) == charge_entries(*budget, all, (off + i) as nat),
        decreases m.pairs().len() - i,
    {
        let k = m.key_at(i);
        let v = m.value_at(i);
        assert(all[off + i] == (m.pairs()[i as int].0, m.pairs()[i as int].1@));
        let r1 = reserve_exec(budget, 0, crate::text::text_len(k.as_str()));
        if let Err(f) = r1 {
            return Err(f);
        }
        let r2 = charge_exec(budget, v, 1);
        if let Err(f) = r2 {
            return Err(f);
        }
        i = i + 1;
    }
    Ok(())
}

/// Case analysis.
#[verifier::loop_isolation(false)]
fn eval_match(
    e: &L3ExprV2,
    env: &EvalEnv,
    budget: &mut Option<EvalBudget>,
    func: Option<&str>,
    Ghost(f0): Ghost<nat>,
) -> (r: Result<L3ValueV2, EvalFault>)
    requires
        ready(*old(budget), env@),
        may_descend(*old(budget), f0),
    ensures
        (outcome(r), *final(budget)) == match_spec(*e, env@, *old(budget), label(func), f0),
        kept(*old(budget), *final(budget), r is Ok),
    decreases f0, *e, 1nat, 0nat,
{
    match e {
        L3ExprV2::Match { scrutinee, arms } => {
            let v = eval_internal(scrutinee, env, budget, func);
            let v = match v {
                Err(f) => return Err(f),
                Ok(v) => v,
            };
            let no_payloads: Vec<L3ValueV2> = Vec::new();
            let (variant, payloads): (&str, &Vec<L3ValueV2>) = match &v {
                L3ValueV2::Ctor { variant, args, .. } => (variant.as_str(), args),
                L3ValueV2::Bool(t) => (
                    if *t {
                        "true"
                    } else {
                        "false"
                    },
                    &no_payloads,
                ),
                _ => return Err(EvalFault::OperandShape("match requires a sum value")),
            };
            proof {
                lemma_values_model(payloads@);
                lemma_values_model(no_payloads@);
                assert(values_model(no_payloads@) =~= Seq::<ValueModel>::empty());
                assert(scrutinee_shape(v@) == Some((variant@, values_model(payloads@))));
            }
            let k = match find_arm(arms, variant) {
                None => return Err(EvalFault::NoMatchingArm),
                Some(k) => k,
            };
            proof {
                lemma_arm_index(arms@, variant@);
            }
            let binders = match &arms[k].0 {
                L3PatternV2::Ctor { binders, .. } => binders,
            };
            if binders.len() != payloads.len() {
                return Err(EvalFault::OperandShape("constructor arity mismatch"));
            }
            let ghost all = env@.locals + env@.lets + env@.inputs + env@.facts;
            let ghost n1 = env@.locals.len();
            let ghost n2 = n1 + env@.lets.len();
            let ghost n3 = n2 + env@.inputs.len();
            proof {
                lemma_entries_len(env.locals.pairs());
                lemma_entries_len(env.lets.pairs());
                lemma_entries_len(env.inputs.pairs());
                lemma_entries_len(env.facts.pairs());
                assert forall|j: int| 0 <= j < env.lets.pairs().len() implies all[n1 + j] == (
                    #[trigger] env.lets.pairs()[j].0,
                    env.lets.pairs()[j].1@,
                ) by {
                    assert(all[n1 + j] == env@.lets[j]);
                }
                assert forall|j: int| 0 <= j < env.inputs.pairs().len() implies all[n2 + j] == (
                    #[trigger] env.inputs.pairs()[j].0,
                    env.inputs.pairs()[j].1@,
                ) by {
                    assert(all[n2 + j] == env@.inputs[j]);
                }
                assert forall|j: int| 0 <= j < env.facts.pairs().len() implies all[n3 + j] == (
                    #[trigger] env.facts.pairs()[j].0,
                    env.facts.pairs()[j].1@,
                ) by {
                    assert(all[n3 + j] == env@.facts[j]);
                }
                assert forall|j: int| 0 <= j < env.locals.pairs().len() implies all[0 + j] == (
                    #[trigger] env.locals.pairs()[j].0,
                    env.locals.pairs()[j].1@,
                ) by {
                    assert(all[j] == env@.locals[j]);
                }
            }
            let rc = charge_map(budget, &env.locals, Ghost(all), Ghost(0));
            if let Err(f) = rc {
                return Err(f);
            }
            let rc = charge_map(budget, &env.lets, Ghost(all), Ghost(n1));
            if let Err(f) = rc {
                return Err(f);
            }
            let rc = charge_map(budget, &env.inputs, Ghost(all), Ghost(n2));
            if let Err(f) = rc {
                return Err(f);
            }
            let rc = charge_map(budget, &env.facts, Ghost(all), Ghost(n3));
            if let Err(f) = rc {
                return Err(f);
            }
            let ghost b2 = *budget;
            let ghost pm = values_model(payloads@);
            let mut arm_env = env.duplicate();
            let mut i: usize = 0;
            while i < binders.len()
                invariant
                    i <= binders@.len(),
                    binders@.len() == payloads@.len(),
                    pm.len() == payloads@.len(),
                    forall|j: int| 0 <= j < payloads@.len() ==> pm[j] == (#[trigger] payloads@[j])@,
                    alloc_only(b2, *budget),
                    arm_env@ == (EnvModel { locals: arm_env@.locals, ..env@ }),
                    bind_spec(b2, binders@, pm, 0, env@.locals) == bind_spec(
                        *budget,
                        binders@,
                        pm,
                        i as nat,
                        arm_env@.locals,
                    ),
                decreases binders@.len() - i,
            {
                match &binders[i] {
                    Some(name) => {
                        let rb = charge_exec(budget, &payloads[i], 1);
                        if let Err(f) = rb {
                            return Err(f);
                        }
                        arm_env.bind_local(name.clone(), payloads[i].duplicate());
                    },
                    None => {},
                }
                i = i + 1;
            }
            proof {
                assert(decreases_to!(*e => (*e)->Match_arms));
                assert(decreases_to!((*e)->Match_arms => (*e)->Match_arms@));
                assert(decreases_to!((*e)->Match_arms@ => (*e)->Match_arms@[k as int]));
                assert(decreases_to!((*e)->Match_arms@[k as int] => (*e)->Match_arms@[k as int].1));
            }
            eval_internal(&arms[k].1, &arm_env, budget, func)
        },
        _ => Err(EvalFault::NoMatchingArm),
    }
}

/// The fault for a value that failed its schema at a call boundary.
fn contract_fault(
    func: &String,
    param: Option<String>,
    ty: &L3SchemaType,
    v: &L3ValueV2,
    detail: String,
) -> (f: EvalFault)
    ensures
        f@ == violation(func@, opt_text(param), *ty, v@, detail@),
{
    let path = match ty {
        L3SchemaType::Named(_) => Some(detail),
        _ => None,
    };
    let found = type_of_value(v).to_display_string();
    proof {
        lemma_ctor_view(*v);
    }
    EvalFault::ContractViolation {
        func: func.clone(),
        param,
        expected: ty.display_name(),
        found,
        path,
    }
}

/// Check the parameter contracts of `def` against the evaluated arguments.
fn check_params(def: &L3FunctionDef, func: &String, vals: &Vec<L3ValueV2>) -> (r: Result<(), EvalFault>)
    requires
        vals@.len() == def.params@.len(),
    ensures
        unit_model(r) == param_contracts(*def, func@, values_model(vals@), 0),
{
    let ghost vm = values_model(vals@);
    proof {
        lemma_values_model(vals@);
    }
    let mut i: usize = 0;
    while i < def.params.len()
        invariant
            i <= def.params@.len(),
            vals@.len() == def.params@.len(),
            vm == values_model(vals@),
            vm.len() == vals@.len(),
            forall|j: int| 0 <= j < vals@.len() ==> vm[j] == (#[trigger] vals@[j])@,
            param_contracts(*def, func@, vm, 0) == param_contracts(*def, func@, vm, i as nat),
        decreases def.params@.len() - i,
    {
        match &def.params[i].1 {
            Some(ty) => {
                let chk = validate_l3_value(&vals[i], ty, &*def.schemas, "<root>");
                if let Err(detail) = chk {
                    return Err(
                        contract_fault(func, Some(def.params[i].0.clone()), ty, &vals[i], detail),
                    );
                }
            },
            None => {},
        }
        i = i + 1;
    }
    Ok(())
}

/// Saturating total byte length of the parameter names.
fn param_bytes(params: &Vec<(String, Option<L3SchemaType>)>) -> (n: usize)
    ensures
        n == param_name_bytes(params@, params@.len()),
{
    let mut total: usize = 0;
    let mut i: usize = 0;
    while i < params.len()
        invariant
            i <= params@.len(),
            total == param_name_bytes(params@, i as nat),
        decreases params@.len() - i,
    {
        total = add_sat(total, crate::text::text_len(params[i].0.as_str()));
        i = i + 1;
    }
    total
}

/// Helper call.
#[verifier::loop_isolation(false)]
fn eval_call(
    e: &L3ExprV2,
    env: &EvalEnv,
    budget: &mut Option<EvalBudget>,
    func: Option<&str>,
    Ghost(f0): Ghost<nat>,
) -> (r: Result<L3ValueV2, EvalFault>)
    requires
        ready(*old(budget), env@),
        may_descend(*old(budget), f0),
    ensures
        (outcome(r), *final(budget)) == call_spec(*e, env@, *old(budget), label(func), f0),
        kept(*old(budget), *final(budget), r is Ok),
    decreases f0, *e, 1nat, 0nat,
{
    match e {
        L3ExprV2::Call { func: fname, args } => {
            let found = env.functions.get(fname.as_str());
            let d = match found {
                None => return Err(EvalFault::Unbound(fname.clone())),
                Some(d) => d,
            };
            let def: &L3FunctionDef = &**d;
            if def.params.len() != args.len() {
                return Err(EvalFault::OperandShape("function arity mismatch"));
            }
            let nargs = args.len();
            let r1 = reserve_exec(budget, nargs, mul_sat(nargs, core::mem::size_of::<L3ValueV2>()));
            if let Err(f) = r1 {
                return Err(f);
            }
            let vals = eval_list(e, args, env, budget, func, false, Ghost(f0));
            let vals = match vals {
                Err(f) => return Err(f),
                Ok(vals) => vals,
            };
            proof {
                lemma_values_model(vals@);
            }
            let pc = check_params(def, fname, &vals);
            if let Err(f) = pc {
                return Err(f);
            }
            let cur = *budget;
            if let Some(mut b) = cur {
                if b.call_depth + 1 > b.max_call_depth {
                    return Err(EvalFault::CallDepthExceeded { limit: b.max_call_depth, func: fname.clone() });
                }
                b.call_depth = b.call_depth + 1;
                *budget = Some(b);
            }
            let n = def.params.len();
            let key_bytes = param_bytes(&def.params);
            let slots = add_sat(key_bytes, mul_sat(n, core::mem::size_of::<(String, L3ValueV2)>()));
            let r4 = reserve_exec(budget, n, slots);
            if let Err(f) = r4 {
                return Err(f);
            }
            let mut fn_locals: KeyMap<L3ValueV2> = KeyMap::new();
            let ghost vm = values_model(vals@);
            let mut i: usize = 0;
            while i < n
                invariant
                    i <= n,
                    n == def.params@.len(),
                    vals@.len() == n,
                    vm.len() == n,
                    forall|j: int| 0 <= j < n ==> vm[j] == (#[trigger] vals@[j])@,
                    entries_model(fn_locals.pairs()) == bind_params(def.params@, vm, i as nat),
                decreases n - i,
            {
                let ghost before = fn_locals.pairs();
                let v = vals[i].duplicate();
                fn_locals.insert(def.params[i].0.clone(), v);
                proof {
                    lemma_insert_model(before, def.params@[i as int].0@, v);
                }
                i = i + 1;
            }
            let fn_env = EvalEnv {
                inputs: KeyMap::new(),
                lets: KeyMap::new(),
                facts: KeyMap::new(),
                locals: fn_locals,
                functions: share_all(&env.functions),
                schemas: def.schemas.clone(),
            };
            proof {
                assert(entries_model(Seq::<(Seq<char>, L3ValueV2)>::empty()) =~= Seq::<(Seq<char>, ValueModel)>::empty());
            }
            let rr = eval_internal(&def.body, &fn_env, budget, Some(fname.as_str()));
            let after = *budget;
            if let Some(mut b) = after {
                b.call_depth = b.call_depth - 1;
                *budget = Some(b);
            }
            let rv = match rr {
                Err(f) => return Err(f),
                Ok(v) => v,
            };
            match &def.ret_contract {
                None => Ok(rv),
                Some(ty) => {
                    let chk = validate_l3_value(&rv, ty, &*def.schemas, "<root>");
                    match chk {
                        Err(detail) => Err(contract_fault(fname, None, ty, &rv, detail)),
                        Ok(()) => Ok(rv),
                    }
                },
            }
        },
        _ => Err(EvalFault::NoMatchingArm),
    }
}

/// Evaluate a v2 expression to a value.
///
/// Big-step and left to right: operands evaluate in order, which fixes which
/// fault a program with two faulty operands reports. A budget bounds the
/// evaluation whenever helper functions or schemas are in scope.
pub fn eval(e: &L3ExprV2, env: &EvalEnv) -> (r: Result<L3ValueV2, EvalFault>)
    ensures
        outcome(r) == eval_result(*e, env@),
{
    let mut budget = if env.functions.is_empty() && env.schemas.is_empty() {
        None
    } else {
        Some(EvalBudget::fresh())
    };
    proof {
        reveal(eval_result);
    }
    eval_internal(e, env, &mut budget, None)
}

} // verus!
