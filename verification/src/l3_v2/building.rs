//! Environments built by the public builders: what a chain of `with_*`
//! calls from an empty environment holds, which rules it satisfies, and
//! what its names read back.
use std::sync::Arc;
use vstd::prelude::*;

use crate::keymap::{assoc_get, insert_pairs, keys_ascending, lemma_insert_get};
use crate::l3_v2::semantics::{
    eval_result, lemma_fact_read_back, lemma_input_read_back, lemma_let_read_back, reads_back, EnvModel,
};
use crate::l3_v2::{L3ExprV2, L3FunctionDef, L3Schema, ValueModel};

verus! {

/// The environment `EvalEnv::new` gives: nothing bound.
pub open spec fn empty_env() -> EnvModel {
    EnvModel {
        inputs: Seq::empty(),
        lets: Seq::empty(),
        facts: Seq::empty(),
        locals: Seq::empty(),
        functions: Seq::empty(),
        schemas: Seq::empty(),
    }
}

/// One call of a public builder, with what it was given.
pub enum EnvStep {
    Input(Seq<char>, ValueModel),
    Let(Seq<char>, ValueModel),
    Fact(Seq<char>, ValueModel),
    Function(Seq<char>, Arc<L3FunctionDef>),
    Functions(Seq<(Seq<char>, Arc<L3FunctionDef>)>),
    Schemas(Seq<(Seq<char>, L3Schema)>),
}

/// The environment after one builder call, as that builder's contract
/// states it.
pub open spec fn apply_step(env: EnvModel, s: EnvStep) -> EnvModel {
    match s {
        EnvStep::Input(n, v) => EnvModel { inputs: insert_pairs(env.inputs, n, v), ..env },
        EnvStep::Let(n, v) => EnvModel { lets: insert_pairs(env.lets, n, v), ..env },
        EnvStep::Fact(n, v) => EnvModel { facts: insert_pairs(env.facts, n, v), ..env },
        EnvStep::Function(n, d) => EnvModel { functions: insert_pairs(env.functions, n, d), ..env },
        EnvStep::Functions(f) => EnvModel { functions: f, ..env },
        EnvStep::Schemas(s) => EnvModel { schemas: s, ..env },
    }
}

/// The environment a chain of builder calls makes from an empty one.
pub open spec fn built(steps: Seq<EnvStep>) -> EnvModel
    decreases steps.len(),
{
    if steps.len() == 0 {
        empty_env()
    } else {
        apply_step(built(steps.drop_last()), steps.last())
    }
}

/// Call `s` records a fact for rule `r`.
pub open spec fn is_fact_for(s: EnvStep, r: Seq<char>) -> bool {
    s matches EnvStep::Fact(n, _) && n == r
}

/// Some call in `steps` records a fact for rule `r`.
pub open spec fn records_fact(steps: Seq<EnvStep>, r: Seq<char>) -> bool {
    exists|i: int| 0 <= i < steps.len() && is_fact_for(#[trigger] steps[i], r)
}

/// No builder binds a match-local: a built environment has none.
pub proof fn lemma_built_has_no_locals(steps: Seq<EnvStep>)
    ensures
        built(steps).locals == Seq::<(Seq<char>, ValueModel)>::empty(),
    decreases steps.len(),
{
    if steps.len() > 0 {
        lemma_built_has_no_locals(steps.drop_last());
    }
}

proof fn lemma_built_facts(steps: Seq<EnvStep>, r: Seq<char>)
    ensures
        keys_ascending(built(steps).facts),
        assoc_get(built(steps).facts, r) is Some <==> records_fact(steps, r),
    decreases steps.len(),
{
    if steps.len() > 0 {
        let prev = steps.drop_last();
        lemma_built_facts(prev, r);
        assert forall|i: int| 0 <= i < prev.len() implies prev[i] == #[trigger] steps[i] by {}
        match steps.last() {
            EnvStep::Fact(n, v) => {
                lemma_insert_get(built(prev).facts, n, v, r);
                if n == r {
                    assert(steps[steps.len() - 1] == steps.last());
                }
            },
            _ => {},
        }
        if records_fact(steps, r) && !records_fact(prev, r) {
            let i = choose|i: int| 0 <= i < steps.len() && is_fact_for(#[trigger] steps[i], r);
            assert(i == steps.len() - 1);
        }
    }
}

/// Which rules a built environment satisfies: exactly those some
/// `with_fact` call recorded. No other builder adds or removes one, so an
/// input or `let` of a rule's name never satisfies it, and an empty list of
/// dependencies is always satisfied.
pub proof fn lemma_satisfied_by_recorded_facts(steps: Seq<EnvStep>, deps: Seq<String>)
    ensures
        (forall|i: int| 0 <= i < deps.len() ==> assoc_get(#[trigger] built(steps).facts, deps[i]@) is Some)
            <==> (forall|i: int| 0 <= i < deps.len() ==> records_fact(steps, #[trigger] deps[i]@)),
{
    assert forall|i: int| 0 <= i < deps.len() implies (assoc_get(built(steps).facts, #[trigger] deps[i]@) is Some
        <==> records_fact(steps, deps[i]@)) by {
        lemma_built_facts(steps, deps[i]@);
    }
}

/// A built environment reads back what the next binding stores: a `let`
/// and a fact always, an input unless a `let` of the same name shadows it.
/// With a budget in force the value comes back whenever it fits one read
/// under the starting limits; a larger one runs out of the budget.
pub proof fn lemma_built_reads_back(steps: Seq<EnvStep>, name: String, v: ValueModel)
    ensures
        reads_back(
            eval_result(
                L3ExprV2::LetRef(name),
                EnvModel { lets: insert_pairs(built(steps).lets, name@, v), ..built(steps) },
            ),
            built(steps),
            v,
        ),
        reads_back(
            eval_result(
                L3ExprV2::RuleFact(name),
                EnvModel { facts: insert_pairs(built(steps).facts, name@, v), ..built(steps) },
            ),
            built(steps),
            v,
        ),
        assoc_get(built(steps).lets, name@) is None ==> reads_back(
            eval_result(
                L3ExprV2::LetRef(name),
                EnvModel { inputs: insert_pairs(built(steps).inputs, name@, v), ..built(steps) },
            ),
            built(steps),
            v,
        ),
{
    lemma_built_has_no_locals(steps);
    lemma_let_read_back(built(steps), name, v);
    lemma_fact_read_back(built(steps), name, v);
    if assoc_get(built(steps).lets, name@) is None {
        lemma_input_read_back(built(steps), name, v);
    }
}

} // verus!
