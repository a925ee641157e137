use brix_lower::finite_decision::deliberation::{
    bind_inputs, evaluate_candidate_pool, evaluate_show_values, helper_definition, helper_definitions,
    same_value_type, BoundInput, CandidatePool, DeliberationStop, DerivedFact,
};
use brix_lower::finite_decision::plan::{
    FiniteDecisionCommit, FiniteDecisionContract, FiniteDecisionFnParam, FiniteDecisionFunction, FiniteDecisionInput,
    FiniteDecisionPlan, FiniteDecisionProposal, FiniteDecisionRule, Grade, FINITE_DECISION_PROFILE,
};
use brix_lower::finite_decision::runtime::{FiniteDecisionBuildError, FiniteDecisionUnknownReason};
use brix_lower::input::{canonicalize_input_shards, decode_input_shard, InputLimits, InputSnapshot, InputValidationError};
use brix_lower::l3_v2::{ArithOpV2, CmpOpV2, EvalFault, L3ExprV2, L3SchemaType, L3ValueType, L3ValueV2};

fn var(n: &str) -> L3ExprV2 {
    L3ExprV2::LetRef(n.to_string())
}

fn proposal(ordinal: u64, name: &str, guard: L3ExprV2, value: L3ExprV2) -> FiniteDecisionProposal {
    FiniteDecisionProposal { ordinal, name: name.to_string(), deps: vec![], priority: ordinal + 1, guard, value }
}

fn rule(ordinal: u64, name: &str, body: L3ExprV2) -> FiniteDecisionRule {
    FiniteDecisionRule { ordinal, name: name.to_string(), body, depends_on: vec![] }
}

fn plan() -> FiniteDecisionPlan {
    FiniteDecisionPlan {
        profile: FINITE_DECISION_PROFILE.to_string(),
        configs: vec![],
        inputs: vec![FiniteDecisionInput { ordinal: 0, name: "limit".to_string(), ty: L3ValueType::Int }],
        functions: vec![],
        lets: vec![(
            "double".to_string(),
            L3ExprV2::Arith(ArithOpV2::Mul, Box::new(var("limit")), Box::new(L3ExprV2::Int(2))),
        )],
        rules: vec![rule(3, "big", L3ExprV2::Cmp(CmpOpV2::Gt, Box::new(var("double")), Box::new(L3ExprV2::Int(10))))],
        proposals: vec![
            proposal(0, "approve", L3ExprV2::RuleFact("big".to_string()), L3ExprV2::Int(1)),
            proposal(1, "reject", L3ExprV2::Bool(false), L3ExprV2::Int(0)),
        ],
        commit: FiniteDecisionCommit {
            name: "decide".to_string(),
            candidates: vec!["approve".to_string(), "reject".to_string()],
        },
        shows: vec![var("double"), L3ExprV2::RuleFact("big".to_string())],
    }
}

fn snapshot(limit: i64) -> InputSnapshot {
    let doc = format!(
        r#"{{"schema": "brix.input@1", "values": {{"limit": {{"type": "int", "value": "{limit}"}}}}}}"#
    );
    let shard = decode_input_shard(doc.as_bytes(), &InputLimits::default()).expect("valid document");
    canonicalize_input_shards(vec![shard], &InputLimits::default()).expect("one shard")
}

fn bound(limit: i64) -> Vec<BoundInput> {
    bind_inputs(&plan(), &snapshot(limit)).expect("complete inputs")
}

fn pool(p: &FiniteDecisionPlan, inputs: &[BoundInput]) -> Result<CandidatePool, DeliberationStop> {
    evaluate_candidate_pool(p, inputs, helper_definitions(p))
}

fn shows(p: &FiniteDecisionPlan, inputs: &[BoundInput], facts: &[DerivedFact]) -> Result<Vec<L3ValueV2>, FiniteDecisionUnknownReason> {
    evaluate_show_values(p, inputs, facts, helper_definitions(p))
}

fn enough() -> FiniteDecisionFunction {
    let contract = |ty| Some(FiniteDecisionContract { ty, grade: None });
    FiniteDecisionFunction {
        ordinal: 0,
        name: "enough".to_string(),
        params: vec![
            FiniteDecisionFnParam { name: "available".to_string(), contract: contract(L3ValueType::Int) },
            FiniteDecisionFnParam { name: "needed".to_string(), contract: contract(L3ValueType::Int) },
        ],
        ret_contract: contract(L3ValueType::Bool),
        body: L3ExprV2::Cmp(CmpOpV2::Ge, Box::new(var("available")), Box::new(var("needed"))),
    }
}

#[test]
fn declared_inputs_bind_in_declaration_order_at_grade_derived() {
    let b = bound(7);
    assert_eq!(
        b,
        vec![BoundInput {
            ordinal: 0,
            name: "limit".to_string(),
            ty: L3ValueType::Int,
            value: L3ValueV2::Int(7),
            grade: Grade::Derived,
        }]
    );
}

#[test]
fn binding_refuses_missing_inputs_then_unknown_candidates() {
    assert_eq!(
        bind_inputs(&plan(), &InputSnapshot::empty()),
        Err(FiniteDecisionBuildError::InputValidation(InputValidationError::MissingInput {
            name: "limit".to_string(),
            declared: L3ValueType::Int,
        }))
    );
    let mut p = plan();
    p.commit.candidates.push("ghost".to_string());
    assert_eq!(
        bind_inputs(&p, &snapshot(1)),
        Err(FiniteDecisionBuildError::MissingProposal { candidate: "ghost".to_string() })
    );
}

#[test]
fn the_pool_admits_true_guards_and_values_every_candidate() {
    let run = pool(&plan(), &bound(7)).ok().expect("pool");
    assert_eq!(
        run.facts,
        vec![DerivedFact { rule: "big".to_string(), value: L3ValueV2::Bool(true), ordinal: 3, grade: Grade::Derived }]
    );
    assert_eq!(run.admitted.len(), 1);
    assert_eq!(run.admitted.key_at(0), "approve");
    assert_eq!(
        run.values,
        vec![("approve".to_string(), L3ValueV2::Int(1)), ("reject".to_string(), L3ValueV2::Int(0))]
    );
    let small = pool(&plan(), &bound(2)).ok().expect("pool");
    assert_eq!(small.admitted.len(), 0);
    assert_eq!(small.facts[0].value, L3ValueV2::Bool(false));
}

#[test]
fn a_faulting_let_stops_before_any_fact() {
    let mut p = plan();
    p.lets.push(("broken".to_string(), var("missing")));
    let stop = pool(&p, &bound(7)).err().expect("stop");
    assert!(stop.facts.is_empty());
    assert_eq!(
        stop.reason,
        FiniteDecisionUnknownReason::ExpressionEvaluationFault {
            context: "let broken".to_string(),
            fault: EvalFault::Unbound("missing".to_string()),
        }
    );
}

#[test]
fn a_faulting_rule_keeps_the_facts_before_it() {
    let mut p = plan();
    p.rules.push(rule(4, "boom", L3ExprV2::Arith(ArithOpV2::Add, Box::new(L3ExprV2::Int(i64::MAX)), Box::new(L3ExprV2::Int(1)))));
    let stop = pool(&p, &bound(7)).err().expect("stop");
    assert_eq!(stop.facts.len(), 1);
    assert_eq!(
        stop.reason,
        FiniteDecisionUnknownReason::ExpressionEvaluationFault {
            context: "rule boom".to_string(),
            fault: EvalFault::Overflow(ArithOpV2::Add),
        }
    );
}

#[test]
fn pool_faults_name_the_candidate_and_the_cause() {
    let mut missing = plan();
    missing.commit.candidates.insert(0, "ghost".to_string());
    assert_eq!(
        pool(&missing, &bound(7)).err().expect("stop").reason,
        FiniteDecisionUnknownReason::DependencyFault {
            context: "candidate proposal ghost".to_string(),
            detail: "proposal missing from plan".to_string(),
        }
    );
    let mut shaky = plan();
    shaky.proposals[1].guard = L3ExprV2::Int(3);
    assert_eq!(
        pool(&shaky, &bound(7)).err().expect("stop").reason,
        FiniteDecisionUnknownReason::TypeFault {
            context: "proposal reject guard".to_string(),
            detail: "guard must evaluate to Bool, found Int".to_string(),
        }
    );
    let mut bad_value = plan();
    bad_value.proposals[0].value = var("nowhere");
    assert_eq!(
        pool(&bad_value, &bound(7)).err().expect("stop").reason,
        FiniteDecisionUnknownReason::ExpressionEvaluationFault {
            context: "proposal approve value".to_string(),
            fault: EvalFault::Unbound("nowhere".to_string()),
        }
    );
    let mut mixed = plan();
    mixed.proposals[1].value = L3ExprV2::Str("no".to_string());
    assert_eq!(
        pool(&mixed, &bound(7)).err().expect("stop").reason,
        FiniteDecisionUnknownReason::TypeFault {
            context: "proposal values".to_string(),
            detail: "proposal 'reject' value type Str does not match expected Int".to_string(),
        }
    );
}

#[test]
fn shows_see_inputs_lets_and_the_run_facts() {
    let b = bound(7);
    let run = pool(&plan(), &b).ok().expect("pool");
    assert_eq!(
        shows(&plan(), &b, &run.facts),
        Ok(vec![L3ValueV2::Int(14), L3ValueV2::Bool(true)])
    );
    assert_eq!(
        shows(&plan(), &b, &[]),
        Err(FiniteDecisionUnknownReason::ExpressionEvaluationFault {
            context: "show[1]".to_string(),
            fault: EvalFault::Unbound("big".to_string()),
        })
    );
}

#[test]
fn value_types_compare_by_category_and_name() {
    let sum = |n: &str| L3ValueV2::Ctor { nominal_sum: n.to_string(), variant: "V".to_string(), args: vec![] };
    assert!(same_value_type(&L3ValueV2::Int(1), &L3ValueV2::Int(-5)));
    assert!(!same_value_type(&L3ValueV2::Int(1), &L3ValueV2::Bool(true)));
    assert!(same_value_type(&sum("A"), &sum("A")));
    assert!(!same_value_type(&sum("A"), &sum("B")));
}

#[test]
fn helpers_run_in_lets_rules_and_guards_with_their_contracts() {
    let mut p = plan();
    p.functions = vec![enough()];
    let call = |a: L3ExprV2, b: L3ExprV2| L3ExprV2::Call { func: "enough".to_string(), args: vec![a, b] };
    p.rules.push(rule(4, "eligible", call(var("limit"), L3ExprV2::Int(5))));
    p.proposals[1].guard = call(var("double"), L3ExprV2::Int(20));
    let run = pool(&p, &bound(7)).ok().expect("pool");
    assert_eq!(run.facts[1].value, L3ValueV2::Bool(true));
    assert_eq!(run.admitted.len(), 1);
    assert_eq!(run.admitted.key_at(0), "approve");

    p.proposals[1].guard = call(var("double"), L3ExprV2::Bool(true));
    assert_eq!(
        pool(&p, &bound(7)).err().expect("stop").reason,
        FiniteDecisionUnknownReason::ExpressionEvaluationFault {
            context: "proposal reject guard".to_string(),
            fault: EvalFault::ContractViolation {
                func: "enough".to_string(),
                param: Some("needed".to_string()),
                expected: "Int".to_string(),
                found: "Bool".to_string(),
                path: None,
            },
        }
    );
}

#[test]
fn helper_definitions_carry_names_contracts_and_bodies() {
    let d = helper_definition(&enough());
    assert_eq!(d.name, "enough");
    assert_eq!(
        d.params,
        vec![
            ("available".to_string(), Some(L3SchemaType::Int)),
            ("needed".to_string(), Some(L3SchemaType::Int)),
        ]
    );
    assert_eq!(d.ret_contract, Some(L3SchemaType::Bool));
    assert!(d.schemas.is_empty());
    assert_eq!(d.body, enough().body);
    let mut p = plan();
    let mut second = enough();
    second.ordinal = 1;
    second.body = L3ExprV2::Bool(false);
    p.functions = vec![enough(), second];
    let m = helper_definitions(&p);
    assert_eq!(m.len(), 1);
    assert_eq!(m.get("enough").map(|d| d.body.clone()), Some(L3ExprV2::Bool(false)));
}
