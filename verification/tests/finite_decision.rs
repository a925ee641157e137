use brix_lower::finite_decision::cycles::{check_helper_recursion, detect_cycles, helper_call_graph};
use brix_lower::finite_decision::plan::{
    collect_function_calls, FiniteDecisionCommit, FiniteDecisionFunction, FiniteDecisionInput,
    FiniteDecisionLowerError, FiniteDecisionPlan, FiniteDecisionProposal, FINITE_DECISION_PROFILE,
};
use brix_lower::finite_decision::runtime::{FiniteDecisionBuildError, FiniteDecisionUnknownReason};
use brix_lower::input::InputValidationError;
use brix_lower::keymap::KeyMap;
use brix_lower::l3_v2::{ArithOpV2, EvalFault, L3ExprV2, L3PatternV2, L3ValueType};

fn call(func: &str, args: Vec<L3ExprV2>) -> L3ExprV2 {
    L3ExprV2::Call { func: func.to_string(), args }
}

fn function(ordinal: u64, name: &str, body: L3ExprV2) -> FiniteDecisionFunction {
    FiniteDecisionFunction { ordinal, name: name.to_string(), params: vec![], ret_contract: None, body }
}

fn plan_with(inputs: Vec<FiniteDecisionInput>, functions: Vec<FiniteDecisionFunction>) -> FiniteDecisionPlan {
    FiniteDecisionPlan {
        profile: FINITE_DECISION_PROFILE.to_string(),
        configs: vec![],
        inputs,
        functions,
        lets: vec![],
        rules: vec![],
        proposals: vec![
            FiniteDecisionProposal {
                ordinal: 0,
                name: "approve".to_string(),
                deps: vec![],
                priority: 1,
                guard: L3ExprV2::Bool(true),
                value: L3ExprV2::Int(1),
            },
            FiniteDecisionProposal {
                ordinal: 1,
                name: "reject".to_string(),
                deps: vec![],
                priority: 2,
                guard: L3ExprV2::Bool(true),
                value: L3ExprV2::Int(0),
            },
        ],
        commit: FiniteDecisionCommit { name: "decide".to_string(), candidates: vec!["approve".to_string()] },
        shows: vec![],
    }
}

fn input(ordinal: u64, name: &str, ty: L3ValueType) -> FiniteDecisionInput {
    FiniteDecisionInput { ordinal, name: name.to_string(), ty }
}

fn graph(edges: Vec<(&str, Vec<&str>)>) -> KeyMap<KeyMap<()>> {
    let mut g = KeyMap::new();
    for (from, tos) in edges {
        let mut callees = KeyMap::new();
        for t in tos {
            callees.insert(t.to_string(), ());
        }
        g.insert(from.to_string(), callees);
    }
    g
}

fn names_of(m: &KeyMap<()>) -> Vec<String> {
    (0..m.len()).map(|i| m.key_at(i).clone()).collect()
}

#[test]
fn lookups_find_the_first_declaration() {
    let plan = plan_with(
        vec![input(0, "age", L3ValueType::Int), input(1, "age", L3ValueType::Str)],
        vec![function(0, "f", L3ExprV2::Int(1))],
    );
    assert_eq!(plan.find_input("age").map(|i| i.ordinal), Some(0));
    assert!(plan.find_input("name").is_none());
    assert_eq!(plan.find_function("f").map(|f| f.ordinal), Some(0));
    assert!(plan.find_function("g").is_none());
    assert_eq!(plan.find_proposal("reject").map(|p| p.priority), Some(2));
    assert!(plan.find_proposal("defer").is_none());
}

#[test]
fn collected_calls_cover_every_nested_call() {
    let e = L3ExprV2::Arith(
        ArithOpV2::Add,
        Box::new(call("f", vec![call("g", vec![])])),
        Box::new(L3ExprV2::Match {
            scrutinee: Box::new(L3ExprV2::LetRef("x".to_string())),
            arms: vec![(L3PatternV2::Ctor { variant: "true".to_string(), binders: vec![] }, call("h", vec![]))],
        }),
    );
    let mut calls = KeyMap::new();
    calls.insert("a".to_string(), ());
    collect_function_calls(&e, &mut calls);
    assert_eq!(names_of(&calls), vec!["a", "f", "g", "h"]);
}

#[test]
fn acyclic_call_graph_is_accepted() {
    let g = graph(vec![("a", vec!["b", "c"]), ("b", vec!["c"]), ("c", vec![])]);
    assert_eq!(detect_cycles(&g), Ok(()));
}

#[test]
fn direct_recursion_is_a_cycle() {
    let g = graph(vec![("f", vec!["f"])]);
    assert_eq!(
        detect_cycles(&g),
        Err(FiniteDecisionLowerError::FunctionCycle {
            func: "f".to_string(),
            cycle: vec!["f".to_string(), "f".to_string()],
        })
    );
}

#[test]
fn mutual_recursion_reports_the_cycle_from_its_first_member() {
    let g = graph(vec![("a", vec!["b"]), ("b", vec!["c"]), ("c", vec!["b"])]);
    assert_eq!(
        detect_cycles(&g),
        Err(FiniteDecisionLowerError::FunctionCycle {
            func: "c".to_string(),
            cycle: vec!["b".to_string(), "c".to_string(), "b".to_string()],
        })
    );
}

#[test]
fn calls_to_undeclared_helpers_end_the_walk() {
    let g = graph(vec![("a", vec!["zz"]), ("b", vec!["a"])]);
    assert_eq!(detect_cycles(&g), Ok(()));
}

#[test]
fn unknown_reasons_fall_in_exactly_one_class() {
    let reasons = vec![
        FiniteDecisionUnknownReason::ExpressionEvaluationFault {
            context: "rule r".to_string(),
            fault: EvalFault::NoMatchingArm,
        },
        FiniteDecisionUnknownReason::DependencyFault { context: "c".to_string(), detail: "d".to_string() },
        FiniteDecisionUnknownReason::TypeFault { context: "c".to_string(), detail: "d".to_string() },
        FiniteDecisionUnknownReason::DecisionKeyConflict { detail: "d".to_string() },
        FiniteDecisionUnknownReason::AdmissionError { candidate: "c".to_string(), detail: "d".to_string() },
        FiniteDecisionUnknownReason::EvaluationError { detail: "d".to_string() },
        FiniteDecisionUnknownReason::InvalidPhase { candidate: "c".to_string(), phase: 3 },
        FiniteDecisionUnknownReason::QuiescenceVerificationFault { detail: "d".to_string() },
        FiniteDecisionUnknownReason::CommitTickError { detail: "d".to_string() },
        FiniteDecisionUnknownReason::InvariantViolation { detail: "d".to_string() },
    ];
    let expected = [
        (true, false, false, false, false),
        (false, false, true, false, false),
        (false, true, false, false, false),
        (false, false, false, true, false),
        (false, false, false, true, false),
        (false, false, false, true, false),
        (false, false, false, true, false),
        (false, false, false, false, true),
        (false, false, false, false, true),
        (false, false, false, false, true),
    ];
    for (r, e) in reasons.iter().zip(expected.iter()) {
        let got = (
            r.is_expression_fault(),
            r.is_type_fault(),
            r.is_dependency_fault(),
            r.is_frontier_fault(),
            r.is_commit_fault(),
        );
        assert_eq!(&got, e);
    }
}

#[test]
fn build_error_wraps_validation_errors() {
    let v = InputValidationError::UndeclaredInput { name: "x".to_string() };
    let b: FiniteDecisionBuildError = v.clone().into();
    assert_eq!(b, FiniteDecisionBuildError::InputValidation(v));
}

#[test]
fn helper_recursion_is_found_through_bodies() {
    let fs = vec![
        function(0, "even", L3ExprV2::Match {
            scrutinee: Box::new(L3ExprV2::LetRef("n".to_string())),
            arms: vec![(L3PatternV2::Ctor { variant: "true".to_string(), binders: vec![] }, call("odd", vec![]))],
        }),
        function(1, "odd", call("even", vec![])),
        function(2, "leaf", L3ExprV2::Int(0)),
    ];
    assert_eq!(
        check_helper_recursion(&fs),
        Err(FiniteDecisionLowerError::FunctionCycle {
            func: "odd".to_string(),
            cycle: vec!["even".to_string(), "odd".to_string(), "even".to_string()],
        })
    );
    let ok = vec![function(0, "a", call("b", vec![])), function(1, "b", L3ExprV2::Int(1))];
    assert_eq!(check_helper_recursion(&ok), Ok(()));
    let g = helper_call_graph(&ok);
    assert_eq!(g.len(), 2);
    assert_eq!(names_of(g.get("a").unwrap()), vec!["b"]);
    assert_eq!(g.get("b").unwrap().len(), 0);
}

#[test]
fn commit_candidates_must_name_proposals() {
    let mut plan = plan_with(vec![], vec![]);
    assert_eq!(plan.check_commit_candidates(), Ok(()));
    plan.commit.candidates = vec!["approve".to_string(), "defer".to_string(), "later".to_string()];
    assert_eq!(
        plan.check_commit_candidates(),
        Err(FiniteDecisionLowerError::UnknownCandidateInCommit {
            commit: "decide".to_string(),
            candidate: "defer".to_string(),
        })
    );
}
