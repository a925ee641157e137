use std::sync::Arc;

use brix_lower::keymap::KeyMap;
use brix_lower::l3_v2::budget::EvalBudget;
use brix_lower::l3_v2::eval::{eval, EvalEnv};
use brix_lower::l3_v2::exhaustive::check_exhaustive;
use brix_lower::l3_v2::runner::{run_l3_plan_v2, CommittedFactV2, RunStopV2};
use brix_lower::l3_v2::{
    type_of_value, validate_l3_value, ArithOpV2, CmpOpV2, EvalFault, L3ConfigBodyV2, L3ConfigDeclV2, L3ExprV2,
    L3FunctionDef, L3PatternV2, L3PlanItemV2, L3PlanV2, L3Schema, L3SchemaBody, L3SchemaType, L3V2LowerError,
    L3ValueType, L3ValueV2, L3_PLAN_FORMAT_V2, L3_PROFILE_MARKER_V2,
};

fn num(n: i64) -> L3ExprV2 {
    L3ExprV2::Int(n)
}

fn var(n: &str) -> L3ExprV2 {
    L3ExprV2::LetRef(n.to_string())
}

fn arith(op: ArithOpV2, a: L3ExprV2, b: L3ExprV2) -> L3ExprV2 {
    L3ExprV2::Arith(op, Box::new(a), Box::new(b))
}

fn cmp(op: CmpOpV2, a: L3ExprV2, b: L3ExprV2) -> L3ExprV2 {
    L3ExprV2::Cmp(op, Box::new(a), Box::new(b))
}

fn arm(variant: &str, binders: Vec<Option<&str>>, body: L3ExprV2) -> (L3PatternV2, L3ExprV2) {
    (
        L3PatternV2::Ctor {
            variant: variant.to_string(),
            binders: binders.into_iter().map(|b| b.map(|s| s.to_string())).collect(),
        },
        body,
    )
}

fn rule(name: &str, deps: Vec<&str>, body: L3ExprV2) -> L3PlanItemV2 {
    L3PlanItemV2::Rule { name: name.to_string(), body, depends_on: deps.into_iter().map(|d| d.to_string()).collect() }
}

fn plan(items: Vec<L3PlanItemV2>) -> L3PlanV2 {
    L3PlanV2 { profile: L3_PROFILE_MARKER_V2.to_string(), format: L3_PLAN_FORMAT_V2, items }
}

fn double_fn() -> L3FunctionDef {
    L3FunctionDef {
        name: "double".to_string(),
        params: vec![("x".to_string(), Some(L3SchemaType::Int))],
        ret_contract: Some(L3SchemaType::Int),
        schemas: Arc::new(KeyMap::new()),
        body: arith(ArithOpV2::Mul, var("x"), num(2)),
    }
}

#[test]
fn arithmetic_is_checked() {
    let env = EvalEnv::new();
    assert_eq!(eval(&arith(ArithOpV2::Add, num(40), num(2)), &env), Ok(L3ValueV2::Int(42)));
    assert_eq!(eval(&arith(ArithOpV2::Sub, num(1), num(3)), &env), Ok(L3ValueV2::Int(-2)));
    assert_eq!(
        eval(&arith(ArithOpV2::Add, num(i64::MAX), num(1)), &env),
        Err(EvalFault::Overflow(ArithOpV2::Add))
    );
    assert_eq!(
        eval(&arith(ArithOpV2::Mul, num(i64::MIN), num(-1)), &env),
        Err(EvalFault::Overflow(ArithOpV2::Mul))
    );
    assert_eq!(
        eval(&arith(ArithOpV2::Add, L3ExprV2::Bool(true), num(1)), &env),
        Err(EvalFault::OperandShape("arithmetic requires Int operands"))
    );
}

#[test]
fn left_operand_fault_is_reported_first() {
    let env = EvalEnv::new();
    let e = arith(ArithOpV2::Add, var("missing"), arith(ArithOpV2::Add, num(i64::MAX), num(1)));
    assert_eq!(eval(&e, &env), Err(EvalFault::Unbound("missing".to_string())));
}

#[test]
fn comparisons_order_ints_and_compare_values_structurally() {
    let env = EvalEnv::new();
    assert_eq!(eval(&cmp(CmpOpV2::Lt, num(1), num(2)), &env), Ok(L3ValueV2::Bool(true)));
    assert_eq!(eval(&cmp(CmpOpV2::Ge, num(1), num(2)), &env), Ok(L3ValueV2::Bool(false)));
    let s = |t: &str| L3ExprV2::Str(t.to_string());
    assert_eq!(eval(&cmp(CmpOpV2::Eq, s("a"), s("a")), &env), Ok(L3ValueV2::Bool(true)));
    assert_eq!(eval(&cmp(CmpOpV2::Ne, s("a"), num(1)), &env), Ok(L3ValueV2::Bool(true)));
    assert_eq!(
        eval(&cmp(CmpOpV2::Lt, s("a"), s("b")), &env),
        Err(EvalFault::OperandShape("ordering comparison requires Int operands"))
    );
}

#[test]
fn names_resolve_locals_then_lets_then_inputs_and_facts_separately() {
    let env = EvalEnv::new()
        .with_input("x", L3ValueV2::Int(1))
        .with_let("x", L3ValueV2::Int(2))
        .with_input("y", L3ValueV2::Int(3))
        .with_fact("r", L3ValueV2::Bool(true));
    assert_eq!(eval(&var("x"), &env), Ok(L3ValueV2::Int(2)));
    assert_eq!(eval(&var("y"), &env), Ok(L3ValueV2::Int(3)));
    assert_eq!(eval(&L3ExprV2::RuleFact("r".to_string()), &env), Ok(L3ValueV2::Bool(true)));
    assert_eq!(eval(&var("r"), &env), Err(EvalFault::Unbound("r".to_string())));
    assert!(env.satisfies(&["r".to_string()]));
    assert!(!env.satisfies(&["r".to_string(), "s".to_string()]));
    assert_eq!(env.inputs().len(), 2);
}

#[test]
fn records_project_fields() {
    let env = EvalEnv::new();
    let rec = L3ExprV2::Record {
        nominal_config: "P".to_string(),
        fields: vec![("a".to_string(), num(1)), ("b".to_string(), num(2))],
    };
    let fld = |e: L3ExprV2, f: &str| L3ExprV2::Field(Box::new(e), f.to_string());
    let copy = |e: &L3ExprV2| e.copy_expr();
    assert_eq!(eval(&fld(copy(&rec), "b"), &env), Ok(L3ValueV2::Int(2)));
    assert_eq!(eval(&fld(copy(&rec), "c"), &env), Err(EvalFault::NoSuchField("c".to_string())));
    assert_eq!(eval(&fld(num(1), "a"), &env), Err(EvalFault::NoSuchField("a".to_string())));
}

#[test]
fn match_binds_payloads_and_refuses_missing_arms() {
    let env = EvalEnv::new();
    let some = L3ExprV2::Ctor { nominal_sum: "Opt".to_string(), variant: "Some".to_string(), args: vec![num(5)] };
    let m = L3ExprV2::Match {
        scrutinee: Box::new(some),
        arms: vec![arm("None", vec![], num(0)), arm("Some", vec![Some("v")], arith(ArithOpV2::Add, var("v"), num(1)))],
    };
    assert_eq!(eval(&m, &env), Ok(L3ValueV2::Int(6)));
    let b = L3ExprV2::Match { scrutinee: Box::new(L3ExprV2::Bool(false)), arms: vec![arm("true", vec![], num(1))] };
    assert_eq!(eval(&b, &env), Err(EvalFault::NoMatchingArm));
    let bad = L3ExprV2::Match { scrutinee: Box::new(num(3)), arms: vec![] };
    assert_eq!(eval(&bad, &env), Err(EvalFault::OperandShape("match requires a sum value")));
}

#[test]
fn functions_run_in_a_closed_environment_with_contracts() {
    let env = EvalEnv::new().with_function("double", double_fn()).with_let("x", L3ValueV2::Int(100));
    let call = |a: L3ExprV2| L3ExprV2::Call { func: "double".to_string(), args: vec![a] };
    assert_eq!(eval(&call(num(21)), &env), Ok(L3ValueV2::Int(42)));
    assert_eq!(
        eval(&call(L3ExprV2::Str("s".to_string())), &env),
        Err(EvalFault::ContractViolation {
            func: "double".to_string(),
            param: Some("x".to_string()),
            expected: "Int".to_string(),
            found: "Str".to_string(),
            path: None,
        })
    );
    let unknown = L3ExprV2::Call { func: "triple".to_string(), args: vec![] };
    assert_eq!(eval(&unknown, &env), Err(EvalFault::Unbound("triple".to_string())));
    let arity = L3ExprV2::Call { func: "double".to_string(), args: vec![] };
    assert_eq!(eval(&arity, &env), Err(EvalFault::OperandShape("function arity mismatch")));
}

#[test]
fn runaway_recursion_is_stopped() {
    let forever = L3FunctionDef {
        name: "loop".to_string(),
        params: vec![],
        ret_contract: None,
        schemas: Arc::new(KeyMap::new()),
        body: L3ExprV2::Call { func: "loop".to_string(), args: vec![] },
    };
    let env = EvalEnv::new().with_function("loop", forever);
    let r = eval(&L3ExprV2::Call { func: "loop".to_string(), args: vec![] }, &env);
    assert!(matches!(r, Err(EvalFault::CallDepthExceeded { .. }) | Err(EvalFault::ResourceExhausted { .. })));
}

#[test]
fn runner_commits_rules_in_dependency_order() {
    let p = plan(vec![
        L3PlanItemV2::Let { name: "a".to_string(), value: num(1) },
        rule("second", vec!["first"], arith(ArithOpV2::Mul, L3ExprV2::RuleFact("first".to_string()), num(10))),
        rule("first", vec![], arith(ArithOpV2::Add, var("a"), num(1))),
    ]);
    let run = run_l3_plan_v2(&p);
    assert_eq!(
        run.facts,
        vec![
            CommittedFactV2 { ordinal: 0, rule: "first".to_string(), value: L3ValueV2::Int(2), depends_on: vec![] },
            CommittedFactV2 {
                ordinal: 1,
                rule: "second".to_string(),
                value: L3ValueV2::Int(20),
                depends_on: vec!["first".to_string()],
            },
        ]
    );
    assert_eq!(run.stop, RunStopV2::AllRulesCommitted);
}

#[test]
fn runner_stops_on_the_first_fault() {
    let p = plan(vec![rule("ok", vec![], num(1)), rule("bad", vec![], var("nope")), rule("later", vec![], num(3))]);
    let run = run_l3_plan_v2(&p);
    assert_eq!(run.facts.len(), 1);
    assert_eq!(run.stop, RunStopV2::Faulted { rule: "bad".to_string(), fault: EvalFault::Unbound("nope".to_string()) });
}

#[test]
fn runner_reports_rules_left_without_eligible_dependencies() {
    let p = plan(vec![rule("a", vec!["ghost"], num(1)), rule("b", vec![], num(2))]);
    let run = run_l3_plan_v2(&p);
    assert_eq!(run.facts.len(), 1);
    assert_eq!(run.stop, RunStopV2::NoEligibleRule { pending: vec!["a".to_string()] });
}

#[test]
fn a_faulting_let_stops_before_any_rule() {
    let p = plan(vec![L3PlanItemV2::Let { name: "z".to_string(), value: var("q") }, rule("a", vec![], num(1))]);
    let run = run_l3_plan_v2(&p);
    assert!(run.facts.is_empty());
    assert_eq!(run.stop, RunStopV2::Faulted { rule: "z".to_string(), fault: EvalFault::Unbound("q".to_string()) });
}

#[test]
fn exhaustiveness_names_the_missing_variants() {
    let color = L3PlanItemV2::Config(L3ConfigDeclV2 {
        name: "Color".to_string(),
        body: L3ConfigBodyV2::Sum(vec![("Red".to_string(), 0), ("Green".to_string(), 0), ("Blue".to_string(), 0)]),
    });
    let scrut = L3ExprV2::NullaryVariant { nominal_sum: "Color".to_string(), variant: "Red".to_string() };
    let m = L3ExprV2::Match { scrutinee: Box::new(scrut), arms: vec![arm("Green", vec![], num(1))] };
    let p = plan(vec![color, rule("r", vec![], m)]);
    assert_eq!(
        check_exhaustive(&p),
        Err(L3V2LowerError::NonExhaustiveMatch {
            sum: "Color".to_string(),
            missing: vec!["Red".to_string(), "Blue".to_string()],
        })
    );
}

#[test]
fn boolean_matches_must_cover_both_cases() {
    let m = L3ExprV2::Match { scrutinee: Box::new(L3ExprV2::Bool(true)), arms: vec![arm("true", vec![], num(1))] };
    let p = plan(vec![rule("r", vec![], m)]);
    assert_eq!(
        check_exhaustive(&p),
        Err(L3V2LowerError::NonExhaustiveMatch { sum: "Bool".to_string(), missing: vec!["false".to_string()] })
    );
    let full = L3ExprV2::Match {
        scrutinee: Box::new(L3ExprV2::Bool(true)),
        arms: vec![arm("true", vec![], num(1)), arm("false", vec![], num(0))],
    };
    assert_eq!(check_exhaustive(&plan(vec![rule("r", vec![], full)])), Ok(()));
    let empty = L3ExprV2::Match { scrutinee: Box::new(L3ExprV2::Bool(true)), arms: vec![] };
    assert_eq!(
        check_exhaustive(&plan(vec![rule("r", vec![], empty)])),
        Err(L3V2LowerError::NonExhaustiveMatch { sum: "<empty match>".to_string(), missing: vec![] })
    );
}

#[test]
fn unknown_sums_are_left_alone() {
    let m = L3ExprV2::Match { scrutinee: Box::new(num(0)), arms: vec![arm("Mystery", vec![], num(1))] };
    assert_eq!(check_exhaustive(&plan(vec![rule("r", vec![], m)])), Ok(()));
}

#[test]
fn schema_validation_reports_paths() {
    let mut schemas = KeyMap::new();
    let mut fields = KeyMap::new();
    fields.insert("n".to_string(), L3SchemaType::Int);
    schemas.insert("Box".to_string(), L3Schema { name: "Box".to_string(), body: L3SchemaBody::Record(fields) });
    let good = L3ValueV2::Record { nominal_config: "Box".to_string(), fields: vec![("n".to_string(), L3ValueV2::Int(1))] };
    assert_eq!(validate_l3_value(&good, &L3SchemaType::Named("Box".to_string()), &schemas, "<root>"), Ok(()));
    let bad = L3ValueV2::Record {
        nominal_config: "Box".to_string(),
        fields: vec![("n".to_string(), L3ValueV2::Str("x".to_string()))],
    };
    assert_eq!(
        validate_l3_value(&bad, &L3SchemaType::Named("Box".to_string()), &schemas, "<root>"),
        Err("<root>.n: expected Int, found primitive".to_string())
    );
    assert_eq!(
        validate_l3_value(&L3ValueV2::Int(1), &L3SchemaType::Named("Nope".to_string()), &schemas, "p"),
        Err("p: expected Nope, found primitive".to_string())
    );
    assert_eq!(
        validate_l3_value(&good, &L3SchemaType::Named("Nope".to_string()), &schemas, "p"),
        Err("p: unknown schema 'Nope'".to_string())
    );
}

#[test]
fn type_categories_and_display_names() {
    assert_eq!(type_of_value(&L3ValueV2::Bool(true)), L3ValueType::Bool);
    let c = L3ValueV2::Ctor { nominal_sum: "S".to_string(), variant: "V".to_string(), args: vec![] };
    assert_eq!(type_of_value(&c), L3ValueType::Sum("S".to_string()));
    assert_eq!(L3SchemaType::Named("X".to_string()).display_name(), "X");
    assert_eq!(L3SchemaType::Bool.display_name(), "Bool");
    assert_eq!(ArithOpV2::Mul.ordinal(), 2);
    assert_eq!(CmpOpV2::Ne.ordinal(), 5);
}

#[test]
fn helper_results_do_not_depend_on_the_callers_scope() {
    let call = L3ExprV2::Call { func: "double".to_string(), args: vec![num(5)] };
    let plain = EvalEnv::new().with_function("double", double_fn());
    let busy = EvalEnv::new()
        .with_function("double", double_fn())
        .with_input("x", L3ValueV2::Str("input".to_string()))
        .with_let("x", L3ValueV2::Int(-1))
        .with_fact("x", L3ValueV2::Bool(false));
    assert_eq!(eval(&call, &plain), Ok(L3ValueV2::Int(10)));
    assert_eq!(eval(&call, &plain), eval(&call, &busy));
}

#[test]
fn helper_results_with_string_and_boolean_arguments_do_not_depend_on_the_callers_scope() {
    let echo = L3FunctionDef {
        name: "echo".to_string(),
        params: vec![("s".to_string(), Some(L3SchemaType::Str)), ("b".to_string(), Some(L3SchemaType::Bool))],
        ret_contract: Some(L3SchemaType::Str),
        schemas: Arc::new(KeyMap::new()),
        body: var("s"),
    };
    let call = L3ExprV2::Call {
        func: "echo".to_string(),
        args: vec![L3ExprV2::Str("hi".to_string()), L3ExprV2::Bool(true)],
    };
    let plain = EvalEnv::new().with_function("echo", echo.clone());
    let busy = EvalEnv::new()
        .with_function("echo", echo)
        .with_input("s", L3ValueV2::Str("input".to_string()))
        .with_let("b", L3ValueV2::Int(-1))
        .with_fact("s", L3ValueV2::Bool(false));
    assert_eq!(eval(&call, &plain), Ok(L3ValueV2::Str("hi".to_string())));
    assert_eq!(eval(&call, &plain), eval(&call, &busy));
}

#[test]
fn a_step_tick_counts_and_reports_exhaustion_on_any_budget() {
    let mut b = EvalBudget::fresh();
    b.max_steps = 1;
    assert_eq!(b.tick_step(), Ok(()));
    assert_eq!(b.steps, 1);
    assert_eq!(
        b.tick_step(),
        Err(EvalFault::ResourceExhausted { limit: 1, detail: "evaluation step limit exceeded".to_string() })
    );
    assert_eq!(b.steps, 2);
    let mut over = EvalBudget::fresh();
    over.steps = 7;
    over.max_steps = 3;
    assert!(matches!(over.tick_step(), Err(EvalFault::ResourceExhausted { limit: 3, .. })));
    assert_eq!((over.steps, over.max_steps), (8, 3));
}

#[test]
fn helper_results_ignore_the_callers_schemas_too() {
    let call = L3ExprV2::Call { func: "double".to_string(), args: vec![num(4)] };
    let plain = EvalEnv::default().with_function("double", double_fn());
    let mut schemas = KeyMap::new();
    schemas.insert(
        "S".to_string(),
        L3Schema { name: "S".to_string(), body: L3SchemaBody::Sum(vec![("A".to_string(), vec![])]) },
    );
    let busy = plain.clone().with_schemas(Arc::new(schemas)).with_let("x", L3ValueV2::Int(9));
    assert_eq!(eval(&call, &plain), Ok(L3ValueV2::Int(8)));
    assert_eq!(eval(&call, &plain), eval(&call, &busy));
    assert!(EvalEnv::default().inputs().is_empty());
}

#[test]
fn only_recorded_facts_satisfy_dependencies() {
    let deps = vec!["r".to_string(), "q".to_string()];
    let env = EvalEnv::new()
        .with_input("r", L3ValueV2::Int(1))
        .with_let("q", L3ValueV2::Int(2))
        .with_function("double", double_fn());
    assert!(env.satisfies(&[]));
    assert!(!env.satisfies(&deps));
    let env = env.with_fact("r", L3ValueV2::Int(3));
    assert!(env.satisfies(&deps[..1]));
    assert!(!env.satisfies(&deps));
    let env = env.with_fact("q", L3ValueV2::Bool(true)).with_input("z", L3ValueV2::Int(0));
    assert!(env.satisfies(&deps));
}

#[test]
fn a_stored_value_reads_back_with_or_without_a_budget() {
    let rebound = EvalEnv::new().with_let("x", L3ValueV2::Int(1)).with_let("x", L3ValueV2::Int(7));
    assert_eq!(eval(&var("x"), &rebound), Ok(L3ValueV2::Int(7)));
    let budgeted = EvalEnv::new()
        .with_function("double", double_fn())
        .with_input("n", L3ValueV2::Str("seed".to_string()))
        .with_fact("r", L3ValueV2::Int(-4));
    assert_eq!(eval(&var("n"), &budgeted), Ok(L3ValueV2::Str("seed".to_string())));
    assert_eq!(eval(&L3ExprV2::RuleFact("r".to_string()), &budgeted), Ok(L3ValueV2::Int(-4)));
}

#[test]
fn a_stored_value_larger_than_one_read_runs_out_of_the_budget() {
    let big = L3ValueV2::Str("x".repeat(2_000_000));
    let unbudgeted = EvalEnv::new().with_input("n", big.clone());
    assert_eq!(eval(&var("n"), &unbudgeted), Ok(big.clone()));
    let budgeted = EvalEnv::new().with_function("double", double_fn()).with_input("n", big);
    assert!(matches!(eval(&var("n"), &budgeted), Err(EvalFault::ResourceExhausted { .. })));
}

#[test]
fn copies_of_expressions_and_patterns_are_equal_to_their_source() {
    let e = L3ExprV2::Match {
        scrutinee: Box::new(L3ExprV2::Ctor {
            nominal_sum: "Opt".to_string(),
            variant: "Some".to_string(),
            args: vec![arith(ArithOpV2::Add, num(1), var("x"))],
        }),
        arms: vec![
            arm("Some", vec![Some("v"), None], L3ExprV2::Record {
                nominal_config: "Cfg".to_string(),
                fields: vec![("a".to_string(), L3ExprV2::Field(Box::new(var("r")), "b".to_string()))],
            }),
            arm("None", vec![], L3ExprV2::Call { func: "f".to_string(), args: vec![L3ExprV2::Bool(true)] }),
        ],
    };
    assert_eq!(e.copy_expr(), e);
    assert_eq!(e.clone(), e);
    let (p, _) = arm("Some", vec![Some("v"), None], num(0));
    assert_eq!(p.copy_pattern(), p);
}

#[test]
fn unused_arguments_still_evaluate_and_their_faults_stop_the_call() {
    let ignore = L3FunctionDef {
        name: "one".to_string(),
        params: vec![("unused".to_string(), None)],
        ret_contract: None,
        schemas: Arc::new(KeyMap::new()),
        body: num(1),
    };
    let env = EvalEnv::new().with_function("one", ignore);
    let call = |a: L3ExprV2| L3ExprV2::Call { func: "one".to_string(), args: vec![a] };
    assert_eq!(eval(&call(num(5)), &env), Ok(L3ValueV2::Int(1)));
    assert_eq!(
        eval(&call(arith(ArithOpV2::Add, num(i64::MAX), num(1))), &env),
        Err(EvalFault::Overflow(ArithOpV2::Add))
    );
}
