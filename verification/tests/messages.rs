use brix_lower::finite_decision::plan::{FiniteDecisionLowerError, Grade};
use brix_lower::finite_decision::runtime::{FiniteDecisionBuildError, FiniteDecisionUnknownReason};
use brix_lower::input::{InputDecodeError, InputError, InputValidationError};
use brix_lower::l3_v2::{ArithOpV2, EvalFault, L3V2LowerError, L3ValueType};

fn lower_errors() -> Vec<L3V2LowerError> {
    vec![
        L3V2LowerError::ProfileMismatch { expected: "a@1".to_string(), found: "b \"q\"".to_string() },
        L3V2LowerError::ItemNotAllowed("fn".to_string()),
        L3V2LowerError::UndeclaredDependency { rule: "r".to_string(), param: "p".to_string() },
        L3V2LowerError::UndeclaredFactRead { rule: "r".to_string(), fact: "f".to_string() },
        L3V2LowerError::ForwardOrSelfDependency { rule: "r".to_string(), depends_on: "s".to_string() },
        L3V2LowerError::UnresolvedReference("x".to_string()),
        L3V2LowerError::NonExhaustiveMatch { sum: "Color".to_string(), missing: vec!["Red".to_string(), "Bl\\ue".to_string()] },
        L3V2LowerError::NonExhaustiveMatch { sum: "E".to_string(), missing: vec![] },
        L3V2LowerError::DefaultArmNotAllowed,
        L3V2LowerError::NestedPatternNotAllowed,
        L3V2LowerError::DivisionNotAllowed,
        L3V2LowerError::FloatLiteralNotAllowed("1.5".to_string()),
        L3V2LowerError::IntegerOverflow("99999999999999999999".to_string()),
        L3V2LowerError::Unsupported("loops\n".to_string()),
        L3V2LowerError::FunctionArityMismatch { func: "f".to_string(), expected: 2, found: 10 },
        L3V2LowerError::DuplicateMatchBinder("v".to_string()),
    ]
}

fn faults() -> Vec<EvalFault> {
    vec![
        EvalFault::Overflow(ArithOpV2::Mul),
        EvalFault::Unbound("x".to_string()),
        EvalFault::NoSuchField("f\t".to_string()),
        EvalFault::NoMatchingArm,
        EvalFault::OperandShape("arithmetic requires Int operands"),
        EvalFault::CallDepthExceeded { limit: 64, func: "g".to_string() },
        EvalFault::ResourceExhausted { limit: 10000, detail: "value node budget exhausted".to_string() },
        EvalFault::ContractViolation {
            func: "f".to_string(),
            param: Some("x".to_string()),
            expected: "Int".to_string(),
            found: "Str".to_string(),
            path: None,
        },
        EvalFault::ContractViolation {
            func: "f".to_string(),
            param: None,
            expected: "Box".to_string(),
            found: "Record(Box)".to_string(),
            path: Some("<root>.n: expected Int, found primitive".to_string()),
        },
    ]
}

#[test]
fn debug_renderings_agree_with_the_derived_formats() {
    for e in lower_errors() {
        assert_eq!(e.to_debug_string(), format!("{:?}", e));
    }
    for f in faults() {
        assert_eq!(f.to_debug_string(), format!("{:?}", f));
    }
}

#[test]
fn lowering_error_texts() {
    let e = L3V2LowerError::NonExhaustiveMatch { sum: "Color".to_string(), missing: vec!["Red".to_string()] };
    assert_eq!(e.to_display_string(), "non-exhaustive match on 'Color', missing: [\"Red\"]");
    let e = L3V2LowerError::FunctionArityMismatch { func: "f".to_string(), expected: 2, found: 10 };
    assert_eq!(e.to_display_string(), "function 'f' expected 2 argument(s), found 10");
}

#[test]
fn fault_texts() {
    assert_eq!(EvalFault::Overflow(ArithOpV2::Add).to_display_string(), "arithmetic overflow (Add)");
    let f = faults();
    assert_eq!(f[5].to_display_string(), "call depth limit (64) exceeded calling 'g'");
    assert_eq!(
        f[7].to_display_string(),
        "contract violation in function 'f' for parameter 'x': expected Int, found Str"
    );
    assert_eq!(
        f[8].to_display_string(),
        "return contract violation in function 'f' at <root>.n: expected Int, found primitive: expected Box, found Record(Box)"
    );
}

#[test]
fn input_error_texts() {
    assert_eq!(
        InputDecodeError::FileTooLarge { limit: 10, found: 12 }.to_display_string(),
        "input file size (12 bytes) exceeds limit (10 bytes)"
    );
    assert_eq!(
        InputDecodeError::DuplicateKey { key: "a".to_string(), offset: 7 }.to_display_string(),
        "duplicate JSON key 'a' at byte offset 7"
    );
    assert_eq!(
        InputDecodeError::InvalidType { expected: "string for string value", found: "bool".to_string(), offset: 3 }
            .to_display_string(),
        "invalid type at offset 3: expected string for string value, found 'bool'"
    );
    assert_eq!(InputDecodeError::UnexpectedEof.to_display_string(), "unexpected end of JSON input");
    assert_eq!(
        InputError::Decode(InputDecodeError::MissingField("schema")).to_display_string(),
        "decode error: missing required field 'schema'"
    );
    assert_eq!(
        InputError::TotalInputCountExceeded { limit: 1, found: 2 }.to_display_string(),
        "total input count (2) exceeds limit (1)"
    );
    assert_eq!(
        InputValidationError::TypeMismatch {
            name: "age".to_string(),
            declared: L3ValueType::Int,
            supplied: L3ValueType::Sum("S".to_string()),
        }
        .to_display_string(),
        "type mismatch for input 'age': declared Int, supplied Sum(S)"
    );
}

#[test]
fn finite_decision_error_texts() {
    let cycle = FiniteDecisionLowerError::FunctionCycle {
        func: "b".to_string(),
        cycle: vec!["a".to_string(), "b".to_string(), "a".to_string()],
    };
    assert_eq!(cycle.to_display_string(), "function cycle detected involving 'b': a -> b -> a");
    let grade = FiniteDecisionLowerError::UnsupportedContractGrade { grade: Grade::Proven, detail: "no".to_string() };
    assert_eq!(grade.to_display_string(), "unsupported contract grade 'Proven': no");
    assert_eq!(grade.to_display_string(), format!("unsupported contract grade '{:?}': no", Grade::Proven));
    let nested = FiniteDecisionLowerError::ExprError(L3V2LowerError::DivisionNotAllowed);
    assert_eq!(nested.to_display_string(), "expression lowering error: DivisionNotAllowed");
    let many = FiniteDecisionLowerError::TooManyFunctionParams { func: "f".to_string(), limit: 32, count: 33 };
    assert_eq!(many.to_display_string(), "parameter count in function 'f' exceeds limit (33 > 32)");
    let r = FiniteDecisionUnknownReason::ExpressionEvaluationFault {
        context: "rule r".to_string(),
        fault: EvalFault::Unbound("x".to_string()),
    };
    assert_eq!(r.to_display_string(), "expression evaluation fault in rule r: Unbound(\"x\")");
    let p = FiniteDecisionUnknownReason::InvalidPhase { candidate: "c".to_string(), phase: 3 };
    assert_eq!(p.to_display_string(), "candidate 'c' declared invalid non-zero phase 3");
    let b = FiniteDecisionBuildError::InputValidation(InputValidationError::UndeclaredInput { name: "z".to_string() });
    assert_eq!(b.to_display_string(), "input validation failed: supplied input 'z' is not declared in the program");
}
