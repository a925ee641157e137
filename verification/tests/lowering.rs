use brix_lower::keymap::KeyMap;
use brix_lower::l3_v2::lower::{
    float_literal, lower_expr_v2, lower_pattern_v2, parse_int_literal, SurfaceArm, SurfaceBinOp, SurfaceExpr,
    SurfacePattern,
};
use brix_lower::l3_v2::{ArithOpV2, CmpOpV2, L3ExprV2, L3PatternV2, L3V2LowerError};

fn names(ns: &[&str]) -> KeyMap<()> {
    let mut m = KeyMap::new();
    for n in ns {
        m.insert(n.to_string(), ());
    }
    m
}

fn sums(pairs: &[(&str, &str)]) -> KeyMap<String> {
    let mut m = KeyMap::new();
    for (k, v) in pairs {
        m.insert(k.to_string(), v.to_string());
    }
    m
}

struct Scope {
    lets: KeyMap<()>,
    locals: KeyMap<()>,
    rules: KeyMap<()>,
    nullary: KeyMap<String>,
    variants_of: KeyMap<String>,
    functions: KeyMap<usize>,
    records: Vec<(String, Vec<String>)>,
}

fn scope() -> Scope {
    let mut functions = KeyMap::new();
    functions.insert("enough".to_string(), 2usize);
    Scope {
        lets: names(&["limit", "Ship"]),
        locals: names(&[]),
        rules: names(&["stock"]),
        nullary: sums(&[("Ship", "Decision"), ("Hold", "Decision")]),
        variants_of: sums(&[("MkBox", "Box")]),
        functions,
        records: vec![("Item".to_string(), vec!["b".to_string(), "c".to_string(), "a".to_string()])],
    }
}

fn lower(e: &SurfaceExpr, in_rule: bool, helpers: bool) -> Result<L3ExprV2, L3V2LowerError> {
    let s = scope();
    lower_expr_v2(e, &s.lets, &s.locals, &s.rules, &s.nullary, &s.variants_of, &s.functions, &s.records, in_rule, helpers)
}

fn num(s: &str) -> SurfaceExpr {
    SurfaceExpr::Num(s.to_string())
}

fn var(s: &str) -> SurfaceExpr {
    SurfaceExpr::Var(s.to_string())
}

fn ctor(name: &str, args: Vec<SurfacePattern>) -> SurfacePattern {
    SurfacePattern::Ctor { name: name.to_string(), args }
}

#[test]
fn integer_literals_parse_as_i64_does() {
    assert_eq!(parse_int_literal("42"), Some(42));
    assert_eq!(parse_int_literal("+7"), Some(7));
    assert_eq!(parse_int_literal("-007"), Some(-7));
    assert_eq!(parse_int_literal("-9223372036854775808"), Some(i64::MIN));
    assert_eq!(parse_int_literal("9223372036854775808"), None);
    assert_eq!(parse_int_literal(""), None);
    assert_eq!(parse_int_literal("-"), None);
    assert_eq!(parse_int_literal("1_000"), None);
    assert_eq!(parse_int_literal(" 1"), None);
}

#[test]
fn float_syntax_follows_the_f64_grammar() {
    for ok in ["1.5", "1.", ".5", "1e5", "-2.5E-3", "inf", "+Infinity", "NaN", "7"] {
        assert!(float_literal(ok), "{ok}");
        assert_eq!(float_literal(ok), ok.parse::<f64>().is_ok(), "{ok}");
    }
    for bad in ["", ".", "e5", "1e", "1.2.3", "abc", "1e+", "infin", "--1"] {
        assert!(!float_literal(bad), "{bad}");
        assert_eq!(float_literal(bad), bad.parse::<f64>().is_ok(), "{bad}");
    }
}

#[test]
fn numeric_literals_lower_to_ints_or_name_their_fault() {
    assert_eq!(lower(&num("12"), false, false), Ok(L3ExprV2::Int(12)));
    assert_eq!(lower(&num("1.5"), false, false), Err(L3V2LowerError::FloatLiteralNotAllowed("1.5".to_string())));
    // Out of range for i64 but still a float: refused as a float literal.
    assert_eq!(
        lower(&num("99999999999999999999"), false, false),
        Err(L3V2LowerError::FloatLiteralNotAllowed("99999999999999999999".to_string()))
    );
    assert_eq!(lower(&num("0x10"), false, false), Err(L3V2LowerError::IntegerOverflow("0x10".to_string())));
}

#[test]
fn names_resolve_by_profile_precedence() {
    // Without helpers a nullary constructor wins over a let of the same name.
    assert_eq!(
        lower(&var("Ship"), false, false),
        Ok(L3ExprV2::NullaryVariant { nominal_sum: "Decision".to_string(), variant: "Ship".to_string() })
    );
    assert_eq!(lower(&var("limit"), false, false), Ok(L3ExprV2::LetRef("limit".to_string())));
    // A rule's fact is readable only from a rule body.
    assert_eq!(lower(&var("stock"), true, false), Ok(L3ExprV2::RuleFact("stock".to_string())));
    assert_eq!(lower(&var("stock"), false, false), Err(L3V2LowerError::UnresolvedReference("stock".to_string())));
    assert_eq!(lower(&var("nowhere"), true, true), Err(L3V2LowerError::UnresolvedReference("nowhere".to_string())));
}

#[test]
fn match_binders_shadow_constructors_only_with_helpers() {
    let arm = |body: SurfaceExpr| SurfaceArm { pattern: ctor("MkBox", vec![SurfacePattern::Var("Hold".to_string())]), body };
    let e = SurfaceExpr::Match { scrutinee: Box::new(var("limit")), arms: vec![arm(var("Hold"))] };
    let expected_pattern = L3PatternV2::Ctor { variant: "MkBox".to_string(), binders: vec![Some("Hold".to_string())] };
    assert_eq!(
        lower(&e, false, true),
        Ok(L3ExprV2::Match {
            scrutinee: Box::new(L3ExprV2::LetRef("limit".to_string())),
            arms: vec![(expected_pattern.clone(), L3ExprV2::LetRef("Hold".to_string()))],
        })
    );
    assert_eq!(
        lower(&e, false, false),
        Ok(L3ExprV2::Match {
            scrutinee: Box::new(L3ExprV2::LetRef("limit".to_string())),
            arms: vec![(
                expected_pattern,
                L3ExprV2::NullaryVariant { nominal_sum: "Decision".to_string(), variant: "Hold".to_string() },
            )],
        })
    );
}

fn record(config: &str, fields: &[(&str, &str)]) -> SurfaceExpr {
    SurfaceExpr::Record {
        config: config.to_string(),
        fields: fields.iter().map(|(n, v)| (n.to_string(), num(v))).collect(),
    }
}

fn lowered_fields(fields: &[(&str, i64)]) -> Vec<(String, L3ExprV2)> {
    fields.iter().map(|(n, v)| (n.to_string(), L3ExprV2::Int(*v))).collect()
}

#[test]
fn record_fields_follow_the_declared_order_regardless_of_source_order() {
    // `Item` declares b, c, a.
    assert_eq!(
        lower(&record("Item", &[("a", "1"), ("c", "2"), ("b", "3")]), false, false),
        Ok(L3ExprV2::Record {
            nominal_config: "Item".to_string(),
            fields: lowered_fields(&[("b", 3), ("c", 2), ("a", 1)]),
        })
    );
    assert_eq!(
        lower(&record("Item", &[("b", "3"), ("c", "2"), ("a", "1")]), false, false),
        Ok(L3ExprV2::Record {
            nominal_config: "Item".to_string(),
            fields: lowered_fields(&[("b", 3), ("c", 2), ("a", 1)]),
        })
    );
}

#[test]
fn undeclared_record_fields_follow_the_declared_ones_in_source_order() {
    assert_eq!(
        lower(&record("Item", &[("z", "1"), ("a", "2"), ("y", "3"), ("a", "4")]), false, false),
        Ok(L3ExprV2::Record {
            nominal_config: "Item".to_string(),
            fields: lowered_fields(&[("a", 2), ("a", 4), ("z", 1), ("y", 3)]),
        })
    );
    // A config that declares no record keeps the source order.
    assert_eq!(
        lower(&record("Other", &[("b", "1"), ("a", "2")]), false, false),
        Ok(L3ExprV2::Record { nominal_config: "Other".to_string(), fields: lowered_fields(&[("b", 1), ("a", 2)]) })
    );
}

#[test]
fn calls_become_constructors_or_helper_calls() {
    let call = |f: &str, args: Vec<SurfaceExpr>| SurfaceExpr::Call { func: f.to_string(), args };
    assert_eq!(
        lower(&call("MkBox", vec![num("1")]), false, false),
        Ok(L3ExprV2::Ctor { nominal_sum: "Box".to_string(), variant: "MkBox".to_string(), args: vec![L3ExprV2::Int(1)] })
    );
    assert_eq!(
        lower(&call("enough", vec![var("limit"), num("3")]), false, true),
        Ok(L3ExprV2::Call {
            func: "enough".to_string(),
            args: vec![L3ExprV2::LetRef("limit".to_string()), L3ExprV2::Int(3)],
        })
    );
    assert_eq!(
        lower(&call("enough", vec![num("3")]), false, true),
        Err(L3V2LowerError::FunctionArityMismatch { func: "enough".to_string(), expected: 2, found: 1 })
    );
    assert_eq!(
        lower(&call("missing", vec![]), false, true),
        Err(L3V2LowerError::UnresolvedReference("missing".to_string()))
    );
    assert_eq!(
        lower(&call("MkBox", vec![num("1"), num("2.0")]), false, false),
        Err(L3V2LowerError::FloatLiteralNotAllowed("2.0".to_string()))
    );
}

#[test]
fn operators_map_to_checked_arithmetic_and_comparisons() {
    let bin = |op, l, r| SurfaceExpr::Bin { op, lhs: Box::new(l), rhs: Box::new(r) };
    assert_eq!(
        lower(&bin(SurfaceBinOp::Add, num("1"), num("2")), false, false),
        Ok(L3ExprV2::Arith(ArithOpV2::Add, Box::new(L3ExprV2::Int(1)), Box::new(L3ExprV2::Int(2))))
    );
    assert_eq!(
        lower(&bin(SurfaceBinOp::Ge, var("limit"), num("2")), false, false),
        Ok(L3ExprV2::Cmp(CmpOpV2::Ge, Box::new(L3ExprV2::LetRef("limit".to_string())), Box::new(L3ExprV2::Int(2))))
    );
    assert_eq!(lower(&bin(SurfaceBinOp::Div, num("1"), num("2")), false, false), Err(L3V2LowerError::DivisionNotAllowed));
    assert_eq!(
        lower(&bin(SurfaceBinOp::Div, var("nope"), num("2")), false, false),
        Err(L3V2LowerError::UnresolvedReference("nope".to_string()))
    );
    assert_eq!(
        lower(&bin(SurfaceBinOp::Then, num("1"), num("2")), false, false),
        Err(L3V2LowerError::Unsupported("witness composition has no executable meaning in v2".to_string()))
    );
    assert_eq!(lower(&SurfaceExpr::Prove(Box::new(SurfaceExpr::Bool(true))), false, false), Err(L3V2LowerError::Unsupported("prove".to_string())));
    assert_eq!(lower(&SurfaceExpr::Why(Box::new(SurfaceExpr::Bool(true))), false, false), Err(L3V2LowerError::Unsupported("why".to_string())));
    assert_eq!(lower(&SurfaceExpr::Audit(Box::new(SurfaceExpr::Bool(true))), false, false), Err(L3V2LowerError::Unsupported("audit".to_string())));
    assert_eq!(
        lower(&SurfaceExpr::Field(Box::new(var("limit")), "x".to_string()), false, false),
        Ok(L3ExprV2::Field(Box::new(L3ExprV2::LetRef("limit".to_string())), "x".to_string()))
    );
}

#[test]
fn patterns_refuse_defaults_nesting_and_repeated_binders() {
    let x = |n: &str| SurfacePattern::Var(n.to_string());
    assert_eq!(
        lower_pattern_v2(&ctor("Pair", vec![x("a"), SurfacePattern::Wildcard]), true),
        Ok(L3PatternV2::Ctor { variant: "Pair".to_string(), binders: vec![Some("a".to_string()), None] })
    );
    assert_eq!(lower_pattern_v2(&SurfacePattern::Wildcard, true), Err(L3V2LowerError::DefaultArmNotAllowed));
    assert_eq!(lower_pattern_v2(&x("a"), false), Err(L3V2LowerError::DefaultArmNotAllowed));
    assert_eq!(
        lower_pattern_v2(&ctor("Pair", vec![ctor("In", vec![])]), true),
        Err(L3V2LowerError::NestedPatternNotAllowed)
    );
    assert_eq!(
        lower_pattern_v2(&ctor("Pair", vec![x("a"), x("a")]), true),
        Err(L3V2LowerError::DuplicateMatchBinder("a".to_string()))
    );
    assert_eq!(
        lower_pattern_v2(&ctor("Pair", vec![x("a"), x("a")]), false),
        Ok(L3PatternV2::Ctor { variant: "Pair".to_string(), binders: vec![Some("a".to_string()), Some("a".to_string())] })
    );
}

