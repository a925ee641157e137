use brix_lower::keymap::KeyMap;
use brix_lower::l3::normalize::{normalize_static_value, type_ref_debug_text, NormEnv};
use brix_lower::l3::{L3ConfigBody, L3ConfigDecl, L3LowerError, L3TypeRef, L3ValueV1};
use brix_lower::l3_v2::lower::{SurfaceBinOp, SurfaceExpr};

fn env(self_name: Option<&str>) -> NormEnv {
    let mut configs = KeyMap::new();
    configs.insert(
        "Item".to_string(),
        L3ConfigDecl {
            name: "Item".to_string(),
            body: L3ConfigBody::Record(vec![
                ("name".to_string(), L3TypeRef::Str),
                ("count".to_string(), L3TypeRef::Int),
                ("kind".to_string(), L3TypeRef::Config("Kind".to_string())),
            ]),
        },
    );
    configs.insert(
        "Kind".to_string(),
        L3ConfigDecl {
            name: "Kind".to_string(),
            body: L3ConfigBody::Sum(vec![("A".to_string(), vec![]), ("Wrap".to_string(), vec![L3TypeRef::Int])]),
        },
    );
    let mut ctors = KeyMap::new();
    ctors.insert("A".to_string(), ("Kind".to_string(), 0usize));
    ctors.insert("Wrap".to_string(), ("Kind".to_string(), 1usize));
    let mut ambiguous_ctors = KeyMap::new();
    ambiguous_ctors.insert("Twice".to_string(), ());
    let mut closed_lets = KeyMap::new();
    closed_lets.insert("base".to_string(), L3ValueV1::Int(3));
    let mut all_let_names = KeyMap::new();
    for n in ["base", "later", "me"] {
        all_let_names.insert(n.to_string(), ());
    }
    NormEnv { configs, ctors, ambiguous_ctors, closed_lets, all_let_names, self_name: self_name.map(|s| s.to_string()) }
}

fn norm(e: &SurfaceExpr) -> Result<L3ValueV1, L3LowerError> {
    normalize_static_value(e, &env(Some("me")))
}

fn num(s: &str) -> SurfaceExpr {
    SurfaceExpr::Num(s.to_string())
}

fn var(s: &str) -> SurfaceExpr {
    SurfaceExpr::Var(s.to_string())
}

fn record(fields: Vec<(&str, SurfaceExpr)>) -> SurfaceExpr {
    SurfaceExpr::Record {
        config: "Item".to_string(),
        fields: fields.into_iter().map(|(n, e)| (n.to_string(), e)).collect(),
    }
}

#[test]
fn literals_normalize_to_closed_values() {
    assert_eq!(norm(&num("007")), Ok(L3ValueV1::Int(7)));
    assert_eq!(norm(&num("7")), norm(&num("007")));
    assert_eq!(norm(&num("1.0")), Err(L3LowerError::FloatLiteralNotAllowed("1.0".to_string())));
    assert_eq!(
        norm(&num("99999999999999999999")),
        Err(L3LowerError::IntegerOverflow("99999999999999999999".to_string()))
    );
    assert_eq!(norm(&SurfaceExpr::Str("line\n".to_string())), Ok(L3ValueV1::Str("line\n".to_string())));
    assert_eq!(norm(&SurfaceExpr::Bool(true)), Err(L3LowerError::BooleanLiteralNotAllowed));
}

#[test]
fn names_resolve_to_constructors_then_closed_lets() {
    assert_eq!(
        norm(&var("A")),
        Ok(L3ValueV1::NullaryVariant { nominal_sum: "Kind".to_string(), variant: "A".to_string() })
    );
    assert_eq!(norm(&var("Wrap")), Err(L3LowerError::PayloadBearingConstructor("Wrap".to_string())));
    assert_eq!(norm(&var("Twice")), Err(L3LowerError::AmbiguousConstructorReference("Twice".to_string())));
    assert_eq!(norm(&var("base")), Ok(L3ValueV1::Int(3)));
    assert_eq!(norm(&var("me")), Err(L3LowerError::RecursiveLetReference("me".to_string())));
    assert_eq!(norm(&var("later")), Err(L3LowerError::ForwardLetReference("later".to_string())));
    assert_eq!(norm(&var("ghost")), Err(L3LowerError::UnclosedReference("ghost".to_string())));
    assert_eq!(
        normalize_static_value(&var("me"), &env(None)),
        Err(L3LowerError::ForwardLetReference("me".to_string()))
    );
}

#[test]
fn records_follow_the_declaration_order_and_types() {
    let good = record(vec![("kind", var("A")), ("count", var("base")), ("name", SurfaceExpr::Str("x".to_string()))]);
    assert_eq!(
        norm(&good),
        Ok(L3ValueV1::Record {
            nominal_config: "Item".to_string(),
            fields: vec![
                ("name".to_string(), L3ValueV1::Str("x".to_string())),
                ("count".to_string(), L3ValueV1::Int(3)),
                (
                    "kind".to_string(),
                    L3ValueV1::NullaryVariant { nominal_sum: "Kind".to_string(), variant: "A".to_string() },
                ),
            ],
        })
    );
    let dup = record(vec![("name", num("1")), ("name", num("2"))]);
    assert_eq!(
        norm(&dup),
        Err(L3LowerError::DuplicateRecordLiteralField { config: "Item".to_string(), field: "name".to_string() })
    );
    let missing = record(vec![("name", SurfaceExpr::Str("x".to_string())), ("extra", num("1"))]);
    assert_eq!(
        norm(&missing),
        Err(L3LowerError::MissingRecordField { config: "Item".to_string(), field: "count".to_string() })
    );
    let unknown = record(vec![
        ("name", SurfaceExpr::Str("x".to_string())),
        ("count", num("1")),
        ("kind", var("A")),
        ("extra", num("1")),
    ]);
    assert_eq!(
        norm(&unknown),
        Err(L3LowerError::UnknownRecordField { config: "Item".to_string(), field: "extra".to_string() })
    );
    let mistyped = record(vec![("name", num("1")), ("count", num("1")), ("kind", var("A"))]);
    assert_eq!(
        norm(&mistyped),
        Err(L3LowerError::DeclaredTypeMismatch {
            name: "Item.name".to_string(),
            expected: "Str".to_string(),
            found: "Int".to_string(),
        })
    );
    let wrong_config = record(vec![("name", SurfaceExpr::Str("x".to_string())), ("count", num("1")), ("kind", num("2"))]);
    assert_eq!(
        norm(&wrong_config),
        Err(L3LowerError::DeclaredTypeMismatch {
            name: "Item.kind".to_string(),
            expected: "Config(\"Kind\")".to_string(),
            found: "Int".to_string(),
        })
    );
    let unknown_config = SurfaceExpr::Record { config: "Nope".to_string(), fields: vec![] };
    assert_eq!(norm(&unknown_config), Err(L3LowerError::UnknownTypeName("Nope".to_string())));
    let sum_config = SurfaceExpr::Record { config: "Kind".to_string(), fields: vec![] };
    assert_eq!(norm(&sum_config), Err(L3LowerError::NotARecordConfig("Kind".to_string())));
}

#[test]
fn non_static_forms_are_refused_by_name() {
    let bin = |op| SurfaceExpr::Bin { op, lhs: Box::new(num("1")), rhs: Box::new(num("2")) };
    assert_eq!(norm(&bin(SurfaceBinOp::Add)), Err(L3LowerError::ArithmeticNotAllowed));
    assert_eq!(norm(&bin(SurfaceBinOp::Div)), Err(L3LowerError::ArithmeticNotAllowed));
    assert_eq!(norm(&bin(SurfaceBinOp::Lt)), Err(L3LowerError::ComparisonNotAllowed));
    assert_eq!(norm(&bin(SurfaceBinOp::Then)), Err(L3LowerError::WitnessCompositionNotAllowed));
    let call = |f: &str| SurfaceExpr::Call { func: f.to_string(), args: vec![] };
    assert_eq!(norm(&call("Wrap")), Err(L3LowerError::PayloadBearingConstructor("Wrap".to_string())));
    assert_eq!(norm(&call("Twice")), Err(L3LowerError::AmbiguousConstructorReference("Twice".to_string())));
    assert_eq!(norm(&call("A")), Err(L3LowerError::CallNotAllowed("A".to_string())));
    assert_eq!(
        norm(&SurfaceExpr::Field(Box::new(var("base")), "x".to_string())),
        Err(L3LowerError::FieldAccessNotAllowed("x".to_string()))
    );
    assert_eq!(
        norm(&SurfaceExpr::Match { scrutinee: Box::new(var("base")), arms: vec![] }),
        Err(L3LowerError::MatchNotAllowed)
    );
    assert_eq!(norm(&SurfaceExpr::Prove(Box::new(SurfaceExpr::Bool(true)))), Err(L3LowerError::ProveNotAllowed));
    assert_eq!(norm(&SurfaceExpr::Why(Box::new(SurfaceExpr::Bool(true)))), Err(L3LowerError::WhyNotAllowed));
    assert_eq!(norm(&SurfaceExpr::Audit(Box::new(SurfaceExpr::Bool(true)))), Err(L3LowerError::AuditNotAllowed));
    assert_eq!(type_ref_debug_text(&L3TypeRef::Config("K".to_string())), format!("{:?}", L3TypeRef::Config("K".to_string())));
}
