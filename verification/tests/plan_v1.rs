use brix_lower::finite_decision::plan::Grade;
use brix_lower::l3::plan::lower_l3_plan;
use brix_lower::l3::{
    L3ConfigBody, L3ConfigDecl, L3LowerError, L3PlanItem, L3PlanV1, L3TypeRef, L3ValueV1, PlanLimitsV1,
    L3_PROFILE_MARKER_RETIRED_V0, L3_PROFILE_MARKER_V1,
};
use brix_lower::l3_v2::lower::{SurfaceBinOp, SurfaceExpr};
use brix_lower::l3_v2::lower_plan::{SurfaceConfigBody, SurfaceField, SurfaceItem, SurfaceInnerTy, SurfaceModule, SurfaceTy, SurfaceVariant};

fn named(t: &str) -> SurfaceTy {
    SurfaceTy::Named(t.to_string())
}

fn record_config(name: &str, fields: &[(&str, SurfaceTy)]) -> SurfaceItem {
    SurfaceItem::Config {
        name: name.to_string(),
        body: SurfaceConfigBody::Record(
            fields.iter().map(|(n, t)| SurfaceField { name: n.to_string(), ty: t.clone() }).collect(),
        ),
    }
}

fn sum_config(name: &str, variants: &[(&str, Vec<SurfaceTy>)]) -> SurfaceItem {
    SurfaceItem::Config {
        name: name.to_string(),
        body: SurfaceConfigBody::Sum(
            variants.iter().map(|(n, ps)| SurfaceVariant { name: n.to_string(), params: ps.clone() }).collect(),
        ),
    }
}

fn let_item(name: &str, ty: Option<SurfaceTy>, value: SurfaceExpr) -> SurfaceItem {
    SurfaceItem::Let { name: name.to_string(), ty, value }
}

fn rule_item(name: &str, value: SurfaceExpr) -> SurfaceItem {
    SurfaceItem::Rule { name: name.to_string(), params: vec![], ret: None, body: value }
}

fn num(s: &str) -> SurfaceExpr {
    SurfaceExpr::Num(s.to_string())
}

fn var(s: &str) -> SurfaceExpr {
    SurfaceExpr::Var(s.to_string())
}

fn lit(config: &str, fields: Vec<(&str, SurfaceExpr)>) -> SurfaceExpr {
    SurfaceExpr::Record { config: config.to_string(), fields: fields.into_iter().map(|(n, e)| (n.to_string(), e)).collect() }
}

fn plan(items: Vec<SurfaceItem>) -> Result<L3PlanV1, L3LowerError> {
    lower_l3_plan(&SurfaceModule { items }, L3_PROFILE_MARKER_V1, &PlanLimitsV1::generous())
}

fn plan_with(items: Vec<SurfaceItem>, limits: PlanLimitsV1) -> Result<L3PlanV1, L3LowerError> {
    lower_l3_plan(&SurfaceModule { items }, L3_PROFILE_MARKER_V1, &limits)
}

#[test]
fn a_module_lowers_to_closed_values_in_declaration_order() {
    let items = vec![
        record_config("Item", &[("name", named("Str")), ("count", named("Int")), ("kind", named("Kind"))]),
        sum_config("Kind", &[("A", vec![]), ("B", vec![])]),
        let_item("base", Some(named("Int")), num("3")),
        let_item(
            "widget",
            Some(named("Item")),
            lit("Item", vec![("kind", var("B")), ("count", var("base")), ("name", SurfaceExpr::Str("w".to_string()))]),
        ),
        rule_item("pick", var("A")),
        rule_item("again", var("widget")),
    ];
    let p = plan(items).expect("a closed plan");
    assert_eq!(p.profile, L3_PROFILE_MARKER_V1);
    assert_eq!(p.limits, PlanLimitsV1::generous());
    let widget = L3ValueV1::Record {
        nominal_config: "Item".to_string(),
        fields: vec![
            ("name".to_string(), L3ValueV1::Str("w".to_string())),
            ("count".to_string(), L3ValueV1::Int(3)),
            (
                "kind".to_string(),
                L3ValueV1::NullaryVariant { nominal_sum: "Kind".to_string(), variant: "B".to_string() },
            ),
        ],
    };
    assert_eq!(
        p.items,
        vec![
            L3PlanItem::Config(L3ConfigDecl {
                name: "Item".to_string(),
                body: L3ConfigBody::Record(vec![
                    ("name".to_string(), L3TypeRef::Str),
                    ("count".to_string(), L3TypeRef::Int),
                    ("kind".to_string(), L3TypeRef::Config("Kind".to_string())),
                ]),
            }),
            L3PlanItem::Config(L3ConfigDecl {
                name: "Kind".to_string(),
                body: L3ConfigBody::Sum(vec![("A".to_string(), vec![]), ("B".to_string(), vec![])]),
            }),
            L3PlanItem::Let { name: "base".to_string(), value: L3ValueV1::Int(3) },
            L3PlanItem::Let { name: "widget".to_string(), value: widget.clone() },
            L3PlanItem::Rule {
                ordinal: 0,
                name: "pick".to_string(),
                value: L3ValueV1::NullaryVariant { nominal_sum: "Kind".to_string(), variant: "A".to_string() },
            },
            L3PlanItem::Rule { ordinal: 1, name: "again".to_string(), value: widget },
        ]
    );
}

#[test]
fn the_profile_is_checked_before_anything_else() {
    for marker in [L3_PROFILE_MARKER_RETIRED_V0, "other"] {
        assert_eq!(
            lower_l3_plan(&SurfaceModule { items: vec![SurfaceItem::Show(SurfaceExpr::Bool(true))] }, marker, &PlanLimitsV1::generous()),
            Err(L3LowerError::ProfileMismatch { expected: L3_PROFILE_MARKER_V1.to_string(), found: marker.to_string() })
        );
    }
}

#[test]
fn items_outside_config_let_rule_are_refused() {
    let cases = vec![
        (SurfaceItem::Fn { name: "f".to_string(), params: vec![], ret: None, body: SurfaceExpr::Bool(true) }, L3LowerError::FnItemNotAllowed("f".to_string())),
        (SurfaceItem::Regime("r".to_string()), L3LowerError::RegimeItemNotAllowed("r".to_string())),
        (SurfaceItem::Show(SurfaceExpr::Bool(true)), L3LowerError::ShowItemNotAllowed),
        (SurfaceItem::Use("lib::x".to_string()), L3LowerError::UnresolvedImport("lib::x".to_string())),
        (SurfaceItem::Witness("w".to_string()), L3LowerError::WitnessItemNotAllowed("w".to_string())),
        (SurfaceItem::Propose { name: "p".to_string(), deps: vec![], priority: 0, guard: SurfaceExpr::Bool(true), value: SurfaceExpr::Bool(true) }, L3LowerError::ProposeItemNotAllowed("p".to_string())),
        (SurfaceItem::Commit { name: "c".to_string(), candidates: vec![] }, L3LowerError::CommitItemNotAllowed("c".to_string())),
        (SurfaceItem::Input { name: "i".to_string(), ty: SurfaceTy::Named("Int".to_string()), written: "Int".to_string() }, L3LowerError::InputItemNotAllowed("i".to_string())),
    ];
    for (item, err) in cases {
        assert_eq!(plan(vec![rule_item("a", SurfaceExpr::Bool(true)), item]), Err(err));
    }
}

#[test]
fn rules_take_no_parameters_and_names_are_unique() {
    let param = SurfaceItem::Rule { name: "r".to_string(), params: vec!["x".to_string()], ret: None, body: num("1") };
    assert_eq!(plan(vec![param]), Err(L3LowerError::ParameterizedRule("r".to_string())));
    assert_eq!(
        plan(vec![let_item("x", None, num("1")), rule_item("x", num("2"))]),
        Err(L3LowerError::DuplicateItemName("x".to_string()))
    );
}

#[test]
fn the_rule_count_is_limited_before_any_rule_is_normalized() {
    let mut limits = PlanLimitsV1::generous();
    limits.max_selected_rules = 1;
    assert_eq!(
        plan_with(vec![rule_item("a", SurfaceExpr::Bool(true)), rule_item("b", num("1"))], limits),
        Err(L3LowerError::RuleCountExceeded { limit: 1, actual: 2 })
    );
}

#[test]
fn config_types_must_resolve() {
    let one = |t: SurfaceTy| plan(vec![record_config("C", &[("f", t)])]);
    assert_eq!(one(named("Nope")), Err(L3LowerError::UnknownTypeName("Nope".to_string())));
    assert_eq!(one(named("Float")), Err(L3LowerError::UnsupportedPrimitiveType("Float".to_string())));
    assert_eq!(one(SurfaceTy::Record), Err(L3LowerError::AnonymousRecordTypeNotAllowed));
    assert_eq!(one(SurfaceTy::App("List".to_string())), Err(L3LowerError::UnknownTypeName("List".to_string())));
    assert_eq!(
        one(SurfaceTy::Graded(SurfaceInnerTy::Named("Int".to_string()), Grade::Derived, "Named(\"Int\")".to_string())),
        Err(L3LowerError::GradeAssertionUnsupported("Named(\"Int\")".to_string()))
    );
    assert_eq!(
        plan(vec![record_config("C", &[("f", named("Int")), ("f", named("Str"))])]),
        Err(L3LowerError::DuplicateConfigMember { config: "C".to_string(), member: "f".to_string() })
    );
    assert_eq!(
        plan(vec![sum_config("S", &[("A", vec![]), ("A", vec![])])]),
        Err(L3LowerError::DuplicateConfigMember { config: "S".to_string(), member: "A".to_string() })
    );
    // A config may name one declared later.
    assert!(plan(vec![record_config("C", &[("d", named("D"))]), sum_config("D", &[("X", vec![])])]).is_ok());
}

#[test]
fn config_nodes_are_counted_against_their_limit() {
    let mut limits = PlanLimitsV1::generous();
    limits.max_config_nodes = 4;
    let sum = || sum_config("S", &[("A", vec![named("Int"), named("Str")]), ("B", vec![])]);
    assert_eq!(plan_with(vec![sum()], limits), Err(L3LowerError::ConfigNodeLimitExceeded { limit: 4, actual: 5 }));
    limits.max_config_nodes = 5;
    assert!(plan_with(vec![sum()], limits).is_ok());
}

#[test]
fn recursive_configs_are_refused() {
    assert_eq!(
        plan(vec![record_config("A", &[("b", named("B"))]), record_config("B", &[("a", named("A"))])]),
        Err(L3LowerError::RecursiveConfig { cycle: vec!["A".to_string(), "B".to_string(), "A".to_string()] })
    );
}

#[test]
fn declared_types_must_match_the_closed_value() {
    assert_eq!(
        plan(vec![let_item("x", Some(named("Str")), num("1"))]),
        Err(L3LowerError::DeclaredTypeMismatch {
            name: "x".to_string(),
            expected: "Str".to_string(),
            found: "Int".to_string(),
        })
    );
    assert_eq!(
        plan(vec![let_item("x", Some(named("Missing")), num("1"))]),
        Err(L3LowerError::UnknownTypeName("Missing".to_string()))
    );
}

#[test]
fn a_constructor_two_sums_declare_is_ambiguous() {
    assert_eq!(
        plan(vec![sum_config("S", &[("A", vec![])]), sum_config("T", &[("A", vec![])]), rule_item("r", var("A"))]),
        Err(L3LowerError::AmbiguousConstructorReference("A".to_string()))
    );
}

#[test]
fn lets_are_closed_in_module_order() {
    assert_eq!(
        plan(vec![let_item("a", None, var("b")), let_item("b", None, num("1"))]),
        Err(L3LowerError::ForwardLetReference("b".to_string()))
    );
    assert_eq!(
        plan(vec![let_item("a", None, var("a"))]),
        Err(L3LowerError::RecursiveLetReference("a".to_string()))
    );
}

#[test]
fn value_limits_are_charged_across_the_plan() {
    let mut limits = PlanLimitsV1::generous();
    limits.max_total_value_nodes = 2;
    assert_eq!(
        plan_with(vec![let_item("a", None, num("1")), let_item("b", None, num("2")), rule_item("c", num("3"))], limits),
        Err(L3LowerError::ValueNodeLimitExceeded { limit: 2, actual: 3 })
    );
    let mut limits = PlanLimitsV1::generous();
    limits.max_value_depth = 1;
    let items = vec![record_config("C", &[("f", named("Int"))]), let_item("x", None, lit("C", vec![("f", num("1"))]))];
    assert_eq!(plan_with(items, limits), Err(L3LowerError::ValueDepthExceeded { limit: 1, actual: 2 }));
}

#[test]
fn fixture_6_parameterized_rule_rejects_before_any_journal_exists() {
    // rule r(x: Int) = x
    let module = SurfaceModule {
        items: vec![SurfaceItem::Rule { name: "r".to_string(), params: vec!["x".to_string()], ret: None, body: var("x") }],
    };
    let err = lower_l3_plan(&module, L3_PROFILE_MARKER_V1, &PlanLimitsV1::generous())
        .expect_err("a parameterized rule must reject");
    assert!(matches!(err, L3LowerError::ParameterizedRule(_)));
}

#[test]
fn fixture_6_non_static_rule_body_rejects_before_any_journal_exists() {
    // rule r() = 1 + 2
    let body = SurfaceExpr::Bin {
        op: SurfaceBinOp::Add,
        lhs: Box::new(num("1")),
        rhs: Box::new(num("2")),
    };
    let module = SurfaceModule { items: vec![rule_item("r", body)] };
    let err = lower_l3_plan(&module, L3_PROFILE_MARKER_V1, &PlanLimitsV1::generous()).expect_err("arithmetic must reject");
    assert!(matches!(err, L3LowerError::ArithmeticNotAllowed));
}
