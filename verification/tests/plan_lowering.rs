use brix_lower::l3_v2::lower::{SurfaceBinOp, SurfaceExpr};
use brix_lower::l3_v2::lower_plan::{
    lower_l3_plan_v2, SurfaceConfigBody, SurfaceField, SurfaceItem, SurfaceModule, SurfaceTy, SurfaceVariant,
};
use brix_lower::l3_v2::{
    CmpOpV2, L3ConfigBodyV2, L3ConfigDeclV2, L3ExprV2, L3PlanItemV2, L3V2LowerError, L3_PLAN_FORMAT_V2,
    L3_PROFILE_MARKER_V2,
};

fn var(s: &str) -> SurfaceExpr {
    SurfaceExpr::Var(s.to_string())
}

fn field(name: &str, ty: &str) -> SurfaceField {
    SurfaceField { name: name.to_string(), ty: SurfaceTy::Named(ty.to_string()) }
}

fn num(s: &str) -> SurfaceExpr {
    SurfaceExpr::Num(s.to_string())
}

fn rule(name: &str, params: &[&str], body: SurfaceExpr) -> SurfaceItem {
    SurfaceItem::Rule { name: name.to_string(), params: params.iter().map(|p| p.to_string()).collect(), ret: None, body }
}

fn decision() -> SurfaceItem {
    SurfaceItem::Config {
        name: "Decision".to_string(),
        body: SurfaceConfigBody::Sum(vec![
            SurfaceVariant { name: "Ship".to_string(), params: vec![] },
            SurfaceVariant { name: "Hold".to_string(), params: vec![SurfaceTy::Named("Int".to_string())] },
        ]),
    }
}

fn lower(items: Vec<SurfaceItem>) -> Result<Vec<L3PlanItemV2>, L3V2LowerError> {
    lower_l3_plan_v2(&SurfaceModule { items }, L3_PROFILE_MARKER_V2).map(|p| {
        assert_eq!(p.profile, L3_PROFILE_MARKER_V2);
        assert_eq!(p.format, L3_PLAN_FORMAT_V2);
        p.items
    })
}

#[test]
fn a_module_lowers_item_by_item_with_declared_dependencies() {
    let items = vec![
        decision(),
        SurfaceItem::Config {
            name: "Item".to_string(),
            body: SurfaceConfigBody::Record(vec![field("name", "Str"), field("count", "Int")]),
        },
        SurfaceItem::Let { name: "threshold".to_string(), ty: None, value: num("10") },
        rule("stock", &[], num("12")),
        rule(
            "ship",
            &["stock", "stock"],
            SurfaceExpr::Bin { op: SurfaceBinOp::Ge, lhs: Box::new(var("stock")), rhs: Box::new(var("threshold")) },
        ),
        rule("pick", &[], var("Ship")),
    ];
    assert_eq!(
        lower(items),
        Ok(vec![
            L3PlanItemV2::Config(L3ConfigDeclV2 {
                name: "Decision".to_string(),
                body: L3ConfigBodyV2::Sum(vec![("Ship".to_string(), 0), ("Hold".to_string(), 1)]),
            }),
            L3PlanItemV2::Config(L3ConfigDeclV2 {
                name: "Item".to_string(),
                body: L3ConfigBodyV2::Record(vec!["name".to_string(), "count".to_string()]),
            }),
            L3PlanItemV2::Let { name: "threshold".to_string(), value: L3ExprV2::Int(10) },
            L3PlanItemV2::Rule { name: "stock".to_string(), body: L3ExprV2::Int(12), depends_on: vec![] },
            L3PlanItemV2::Rule {
                name: "ship".to_string(),
                body: L3ExprV2::Cmp(
                    CmpOpV2::Ge,
                    Box::new(L3ExprV2::RuleFact("stock".to_string())),
                    Box::new(L3ExprV2::LetRef("threshold".to_string())),
                ),
                depends_on: vec!["stock".to_string()],
            },
            L3PlanItemV2::Rule {
                name: "pick".to_string(),
                body: L3ExprV2::NullaryVariant { nominal_sum: "Decision".to_string(), variant: "Ship".to_string() },
                depends_on: vec![],
            },
        ])
    );
}

#[test]
fn the_profile_and_the_item_kinds_are_checked_first() {
    assert_eq!(
        lower_l3_plan_v2(&SurfaceModule { items: vec![] }, "brix.l3.rule-agenda-saturated@1"),
        Err(L3V2LowerError::ProfileMismatch {
            expected: L3_PROFILE_MARKER_V2.to_string(),
            found: "brix.l3.rule-agenda-saturated@1".to_string(),
        })
    );
    assert_eq!(
        lower(vec![rule("a", &["missing"], num("1")), SurfaceItem::Show(SurfaceExpr::Bool(true))]),
        Err(L3V2LowerError::ItemNotAllowed("show".to_string()))
    );
    for (item, text) in [
        (SurfaceItem::Fn { name: "f".to_string(), params: vec![], ret: None, body: SurfaceExpr::Bool(true) }, "fn f"),
        (SurfaceItem::Regime("r".to_string()), "regime r"),
        (SurfaceItem::Use("lib::x".to_string()), "use lib::x"),
        (SurfaceItem::Witness("w".to_string()), "witness w"),
        (SurfaceItem::Propose { name: "p".to_string(), deps: vec![], priority: 0, guard: SurfaceExpr::Bool(true), value: SurfaceExpr::Bool(true) }, "propose p"),
        (SurfaceItem::Commit { name: "c".to_string(), candidates: vec![] }, "commit c"),
        (SurfaceItem::Input { name: "i".to_string(), ty: SurfaceTy::Named("Int".to_string()), written: "Int".to_string() }, "input i"),
    ] {
        assert_eq!(lower(vec![item]), Err(L3V2LowerError::ItemNotAllowed(text.to_string())));
    }
}

#[test]
fn rule_parameters_must_name_earlier_rules() {
    assert_eq!(
        lower(vec![rule("a", &["a"], num("1"))]),
        Err(L3V2LowerError::ForwardOrSelfDependency { rule: "a".to_string(), depends_on: "a".to_string() })
    );
    assert_eq!(
        lower(vec![rule("a", &["b"], num("1")), rule("b", &[], num("2"))]),
        Err(L3V2LowerError::UndeclaredDependency { rule: "a".to_string(), param: "b".to_string() })
    );
    assert_eq!(
        lower(vec![rule("a", &[], num("1")), rule("b", &[], var("a"))]),
        Err(L3V2LowerError::UndeclaredFactRead { rule: "b".to_string(), fact: "a".to_string() })
    );
    assert_eq!(
        lower(vec![rule("b", &[], var("nothing"))]),
        Err(L3V2LowerError::UnresolvedReference("nothing".to_string()))
    );
}

#[test]
fn lets_are_closed_and_see_only_earlier_lets() {
    assert_eq!(
        lower(vec![rule("a", &[], num("1")), SurfaceItem::Let { name: "x".to_string(), ty: None, value: var("a") }]),
        Err(L3V2LowerError::UnresolvedReference("a".to_string()))
    );
    assert_eq!(
        lower(vec![
            SurfaceItem::Let { name: "x".to_string(), ty: None, value: var("y") },
            SurfaceItem::Let { name: "y".to_string(), ty: None, value: num("1") },
        ]),
        Err(L3V2LowerError::UnresolvedReference("y".to_string()))
    );
    assert_eq!(
        lower(vec![decision(), SurfaceItem::Let { name: "x".to_string(), ty: None, value: var("Hold") }]),
        Err(L3V2LowerError::UnresolvedReference("Hold".to_string()))
    );
}

#[test]
fn every_dependency_names_an_earlier_rule() {
    let items = lower(vec![
        rule("a", &[], num("1")),
        rule("b", &["a"], var("a")),
        rule("c", &["b", "a"], SurfaceExpr::Bin { op: SurfaceBinOp::Add, lhs: Box::new(var("a")), rhs: Box::new(var("b")) }),
    ])
    .expect("plan");
    for (i, item) in items.iter().enumerate() {
        if let L3PlanItemV2::Rule { depends_on, .. } = item {
            for d in depends_on {
                assert!(items[..i].iter().any(|x| matches!(x, L3PlanItemV2::Rule { name, .. } if name == d)));
            }
        }
    }
}

fn item_config(fields: &[&str]) -> SurfaceItem {
    SurfaceItem::Config {
        name: "Item".to_string(),
        body: SurfaceConfigBody::Record(fields.iter().map(|f| field(f, "Int")).collect()),
    }
}

fn item_literal(fields: &[(&str, &str)]) -> SurfaceExpr {
    SurfaceExpr::Record {
        config: "Item".to_string(),
        fields: fields.iter().map(|(n, v)| (n.to_string(), num(v))).collect(),
    }
}

fn let_value(items: Vec<SurfaceItem>) -> L3ExprV2 {
    match lower(items).unwrap().pop() {
        Some(L3PlanItemV2::Let { value, .. }) => value,
        other => panic!("expected a let, got {other:?}"),
    }
}

#[test]
fn a_record_literal_is_kept_in_declaration_order_regardless_of_source_order() {
    let expected = L3ExprV2::Record {
        nominal_config: "Item".to_string(),
        fields: vec![("zeta".to_string(), L3ExprV2::Int(1)), ("alpha".to_string(), L3ExprV2::Int(2))],
    };
    let declared = vec![
        item_config(&["zeta", "alpha"]),
        SurfaceItem::Let { name: "x".to_string(), ty: None, value: item_literal(&[("zeta", "1"), ("alpha", "2")]) },
    ];
    assert_eq!(let_value(declared), expected);
    let swapped = vec![
        item_config(&["zeta", "alpha"]),
        SurfaceItem::Let { name: "x".to_string(), ty: None, value: item_literal(&[("alpha", "2"), ("zeta", "1")]) },
    ];
    assert_eq!(let_value(swapped), expected);
}

#[test]
fn a_later_record_declaration_decides_the_order() {
    let items = vec![
        item_config(&["zeta", "alpha"]),
        item_config(&["alpha", "zeta"]),
        SurfaceItem::Let { name: "x".to_string(), ty: None, value: item_literal(&[("zeta", "1"), ("alpha", "2")]) },
    ];
    assert_eq!(
        let_value(items),
        L3ExprV2::Record {
            nominal_config: "Item".to_string(),
            fields: vec![("alpha".to_string(), L3ExprV2::Int(2)), ("zeta".to_string(), L3ExprV2::Int(1))],
        }
    );
}
