use brix_lower::keymap::KeyMap;
use brix_lower::l3::{
    config_deps, detect_recursive_configs, infer_value_type, value_metrics, L3ConfigBody, L3ConfigDecl,
    L3LowerError, L3TypeRef, L3ValueV1, PlanLimitsV1, ValueBudget, ValueMetrics, L3_PROFILE_MARKER_RETIRED_V0,
    L3_PROFILE_MARKER_V1,
};

fn record(fields: Vec<(&str, L3TypeRef)>) -> L3ConfigBody {
    L3ConfigBody::Record(fields.into_iter().map(|(n, t)| (n.to_string(), t)).collect())
}

fn configs(decls: Vec<(&str, L3ConfigBody)>) -> KeyMap<L3ConfigDecl> {
    let mut m = KeyMap::new();
    for (name, body) in decls {
        m.insert(name.to_string(), L3ConfigDecl { name: name.to_string(), body });
    }
    m
}

fn cfg(name: &str) -> L3TypeRef {
    L3TypeRef::Config(name.to_string())
}

#[test]
fn profile_markers_are_distinct() {
    assert_eq!(L3_PROFILE_MARKER_V1, "brix.l3.rule-agenda-saturated@1");
    assert_ne!(L3_PROFILE_MARKER_V1, L3_PROFILE_MARKER_RETIRED_V0);
}

#[test]
fn generous_limits_are_all_maximal() {
    let l = PlanLimitsV1::generous();
    assert_eq!(l.max_selected_rules, u64::MAX);
    assert_eq!(l.max_config_nodes, u64::MAX);
    assert_eq!(l.max_total_value_nodes, u64::MAX);
    assert_eq!(l.max_total_value_bytes, u64::MAX);
    assert_eq!(l.max_value_depth, u64::MAX);
}

#[test]
fn inferred_types_name_the_nominal_config() {
    assert_eq!(infer_value_type(&L3ValueV1::Int(3)), L3TypeRef::Int);
    assert_eq!(infer_value_type(&L3ValueV1::Str("x".to_string())), L3TypeRef::Str);
    let r = L3ValueV1::Record { nominal_config: "Item".to_string(), fields: vec![] };
    assert_eq!(infer_value_type(&r), cfg("Item"));
    let v = L3ValueV1::NullaryVariant { nominal_sum: "Color".to_string(), variant: "Red".to_string() };
    assert_eq!(infer_value_type(&v), cfg("Color"));
}

#[test]
fn metrics_count_nodes_bytes_and_depth() {
    let inner = L3ValueV1::Record {
        nominal_config: "Inner".to_string(),
        fields: vec![("s".to_string(), L3ValueV1::Str("héllo".to_string()))],
    };
    let outer = L3ValueV1::Record {
        nominal_config: "Outer".to_string(),
        fields: vec![("a".to_string(), L3ValueV1::Int(1)), ("b".to_string(), inner)],
    };
    let m = value_metrics(&outer);
    assert_eq!(m, ValueMetrics { nodes: 4, bytes: 6, depth: 3 });
    assert_eq!(value_metrics(&L3ValueV1::Int(7)), ValueMetrics { nodes: 1, bytes: 0, depth: 1 });
    let empty = L3ValueV1::Record { nominal_config: "E".to_string(), fields: vec![] };
    assert_eq!(value_metrics(&empty), ValueMetrics { nodes: 1, bytes: 0, depth: 1 });
}

#[test]
fn budget_reports_depth_before_totals() {
    let mut limits = PlanLimitsV1::generous();
    limits.max_value_depth = 2;
    limits.max_total_value_nodes = 0;
    let mut b = ValueBudget { limits, total_nodes: 0, total_bytes: 0 };
    let r = b.charge(ValueMetrics { nodes: 5, bytes: 5, depth: 3 });
    assert_eq!(r, Err(L3LowerError::ValueDepthExceeded { limit: 2, actual: 3 }));
    assert_eq!(b.total_nodes, 0);
    assert_eq!(b.total_bytes, 0);
}

#[test]
fn budget_accumulates_and_reports_node_and_byte_limits() {
    let mut limits = PlanLimitsV1::generous();
    limits.max_total_value_nodes = 5;
    limits.max_total_value_bytes = 10;
    let mut b = ValueBudget { limits, total_nodes: 0, total_bytes: 0 };
    assert_eq!(b.charge(ValueMetrics { nodes: 3, bytes: 4, depth: 1 }), Ok(()));
    assert_eq!((b.total_nodes, b.total_bytes), (3, 4));
    assert_eq!(
        b.charge(ValueMetrics { nodes: 3, bytes: 0, depth: 1 }),
        Err(L3LowerError::ValueNodeLimitExceeded { limit: 5, actual: 6 })
    );
    assert_eq!((b.total_nodes, b.total_bytes), (6, 4));

    let mut b2 = ValueBudget { limits, total_nodes: 0, total_bytes: 8 };
    assert_eq!(
        b2.charge(ValueMetrics { nodes: 1, bytes: 3, depth: 1 }),
        Err(L3LowerError::ValueByteLimitExceeded { limit: 10, actual: 11 })
    );
    assert_eq!((b2.total_nodes, b2.total_bytes), (1, 11));
}

#[test]
fn budget_totals_saturate() {
    let mut b = ValueBudget { limits: PlanLimitsV1::generous(), total_nodes: u64::MAX - 1, total_bytes: 0 };
    assert_eq!(b.charge(ValueMetrics { nodes: 10, bytes: 0, depth: 1 }), Ok(()));
    assert_eq!(b.total_nodes, u64::MAX);
}

#[test]
fn config_deps_list_named_configs_in_order() {
    let body = L3ConfigBody::Sum(vec![
        ("A".to_string(), vec![cfg("X"), L3TypeRef::Int, cfg("Y")]),
        ("B".to_string(), vec![]),
        ("C".to_string(), vec![cfg("X")]),
    ]);
    assert_eq!(config_deps(&body), vec!["X".to_string(), "Y".to_string(), "X".to_string()]);
    let rec = record(vec![("a", L3TypeRef::Str), ("b", cfg("Z"))]);
    assert_eq!(config_deps(&rec), vec!["Z".to_string()]);
}

#[test]
fn non_recursive_configs_are_accepted() {
    let cs = configs(vec![
        ("A", record(vec![("b", cfg("B"))])),
        ("B", record(vec![("n", L3TypeRef::Int)])),
    ]);
    let order = vec!["A".to_string(), "B".to_string()];
    assert_eq!(detect_recursive_configs(&order, &cs), Ok(()));
}

#[test]
fn self_referential_config_is_rejected() {
    let cs = configs(vec![("Node", record(vec![("next", cfg("Node"))]))]);
    let order = vec!["Node".to_string()];
    assert_eq!(
        detect_recursive_configs(&order, &cs),
        Err(L3LowerError::RecursiveConfig { cycle: vec!["Node".to_string(), "Node".to_string()] })
    );
}

#[test]
fn mutually_recursive_configs_report_the_cycle_in_walk_order() {
    let cs = configs(vec![
        ("Top", record(vec![("a", cfg("A"))])),
        ("A", record(vec![("b", cfg("B"))])),
        ("B", L3ConfigBody::Sum(vec![("V".to_string(), vec![cfg("A")])])),
    ]);
    let order = vec!["Top".to_string(), "A".to_string(), "B".to_string()];
    assert_eq!(
        detect_recursive_configs(&order, &cs),
        Err(L3LowerError::RecursiveConfig { cycle: vec!["A".to_string(), "B".to_string(), "A".to_string()] })
    );
}

#[test]
fn references_to_undeclared_configs_count_as_done() {
    let cs = configs(vec![("A", record(vec![("x", cfg("Missing"))]))]);
    let order = vec!["A".to_string()];
    assert_eq!(detect_recursive_configs(&order, &cs), Ok(()));
}

#[test]
fn static_values_copy_to_equal_values() {
    let v = L3ValueV1::Record {
        nominal_config: "Item".to_string(),
        fields: vec![
            ("name".to_string(), L3ValueV1::Str("x".to_string())),
            (
                "inner".to_string(),
                L3ValueV1::Record {
                    nominal_config: "Inner".to_string(),
                    fields: vec![("n".to_string(), L3ValueV1::Int(-3))],
                },
            ),
            (
                "kind".to_string(),
                L3ValueV1::NullaryVariant { nominal_sum: "Kind".to_string(), variant: "A".to_string() },
            ),
        ],
    };
    assert_eq!(v.duplicate(), v);
    assert_eq!(v.clone(), v);
}
