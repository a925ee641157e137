use brix_lower::finite_decision::lowering::lower_finite_decision_plan;
use brix_lower::finite_decision::plan::{
    FiniteDecisionContract, FiniteDecisionFnParam, FiniteDecisionLowerError, Grade, FINITE_DECISION_PROFILE,
};
use brix_lower::l3_v2::lower::{SurfaceArm, SurfaceBinOp, SurfaceExpr, SurfacePattern};
use brix_lower::l3_v2::lower_plan::{
    SurfaceConfigBody, SurfaceInnerTy, SurfaceItem, SurfaceModule, SurfaceParam, SurfaceTy, SurfaceVariant,
};
use brix_lower::l3_v2::{CmpOpV2, L3ExprV2, L3V2LowerError, L3ValueType};

fn s(x: &str) -> String {
    x.to_string()
}

fn var(x: &str) -> SurfaceExpr {
    SurfaceExpr::Var(s(x))
}

fn num(x: &str) -> SurfaceExpr {
    SurfaceExpr::Num(s(x))
}

fn ge(a: SurfaceExpr, b: SurfaceExpr) -> SurfaceExpr {
    SurfaceExpr::Bin { op: SurfaceBinOp::Ge, lhs: Box::new(a), rhs: Box::new(b) }
}

fn call(f: &str, args: Vec<SurfaceExpr>) -> SurfaceExpr {
    SurfaceExpr::Call { func: s(f), args }
}

fn named(t: &str) -> SurfaceTy {
    SurfaceTy::Named(s(t))
}

fn param(name: &str, ty: Option<SurfaceTy>) -> SurfaceParam {
    SurfaceParam { name: s(name), ty }
}

fn helper(name: &str, params: Vec<SurfaceParam>, ret: Option<SurfaceTy>, body: SurfaceExpr) -> SurfaceItem {
    SurfaceItem::Fn { name: s(name), params, ret, body }
}

fn input(name: &str, ty: &str) -> SurfaceItem {
    SurfaceItem::Input { name: s(name), ty: named(ty), written: s(ty) }
}

fn rule(name: &str, params: &[&str], body: SurfaceExpr) -> SurfaceItem {
    SurfaceItem::Rule { name: s(name), params: params.iter().map(|p| s(p)).collect(), ret: None, body }
}

fn propose(name: &str, deps: &[&str], priority: u64, guard: SurfaceExpr, value: SurfaceExpr) -> SurfaceItem {
    SurfaceItem::Propose { name: s(name), deps: deps.iter().map(|d| s(d)).collect(), priority, guard, value }
}

fn commit(name: &str, cands: &[&str]) -> SurfaceItem {
    SurfaceItem::Commit { name: s(name), candidates: cands.iter().map(|c| s(c)).collect() }
}

fn lower(items: Vec<SurfaceItem>) -> Result<brix_lower::finite_decision::plan::FiniteDecisionPlan, FiniteDecisionLowerError> {
    lower_finite_decision_plan(&SurfaceModule { items }, FINITE_DECISION_PROFILE)
}

/// The shipping program of the README: a helper, an input, two rules, a
/// proposal and the commit.
fn shipping() -> Vec<SurfaceItem> {
    vec![
        helper(
            "enough",
            vec![param("available", Some(named("Int"))), param("needed", Some(named("Int")))],
            Some(named("Bool")),
            ge(var("available"), var("needed")),
        ),
        input("stock", "Int"),
        rule("threshold", &[], num("15")),
        rule("eligible", &["threshold"], call("enough", vec![var("stock"), var("threshold")])),
        propose("ship", &["eligible"], 10, var("eligible"), var("stock")),
        commit("shipping", &["ship"]),
    ]
}

#[test]
fn the_shipping_program_lowers() {
    let p = lower(shipping()).unwrap();
    assert_eq!(p.profile, FINITE_DECISION_PROFILE);
    assert_eq!(p.inputs.len(), 1);
    assert_eq!((p.inputs[0].ordinal, p.inputs[0].name.as_str(), p.inputs[0].ty.clone()), (0, "stock", L3ValueType::Int));
    assert_eq!(p.functions.len(), 1);
    let f = &p.functions[0];
    assert_eq!(f.name, "enough");
    assert_eq!(
        f.params,
        vec![
            FiniteDecisionFnParam {
                name: s("available"),
                contract: Some(FiniteDecisionContract { ty: L3ValueType::Int, grade: None }),
            },
            FiniteDecisionFnParam {
                name: s("needed"),
                contract: Some(FiniteDecisionContract { ty: L3ValueType::Int, grade: None }),
            },
        ]
    );
    assert_eq!(f.ret_contract, Some(FiniteDecisionContract { ty: L3ValueType::Bool, grade: None }));
    assert_eq!(
        f.body,
        L3ExprV2::Cmp(
            CmpOpV2::Ge,
            Box::new(L3ExprV2::LetRef(s("available"))),
            Box::new(L3ExprV2::LetRef(s("needed")))
        )
    );
    assert_eq!(p.rules.len(), 2);
    assert_eq!(p.rules[1].ordinal, 1);
    assert_eq!(p.rules[1].depends_on, vec![s("threshold")]);
    assert_eq!(
        p.rules[1].body,
        L3ExprV2::Call {
            func: s("enough"),
            args: vec![L3ExprV2::LetRef(s("stock")), L3ExprV2::RuleFact(s("threshold"))],
        }
    );
    assert_eq!(p.proposals.len(), 1);
    assert_eq!(p.proposals[0].priority, 10);
    assert_eq!(p.proposals[0].deps, vec![s("eligible")]);
    assert_eq!(p.proposals[0].guard, L3ExprV2::RuleFact(s("eligible")));
    assert_eq!(p.commit.name, "shipping");
    assert_eq!(p.commit.candidates, vec![s("ship")]);
}

#[test]
fn the_profile_and_refused_items_come_first() {
    assert_eq!(
        lower_finite_decision_plan(&SurfaceModule { items: shipping() }, "brix.l3@1"),
        Err(FiniteDecisionLowerError::ProfileMismatch { expected: s(FINITE_DECISION_PROFILE), found: s("brix.l3@1") })
    );
    let mut items = shipping();
    items.push(SurfaceItem::Regime(s("r")));
    assert_eq!(lower(items), Err(FiniteDecisionLowerError::ItemNotAllowed(s("regime r"))));
    let mut items = shipping();
    items.push(SurfaceItem::Witness(s("w")));
    assert_eq!(lower(items), Err(FiniteDecisionLowerError::ItemNotAllowed(s("witness w"))));
    let mut items = shipping();
    items.push(SurfaceItem::Use(s("lib::x")));
    assert_eq!(lower(items), Err(FiniteDecisionLowerError::UnresolvedImport(s("lib::x"))));
}

fn without_commit() -> Vec<SurfaceItem> {
    let mut items = shipping();
    items.pop();
    items
}

#[test]
fn exactly_one_commit_over_distinct_known_candidates() {
    assert_eq!(lower(without_commit()), Err(FiniteDecisionLowerError::NoCommit));
    let mut two = shipping();
    two.push(commit("again", &["ship"]));
    assert_eq!(lower(two), Err(FiniteDecisionLowerError::MultipleCommits(2)));
    let mut empty = without_commit();
    empty.push(commit("shipping", &[]));
    assert_eq!(lower(empty), Err(FiniteDecisionLowerError::EmptyCommit(s("shipping"))));
    let mut dup = without_commit();
    dup.push(commit("shipping", &["ship", "ship"]));
    assert_eq!(
        lower(dup),
        Err(FiniteDecisionLowerError::DuplicateCandidateInCommit { commit: s("shipping"), candidate: s("ship") })
    );
    let mut unknown = without_commit();
    unknown.push(commit("shipping", &["ship", "hold"]));
    assert_eq!(
        lower(unknown),
        Err(FiniteDecisionLowerError::UnknownCandidateInCommit { commit: s("shipping"), candidate: s("hold") })
    );
}

#[test]
fn helpers_take_their_data_as_arguments() {
    let with_body = |body: SurfaceExpr| {
        let mut items = shipping();
        items.push(SurfaceItem::Let { name: s("limit"), ty: None, value: num("3") });
        items.push(helper("peek", vec![], None, body));
        lower(items)
    };
    assert_eq!(
        with_body(var("stock")),
        Err(FiniteDecisionLowerError::InputReadInFunction { func: s("peek"), input: s("stock") })
    );
    assert_eq!(
        with_body(var("threshold")),
        Err(FiniteDecisionLowerError::RuleFactReadInFunction { func: s("peek"), fact: s("threshold") })
    );
    assert_eq!(
        with_body(var("limit")),
        Err(FiniteDecisionLowerError::GlobalLetReadInFunction { func: s("peek"), binding: s("limit") })
    );
    assert_eq!(
        with_body(var("nowhere")),
        Err(FiniteDecisionLowerError::ExprError(L3V2LowerError::UnresolvedReference(s("nowhere"))))
    );
}

#[test]
fn only_int_bool_and_str_contracts_are_supported() {
    let with_ty = |ty: SurfaceTy| {
        let mut items = shipping();
        items.insert(0, SurfaceItem::Config {
            name: s("Kind"),
            body: SurfaceConfigBody::Sum(vec![SurfaceVariant { name: s("A"), params: vec![] }]),
        });
        items.push(helper("h", vec![param("x", Some(ty))], None, var("x")));
        lower(items)
    };
    let derived = with_ty(SurfaceTy::Graded(SurfaceInnerTy::Named(s("Str")), Grade::Derived, s("Named(\"Str\")"))).unwrap();
    assert_eq!(
        derived.functions[1].params[0].contract,
        Some(FiniteDecisionContract { ty: L3ValueType::Str, grade: Some(Grade::Derived) })
    );
    assert_eq!(
        with_ty(named("Float")),
        Err(FiniteDecisionLowerError::UnsupportedContractType {
            ty: s("Float"),
            detail: s("Float is not supported in finite-decision"),
        })
    );
    assert_eq!(
        with_ty(named("Kind")),
        Err(FiniteDecisionLowerError::UnsupportedContractType {
            ty: s("Kind"),
            detail: s(
                "sum and record contract annotations are not supported in finite-decision alpha (only Int, Bool, Str are supported)"
            ),
        })
    );
    assert_eq!(with_ty(named("Nope")), Err(FiniteDecisionLowerError::UnknownContractType { name: s("Nope") }));
    assert_eq!(
        with_ty(SurfaceTy::Record),
        Err(FiniteDecisionLowerError::UnsupportedContractType {
            ty: s("anonymous record"),
            detail: s("composite types are not supported in function contracts in this slice"),
        })
    );
    assert_eq!(
        with_ty(SurfaceTy::App(s("List"))),
        Err(FiniteDecisionLowerError::UnsupportedContractType {
            ty: s("List<...>"),
            detail: s("generic/parameterized types are not supported in finite-decision"),
        })
    );
    assert_eq!(
        with_ty(SurfaceTy::Graded(SurfaceInnerTy::Graded, Grade::Derived, s("inner"))),
        Err(FiniteDecisionLowerError::UnsupportedContractType {
            ty: s("nested graded type"),
            detail: s("nested grade annotations are not supported"),
        })
    );
    assert_eq!(
        with_ty(SurfaceTy::Graded(SurfaceInnerTy::Named(s("Int")), Grade::Proven, s("Named(\"Int\")"))),
        Err(FiniteDecisionLowerError::UnsupportedContractGrade {
            grade: Grade::Proven,
            detail: s("helpers cannot declare or elevate to @Proven or @Audited"),
        })
    );
}

#[test]
fn helper_signatures_are_checked_before_any_item() {
    let mut items = shipping();
    items.push(helper("enough", vec![], None, num("1")));
    assert_eq!(lower(items), Err(FiniteDecisionLowerError::DuplicateFunctionName(s("enough"))));
    let mut items = shipping();
    items.push(helper("true", vec![], None, num("1")));
    assert_eq!(
        lower(items),
        Err(FiniteDecisionLowerError::FunctionConstructorCollision { func: s("true"), constructor: s("true") })
    );
    let mut items = shipping();
    items.push(helper("h", vec![param("a", None), param("a", None)], None, num("1")));
    assert_eq!(
        lower(items),
        Err(FiniteDecisionLowerError::DuplicateFunctionParameter { func: s("h"), param: s("a") })
    );
    let mut items = shipping();
    let many: Vec<SurfaceParam> = (0..33).map(|i| param(&format!("p{i}"), None)).collect();
    items.push(helper("h", many, None, num("1")));
    assert_eq!(
        lower(items),
        Err(FiniteDecisionLowerError::TooManyFunctionParams { func: s("h"), limit: 32, count: 33 })
    );
    let mut items = shipping();
    for i in 0..256 {
        items.push(helper(&format!("f{i}"), vec![], None, num("1")));
    }
    assert_eq!(lower(items), Err(FiniteDecisionLowerError::TooManyFunctions { limit: 256, count: 257 }));
}

#[test]
fn recursive_helpers_are_refused() {
    let mut items = shipping();
    items.push(helper("ping", vec![], None, call("pong", vec![])));
    items.push(helper("pong", vec![], None, call("ping", vec![])));
    match lower(items) {
        Err(FiniteDecisionLowerError::FunctionCycle { func, cycle }) => {
            assert_eq!(func, "pong");
            assert_eq!(cycle, vec![s("ping"), s("pong"), s("ping")]);
        },
        other => panic!("expected a cycle, got {other:?}"),
    }
}

#[test]
fn inputs_and_names_are_checked_in_order() {
    let mut items = shipping();
    items.push(input("stock", "Int"));
    assert_eq!(lower(items), Err(FiniteDecisionLowerError::DuplicateInputName(s("stock"))));
    let mut items = shipping();
    items.push(input("threshold", "Int"));
    assert_eq!(lower(items), Err(FiniteDecisionLowerError::DuplicateItemName(s("threshold"))));
    let mut items = shipping();
    items.push(input("price", "Float"));
    assert_eq!(
        lower(items),
        Err(FiniteDecisionLowerError::UnsupportedInputType { name: s("price"), ty: s("Float") })
    );
    let mut items = shipping();
    items.push(SurfaceItem::Input { name: s("xs"), ty: SurfaceTy::App(s("List")), written: s("App(\"List\", [])") });
    assert_eq!(
        lower(items),
        Err(FiniteDecisionLowerError::UnsupportedInputType { name: s("xs"), ty: s("App(\"List\", [])") })
    );
    let mut items = shipping();
    items.push(input(&"n".repeat(65), "Int"));
    assert_eq!(lower(items), Err(FiniteDecisionLowerError::InputNameTooLong { limit: 64 }));
}

#[test]
fn proposal_dependencies_must_name_earlier_rules() {
    let with = |p: SurfaceItem| {
        let mut items = shipping();
        items.insert(5, p);
        lower(items)
    };
    assert_eq!(
        with(propose("hold", &["hold"], 1, SurfaceExpr::Bool(true), num("0"))),
        Err(FiniteDecisionLowerError::ForwardOrSelfDependency { proposal: s("hold"), dep: s("hold") })
    );
    assert_eq!(
        with(propose("hold", &["later"], 1, SurfaceExpr::Bool(true), num("0"))),
        Err(FiniteDecisionLowerError::UndeclaredDependency { proposal: s("hold"), dep: s("later") })
    );
    assert_eq!(
        with(propose("hold", &[], 1, var("eligible"), num("0"))),
        Err(FiniteDecisionLowerError::UndeclaredFactRead { proposal: s("hold"), fact: s("eligible") })
    );
    assert_eq!(
        with(propose("ship", &[], 1, SurfaceExpr::Bool(true), num("0"))),
        Err(FiniteDecisionLowerError::DuplicateProposalName(s("ship")))
    );
}

#[test]
fn rule_dependencies_are_checked() {
    let mut items = shipping();
    items.insert(4, rule("late", &[], var("eligible")));
    assert_eq!(
        lower(items),
        Err(FiniteDecisionLowerError::RuleDependencyError(L3V2LowerError::UndeclaredFactRead {
            rule: s("late"),
            fact: s("eligible"),
        }))
    );
    let mut items = shipping();
    items.insert(4, rule("late", &["late"], num("1")));
    assert_eq!(
        lower(items),
        Err(FiniteDecisionLowerError::RuleDependencyError(L3V2LowerError::ForwardOrSelfDependency {
            rule: s("late"),
            depends_on: s("late"),
        }))
    );
}

#[test]
fn expressions_are_held_to_the_limits_in_modules_with_helpers() {
    let mut deep = num("1");
    for _ in 0..129 {
        deep = SurfaceExpr::Field(Box::new(deep), s("x"));
    }
    let mut items = shipping();
    items.push(SurfaceItem::Show(deep));
    assert_eq!(lower(items), Err(FiniteDecisionLowerError::ExpressionDepthExceeded { limit: 128 }));
    let wide = call("enough", (0..4096).map(|_| num("1")).collect());
    let mut items = shipping();
    items.push(SurfaceItem::Show(wide));
    assert_eq!(lower(items), Err(FiniteDecisionLowerError::ExpressionNodeLimitExceeded { limit: 4096 }));
}

#[test]
fn matches_must_cover_their_sum_in_modules_with_helpers() {
    let arm = |v: &str| SurfaceArm { pattern: SurfacePattern::Ctor { name: s(v), args: vec![] }, body: num("1") };
    let mut items = shipping();
    items.insert(0, SurfaceItem::Config {
        name: s("Light"),
        body: SurfaceConfigBody::Sum(vec![
            SurfaceVariant { name: s("Red"), params: vec![] },
            SurfaceVariant { name: s("Green"), params: vec![] },
        ]),
    });
    items.push(SurfaceItem::Show(SurfaceExpr::Match { scrutinee: Box::new(var("Red")), arms: vec![arm("Red")] }));
    assert_eq!(
        lower(items),
        Err(FiniteDecisionLowerError::ExprError(L3V2LowerError::NonExhaustiveMatch {
            sum: s("Light"),
            missing: vec![s("Green")],
        }))
    );
}
