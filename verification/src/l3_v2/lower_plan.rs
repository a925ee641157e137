//! Lowering a module of `config`, `let` and `rule` items to a v2 plan.
use vstd::prelude::*;

use crate::finite_decision::plan::{names_of, note_name, Grade};
use crate::keymap::{insert_pairs, KeyMap};
use crate::l3_v2::expr_view::ExprModel;
use crate::l3_v2::reads::{lemma_lower_reads, reads};
use crate::l3_v2::lower::{lower_expr_v2, lower_fault_is, lower_spec, records_model, LowerFault, ScopeModel, SurfaceExpr};
use crate::l3_v2::{L3ConfigBodyV2, L3ConfigDeclV2, L3PlanItemV2, L3PlanV2, L3V2LowerError, L3_PLAN_FORMAT_V2, L3_PROFILE_MARKER_V2};
use crate::text::{join2, owned};

verus! {

/// A surface module: its items in order.
#[derive(Debug, PartialEq, Eq)]
pub struct SurfaceModule {
    pub items: Vec<SurfaceItem>,
}

/// A surface type as lowering reads it: a name, an application of a named
/// type, an anonymous record type, or a graded type: its inner type, its
/// grade, and how the inner type is written out.
#[derive(Clone, Debug, PartialEq, Eq)]
pub enum SurfaceTy {
    Named(String),
    App(String),
    Record,
    Graded(SurfaceInnerTy, Grade, String),
}

/// The inner type of a graded type, as lowering reads it; of a graded
/// inner type only that it is graded.
#[derive(Clone, Debug, PartialEq, Eq)]
pub enum SurfaceInnerTy {
    Named(String),
    App(String),
    Record,
    Graded,
}

/// A parameter of a surface `fn`: its name and its annotation, if any.
#[derive(Clone, Debug, PartialEq, Eq)]
pub struct SurfaceParam {
    pub name: String,
    pub ty: Option<SurfaceTy>,
}

/// A variant of a surface sum: its name and its parameter types.
#[derive(Clone, Debug, PartialEq, Eq)]
pub struct SurfaceVariant {
    pub name: String,
    pub params: Vec<SurfaceTy>,
}

/// A field of a surface record: its name and type.
#[derive(Clone, Debug, PartialEq, Eq)]
pub struct SurfaceField {
    pub name: String,
    pub ty: SurfaceTy,
}

/// The body of a surface `config`.
#[derive(Clone, Debug, PartialEq, Eq)]
pub enum SurfaceConfigBody {
    Sum(Vec<SurfaceVariant>),
    Record(Vec<SurfaceField>),
}

/// A top-level item of a surface module, as lowering reads it.
#[derive(Debug, PartialEq, Eq)]
pub enum SurfaceItem {
    Config { name: String, body: SurfaceConfigBody },
    Let { name: String, ty: Option<SurfaceTy>, value: SurfaceExpr },
    Rule { name: String, params: Vec<String>, ret: Option<SurfaceTy>, body: SurfaceExpr },
    Fn { name: String, params: Vec<SurfaceParam>, ret: Option<SurfaceTy>, body: SurfaceExpr },
    Regime(String),
    Show(SurfaceExpr),
    Use(String),
    Witness(String),
    Propose { name: String, deps: Vec<String>, priority: u64, guard: SurfaceExpr, value: SurfaceExpr },
    Commit { name: String, candidates: Vec<String> },
    /// An `input`: its name, its type, and the type's debug rendering, by
    /// which an unsupported input type is named.
    Input { name: String, ty: SurfaceTy, written: String },
}

/// Model of a config body's shape.
pub enum ConfigShape {
    Sum(Seq<(Seq<char>, usize)>),
    Record(Seq<Seq<char>>),
}

/// Model of a plan item.
pub enum ItemModel {
    Config { name: Seq<char>, body: ConfigShape },
    Let { name: Seq<char>, value: ExprModel },
    Rule { name: Seq<char>, body: ExprModel, depends_on: Seq<Seq<char>> },
}

/// Model of a plan item.
pub open spec fn item_model(i: L3PlanItemV2) -> ItemModel {
    match i {
        L3PlanItemV2::Config(d) => ItemModel::Config {
            name: d.name@,
            body: match d.body {
                L3ConfigBodyV2::Sum(vs) => ConfigShape::Sum(vs@.map_values(|v: (String, usize)| (v.0@, v.1))),
                L3ConfigBodyV2::Record(fs) => ConfigShape::Record(fs@.map_values(|f: String| f@)),
            },
        },
        L3PlanItemV2::Let { name, value } => ItemModel::Let { name: name@, value: value@ },
        L3PlanItemV2::Rule { name, body, depends_on } => ItemModel::Rule {
            name: name@,
            body: body@,
            depends_on: depends_on@.map_values(|s: String| s@),
        },
    }
}

/// Why a module is not a v2 plan, as a model.
pub enum PlanFault {
    Profile { found: Seq<char> },
    ItemNotAllowed(Seq<char>),
    SelfDependency { rule: Seq<char>, depends_on: Seq<char> },
    UndeclaredDependency { rule: Seq<char>, param: Seq<char> },
    UndeclaredFactRead { rule: Seq<char>, fact: Seq<char> },
    Lower(LowerFault),
}

/// `e` is the error `f` describes.
pub open spec fn plan_fault_is(e: L3V2LowerError, f: PlanFault) -> bool {
    match f {
        PlanFault::Profile { found } => e matches L3V2LowerError::ProfileMismatch { expected, found: x }
            && expected@ == L3_PROFILE_MARKER_V2@ && x@ == found,
        PlanFault::ItemNotAllowed(t) => e matches L3V2LowerError::ItemNotAllowed(x) && x@ == t,
        PlanFault::SelfDependency { rule, depends_on } => e matches L3V2LowerError::ForwardOrSelfDependency {
            rule: r,
            depends_on: d,
        } && r@ == rule && d@ == depends_on,
        PlanFault::UndeclaredDependency { rule, param } => e matches L3V2LowerError::UndeclaredDependency {
            rule: r,
            param: p,
        } && r@ == rule && p@ == param,
        PlanFault::UndeclaredFactRead { rule, fact } => e matches L3V2LowerError::UndeclaredFactRead {
            rule: r,
            fact: x,
        } && r@ == rule && x@ == fact,
        PlanFault::Lower(l) => lower_fault_is(e, l),
    }
}

/// Why an item is outside `{config, let, rule}`, naming it.
pub open spec fn disallowed(i: SurfaceItem) -> Option<Seq<char>> {
    match i {
        SurfaceItem::Config { .. } | SurfaceItem::Let { .. } | SurfaceItem::Rule { .. } => None,
        SurfaceItem::Fn { name, .. } => Some("fn "@ + name@),
        SurfaceItem::Regime(n) => Some("regime "@ + n@),
        SurfaceItem::Show(_) => Some("show"@),
        SurfaceItem::Use(p) => Some("use "@ + p@),
        SurfaceItem::Witness(n) => Some("witness "@ + n@),
        SurfaceItem::Propose { name, .. } => Some("propose "@ + name@),
        SurfaceItem::Commit { name, .. } => Some("commit "@ + name@),
        SurfaceItem::Input { name, .. } => Some("input "@ + name@),
    }
}

/// The first item, from the `i`-th on, outside `{config, let, rule}`.
pub open spec fn first_disallowed(items: Seq<SurfaceItem>, i: nat) -> Option<Seq<char>>
    decreases items.len() - i,
{
    if i >= items.len() {
        None
    } else if disallowed(items[i as int]) is Some {
        disallowed(items[i as int])
    } else {
        first_disallowed(items, i + 1)
    }
}

/// What lowering has gathered so far: `let` and rule names, each
/// constructor's sum, each nullary constructor's sum, the declared fields
/// of each record config, and the plan items.
pub struct Gathered {
    pub lets: Set<Seq<char>>,
    pub rules: Set<Seq<char>>,
    pub variants_of: Seq<(Seq<char>, String)>,
    pub nullary: Seq<(Seq<char>, String)>,
    pub records: Seq<(Seq<char>, Seq<Seq<char>>)>,
    pub items: Seq<ItemModel>,
}

/// The constructor maps after registering the first `n` variants of sum
/// `sum`.
pub open spec fn register_variants(
    vs: Seq<SurfaceVariant>,
    sum: String,
    variants_of: Seq<(Seq<char>, String)>,
    nullary: Seq<(Seq<char>, String)>,
    n: nat,
) -> (Seq<(Seq<char>, String)>, Seq<(Seq<char>, String)>)
    decreases n,
{
    if n == 0 || n > vs.len() {
        (variants_of, nullary)
    } else {
        let (vo, nu) = register_variants(vs, sum, variants_of, nullary, (n - 1) as nat);
        let v = vs[n - 1];
        (insert_pairs(vo, v.name@, sum), if v.params@.len() == 0 {
            insert_pairs(nu, v.name@, sum)
        } else {
            nu
        })
    }
}

/// The scope a `let` value or a rule body is lowered in.
pub open spec fn body_scope(g: Gathered, rules: Set<Seq<char>>, in_rule: bool) -> ScopeModel {
    ScopeModel {
        lets: g.lets,
        rules,
        nullary: g.nullary,
        variants_of: g.variants_of,
        functions: Seq::empty(),
        records: g.records,
        in_rule,
        helper_enabled: false,
    }
}

/// The first `n` parameters of a rule, deduplicated, or why one is not a
/// declared dependency: the rule itself, or a rule not declared before it.
pub open spec fn rule_deps(rule: Seq<char>, params: Seq<String>, rules: Set<Seq<char>>, n: nat) -> Result<
    Seq<Seq<char>>,
    PlanFault,
>
    decreases n,
{
    if n == 0 || n > params.len() {
        Ok(Seq::empty())
    } else {
        match rule_deps(rule, params, rules, (n - 1) as nat) {
            Err(f) => Err(f),
            Ok(ds) => {
                let p = params[n - 1]@;
                if p == rule {
                    Err(PlanFault::SelfDependency { rule, depends_on: p })
                } else if !rules.contains(p) {
                    Err(PlanFault::UndeclaredDependency { rule, param: p })
                } else if ds.contains(p) {
                    Ok(ds)
                } else {
                    Ok(ds.push(p))
                }
            },
        }
    }
}

/// A body's lowering fault, with a read of a known rule that is not a
/// declared dependency named as such.
pub open spec fn rule_body_fault(rule: Seq<char>, rules: Set<Seq<char>>, f: LowerFault) -> PlanFault {
    match f {
        LowerFault::Unresolved(n) => if rules.contains(n) {
            PlanFault::UndeclaredFactRead { rule, fact: n }
        } else {
            PlanFault::Lower(f)
        },
        _ => PlanFault::Lower(f),
    }
}

/// Lower one admitted item.
pub open spec fn lower_item(g: Gathered, item: SurfaceItem) -> Result<Gathered, PlanFault> {
    match item {
        SurfaceItem::Config { name, body } => match body {
            SurfaceConfigBody::Sum(vs) => {
                let (vo, nu) = register_variants(vs@, name, g.variants_of, g.nullary, vs@.len());
                Ok(
                    Gathered {
                        variants_of: vo,
                        nullary: nu,
                        items: g.items.push(
                            ItemModel::Config {
                                name: name@,
                                body: ConfigShape::Sum(vs@.map_values(|v: SurfaceVariant| (v.name@, v.params@.len() as usize))),
                            },
                        ),
                        ..g
                    },
                )
            },
            SurfaceConfigBody::Record(fs) => Ok(
                Gathered {
                    records: g.records.push((name@, fs@.map_values(|f: SurfaceField| f.name@))),
                    items: g.items.push(
                        ItemModel::Config { name: name@, body: ConfigShape::Record(fs@.map_values(|f: SurfaceField| f.name@)) },
                    ),
                    ..g
                },
            ),
        },
        SurfaceItem::Let { name, value, .. } => match lower_spec(value, body_scope(g, g.rules, false), Set::empty()) {
            Err(f) => Err(PlanFault::Lower(f)),
            Ok(v) => Ok(
                Gathered {
                    lets: g.lets.insert(name@),
                    items: g.items.push(ItemModel::Let { name: name@, value: v }),
                    ..g
                },
            ),
        },
        SurfaceItem::Rule { name, params, body, .. } => match rule_deps(name@, params@, g.rules, params@.len()) {
            Err(f) => Err(f),
            Ok(ds) => match lower_spec(body, body_scope(g, ds.to_set(), true), Set::empty()) {
                Err(f) => Err(rule_body_fault(name@, g.rules, f)),
                Ok(b) => Ok(
                    Gathered {
                        rules: g.rules.insert(name@),
                        items: g.items.push(ItemModel::Rule { name: name@, body: b, depends_on: ds }),
                        ..g
                    },
                ),
            },
        },
        _ => Ok(g),
    }
}

/// Nothing gathered.
pub open spec fn nothing_gathered() -> Gathered {
    Gathered {
        lets: Set::empty(),
        rules: Set::empty(),
        variants_of: Seq::empty(),
        nullary: Seq::empty(),
        records: Seq::empty(),
        items: Seq::empty(),
    }
}

/// The first `n` items lowered in order.
pub open spec fn gather(items: Seq<SurfaceItem>, n: nat) -> Result<Gathered, PlanFault>
    decreases n,
{
    if n == 0 || n > items.len() {
        Ok(nothing_gathered())
    } else {
        match gather(items, (n - 1) as nat) {
            Err(f) => Err(f),
            Ok(g) => lower_item(g, items[n - 1]),
        }
    }
}

/// The plan items of a module, or the first reason it is not a v2 plan:
/// the profile, then any item outside `{config, let, rule}`, then each item
/// in order.
pub open spec fn plan_v2_spec(items: Seq<SurfaceItem>, profile: Seq<char>) -> Result<Seq<ItemModel>, PlanFault> {
    if profile != L3_PROFILE_MARKER_V2@ {
        Err(PlanFault::Profile { found: profile })
    } else if first_disallowed(items, 0) is Some {
        Err(PlanFault::ItemNotAllowed(first_disallowed(items, 0)->0))
    } else {
        match gather(items, items.len()) {
            Ok(g) => Ok(g.items),
            Err(f) => Err(f),
        }
    }
}

/// Why an item is outside `{config, let, rule}`.
fn item_not_allowed(item: &SurfaceItem) -> (r: Option<String>)
    ensures
        match disallowed(*item) {
            Some(t) => r matches Some(x) && x@ == t,
            None => r is None,
        },
{
    match item {
        SurfaceItem::Config { .. } | SurfaceItem::Let { .. } | SurfaceItem::Rule { .. } => None,
        SurfaceItem::Fn { name, .. } => Some(join2("fn ", name.as_str())),
        SurfaceItem::Regime(n) => Some(join2("regime ", n.as_str())),
        SurfaceItem::Show(_) => Some(owned("show")),
        SurfaceItem::Use(p) => Some(join2("use ", p.as_str())),
        SurfaceItem::Witness(n) => Some(join2("witness ", n.as_str())),
        SurfaceItem::Propose { name, .. } => Some(join2("propose ", name.as_str())),
        SurfaceItem::Commit { name, .. } => Some(join2("commit ", name.as_str())),
        SurfaceItem::Input { name, .. } => Some(join2("input ", name.as_str())),
    }
}

/// Register the constructors of sum `sum`.
pub(crate) fn register_sum(vs: &Vec<SurfaceVariant>, sum: &String, variants_of: &mut KeyMap<String>, nullary: &mut KeyMap<String>)
    ensures
        (final(variants_of).pairs(), final(nullary).pairs()) == register_variants(
            vs@,
            *sum,
            old(variants_of).pairs(),
            old(nullary).pairs(),
            vs@.len(),
        ),
{
    let ghost vo0 = variants_of.pairs();
    let ghost nu0 = nullary.pairs();
    let mut i: usize = 0;
    while i < vs.len()
        invariant
            i <= vs@.len(),
            (variants_of.pairs(), nullary.pairs()) == register_variants(vs@, *sum, vo0, nu0, i as nat),
        decreases vs@.len() - i,
    {
        variants_of.insert(vs[i].name.clone(), sum.clone());
        if vs[i].params.len() == 0 {
            nullary.insert(vs[i].name.clone(), sum.clone());
        }
        i = i + 1;
    }
}

/// Whether `ds` holds `p`.
pub(crate) fn listed(ds: &Vec<String>, p: &str) -> (b: bool)
    ensures
        b == ds@.map_values(|s: String| s@).contains(p@),
{
    let ghost m = ds@.map_values(|s: String| s@);
    let mut i: usize = 0;
    while i < ds.len()
        invariant
            i <= ds@.len(),
            m == ds@.map_values(|s: String| s@),
            forall|j: int| 0 <= j < i ==> m[j] != p@,
        decreases ds@.len() - i,
    {
        if crate::keymap::same_text(ds[i].as_str(), p) {
            proof {
                assert(m[i as int] == p@);
            }
            return true;
        }
        i = i + 1;
    }
    false
}

proof fn lemma_deps_stop(rule: Seq<char>, params: Seq<String>, rules: Set<Seq<char>>, k: nat, n: nat)
    requires
        k <= n <= params.len(),
        rule_deps(rule, params, rules, k) is Err,
    ensures
        rule_deps(rule, params, rules, n) == rule_deps(rule, params, rules, k),
    decreases n - k,
{
    if k < n {
        lemma_deps_stop(rule, params, rules, k, (n - 1) as nat);
    }
}

/// A rule's declared dependencies, deduplicated in first-mention order.
#[verifier::loop_isolation(false)]
pub(crate) fn declared_deps(rule: &String, params: &Vec<String>, rules: &KeyMap<()>) -> (r: Result<Vec<String>, L3V2LowerError>)
    ensures
        match rule_deps(rule@, params@, names_of(*rules), params@.len()) {
            Ok(ds) => r matches Ok(v) && v@.map_values(|s: String| s@) == ds,
            Err(f) => r matches Err(x) && plan_fault_is(x, f),
        },
{
    let ghost rs = names_of(*rules);
    let mut deps: Vec<String> = Vec::new();
    proof {
        assert(deps@.map_values(|s: String| s@) =~= Seq::<Seq<char>>::empty());
    }
    let mut i: usize = 0;
    while i < params.len()
        invariant
            i <= params@.len(),
            rule_deps(rule@, params@, rs, i as nat) == Ok::<Seq<Seq<char>>, PlanFault>(deps@.map_values(|s: String| s@)),
        decreases params@.len() - i,
    {
        let p = &params[i];
        if crate::keymap::same_text(p.as_str(), rule.as_str()) {
            proof {
                lemma_deps_stop(rule@, params@, rs, (i + 1) as nat, params@.len());
            }
            return Err(L3V2LowerError::ForwardOrSelfDependency { rule: rule.clone(), depends_on: p.clone() });
        }
        if rules.get(p.as_str()).is_none() {
            proof {
                lemma_deps_stop(rule@, params@, rs, (i + 1) as nat, params@.len());
            }
            return Err(L3V2LowerError::UndeclaredDependency { rule: rule.clone(), param: p.clone() });
        }
        if !listed(&deps, p.as_str()) {
            let ghost before = deps@.map_values(|s: String| s@);
            deps.push(p.clone());
            proof {
                assert(deps@.map_values(|s: String| s@) =~= before.push(p@));
            }
        }
        i = i + 1;
    }
    Ok(deps)
}

/// The names `ds` lists, as a set-like map.
pub(crate) fn name_set(ds: &Vec<String>) -> (m: KeyMap<()>)
    ensures
        names_of(m) == ds@.map_values(|s: String| s@).to_set(),
{
    let ghost d = ds@.map_values(|s: String| s@);
    let mut m: KeyMap<()> = KeyMap::new();
    proof {
        assert(names_of(m) =~= d.take(0).to_set());
    }
    let mut i: usize = 0;
    while i < ds.len()
        invariant
            i <= ds@.len(),
            d == ds@.map_values(|s: String| s@),
            names_of(m) == d.take(i as int).to_set(),
        decreases ds@.len() - i,
    {
        note_name(&mut m, &ds[i]);
        proof {
            let t = d.take(i as int);
            let t1 = d.take(i + 1);
            assert(t1 =~= t.push(d[i as int]));
            assert forall|x: Seq<char>| #[trigger] t1.contains(x) == (t.contains(x) || x == d[i as int]) by {
                if t1.contains(x) {
                    let k = choose|k: int| 0 <= k < t1.len() && t1[k] == x;
                    if k < i {
                        assert(t[k] == x);
                    }
                }
                if t.contains(x) {
                    let k = choose|k: int| 0 <= k < t.len() && t[k] == x;
                    assert(t1[k] == x);
                }
                if x == d[i as int] {
                    assert(t1[i as int] == x);
                }
            }
            assert(t1.to_set() =~= t.to_set().insert(d[i as int]));
        }
        i = i + 1;
    }
    proof {
        assert(d.take(ds@.len() as int) =~= d);
    }
    m
}

/// The models of plan items.
pub open spec fn items_model(v: Seq<L3PlanItemV2>) -> Seq<ItemModel> {
    v.map_values(|i: L3PlanItemV2| item_model(i))
}

proof fn lemma_gather_stop(items: Seq<SurfaceItem>, k: nat, n: nat)
    requires
        k <= n <= items.len(),
        gather(items, k) is Err,
    ensures
        gather(items, n) == gather(items, k),
    decreases n - k,
{
    if k < n {
        lemma_gather_stop(items, k, (n - 1) as nat);
    }
}

/// Lower a module into a v2 plan, or refuse it with the reason it falls
/// outside the fragment: the profile marker first, then any item outside
/// `{config, let, rule}`, then each item in order. A `let` value may read
/// earlier `let`s and nullary constructors; a rule body may read the facts
/// of the earlier rules its parameters declare.
#[verifier::loop_isolation(false)]
pub fn lower_l3_plan_v2(module: &SurfaceModule, profile: &str) -> (r: Result<L3PlanV2, L3V2LowerError>)
    ensures
        match plan_v2_spec(module.items@, profile@) {
            Ok(ms) => r matches Ok(p) && p.profile@ == profile@ && p.format == L3_PLAN_FORMAT_V2 && items_model(
                p.items@,
            ) == ms,
            Err(f) => r matches Err(x) && plan_fault_is(x, f),
        },
{
    let ghost its = module.items@;
    if !crate::keymap::same_text(profile, L3_PROFILE_MARKER_V2) {
        return Err(L3V2LowerError::ProfileMismatch { expected: owned(L3_PROFILE_MARKER_V2), found: owned(profile) });
    }
    let mut k: usize = 0;
    while k < module.items.len()
        invariant
            k <= its.len(),
            its == module.items@,
            first_disallowed(its, k as nat) == first_disallowed(its, 0),
        decreases its.len() - k,
    {
        match item_not_allowed(&module.items[k]) {
            Some(t) => {
                return Err(L3V2LowerError::ItemNotAllowed(t));
            },
            None => {},
        }
        k = k + 1;
    }
    let mut lets: KeyMap<()> = KeyMap::new();
    let mut rules: KeyMap<()> = KeyMap::new();
    let mut variants_of: KeyMap<String> = KeyMap::new();
    let mut nullary: KeyMap<String> = KeyMap::new();
    let no_locals: KeyMap<()> = KeyMap::new();
    let no_functions: KeyMap<usize> = KeyMap::new();
    let mut records: Vec<(String, Vec<String>)> = Vec::new();
    let mut out: Vec<L3PlanItemV2> = Vec::new();
    proof {
        assert(names_of(lets) =~= Set::<Seq<char>>::empty());
        assert(names_of(rules) =~= Set::<Seq<char>>::empty());
        assert(names_of(no_locals) =~= Set::<Seq<char>>::empty());
        assert(items_model(out@) =~= Seq::<ItemModel>::empty());
        assert(records_model(records@) =~= Seq::<(Seq<char>, Seq<Seq<char>>)>::empty());
    }
    let mut i: usize = 0;
    while i < module.items.len()
        invariant
            i <= its.len(),
            its == module.items@,
            names_of(no_locals) == Set::<Seq<char>>::empty(),
            no_functions.pairs() == Seq::<(Seq<char>, usize)>::empty(),
            gather(its, i as nat) == Ok::<Gathered, PlanFault>(
                Gathered {
                    lets: names_of(lets),
                    rules: names_of(rules),
                    variants_of: variants_of.pairs(),
                    nullary: nullary.pairs(),
                    records: records_model(records@),
                    items: items_model(out@),
                },
            ),
        decreases its.len() - i,
    {
        let ghost before = items_model(out@);
        match &module.items[i] {
            SurfaceItem::Config { name, body } => {
                match body {
                    SurfaceConfigBody::Sum(vs) => {
                        register_sum(vs, name, &mut variants_of, &mut nullary);
                        let mut shape: Vec<(String, usize)> = Vec::new();
                        let mut j: usize = 0;
                        while j < vs.len()
                            invariant
                                j <= vs@.len(),
                                shape@.len() == j,
                                forall|q: int| 0 <= q < j ==> (#[trigger] shape@[q]).0@ == vs@[q].name@ && shape@[q].1 == vs@[q].params@.len(),
                            decreases vs@.len() - j,
                        {
                            shape.push((vs[j].name.clone(), vs[j].params.len()));
                            j = j + 1;
                        }
                        out.push(L3PlanItemV2::Config(L3ConfigDeclV2 { name: name.clone(), body: L3ConfigBodyV2::Sum(shape) }));
                        proof {
                            assert(shape@.map_values(|v: (String, usize)| (v.0@, v.1)) =~= vs@.map_values(
                                |v: SurfaceVariant| (v.name@, v.params@.len() as usize),
                            ));
                        }
                    },
                    SurfaceConfigBody::Record(fs) => {
                        let mut names: Vec<String> = Vec::new();
                        let mut order: Vec<String> = Vec::new();
                        let mut j: usize = 0;
                        while j < fs.len()
                            invariant
                                j <= fs@.len(),
                                names@.len() == j,
                                order@.len() == j,
                                forall|q: int| 0 <= q < j ==> (#[trigger] names@[q])@ == fs@[q].name@,
                                forall|q: int| 0 <= q < j ==> (#[trigger] order@[q])@ == fs@[q].name@,
                            decreases fs@.len() - j,
                        {
                            names.push(fs[j].name.clone());
                            order.push(fs[j].name.clone());
                            j = j + 1;
                        }
                        let ghost rs = records_model(records@);
                        records.push((name.clone(), order));
                        out.push(L3PlanItemV2::Config(L3ConfigDeclV2 { name: name.clone(), body: L3ConfigBodyV2::Record(names) }));
                        proof {
                            assert(names@.map_values(|f: String| f@) =~= fs@.map_values(|f: SurfaceField| f.name@));
                            assert(records@.last().1@.map_values(|f: String| f@) =~= fs@.map_values(|f: SurfaceField| f.name@));
                            assert(records_model(records@) =~= rs.push((name@, fs@.map_values(|f: SurfaceField| f.name@))));
                        }
                    },
                }
                proof {
                    assert(items_model(out@) =~= before.push(item_model(out@.last())));
                }
            },
            SurfaceItem::Let { name, value, .. } => {
                match lower_expr_v2(value, &lets, &no_locals, &rules, &nullary, &variants_of, &no_functions, &records, false, false) {
                    Ok(v) => {
                        note_name(&mut lets, name);
                        out.push(L3PlanItemV2::Let { name: name.clone(), value: v });
                        proof {
                            assert(items_model(out@) =~= before.push(item_model(out@.last())));
                        }
                    },
                    Err(err) => {
                        proof {
                            lemma_gather_stop(its, (i + 1) as nat, its.len());
                        }
                        return Err(err);
                    },
                }
            },
            SurfaceItem::Rule { name, params, body, .. } => {
                let deps = match declared_deps(name, params, &rules) {
                    Ok(d) => d,
                    Err(err) => {
                        proof {
                            lemma_gather_stop(its, (i + 1) as nat, its.len());
                        }
                        return Err(err);
                    },
                };
                let readable = name_set(&deps);
                match lower_expr_v2(body, &lets, &no_locals, &readable, &nullary, &variants_of, &no_functions, &records, true, false) {
                    Ok(b) => {
                        note_name(&mut rules, name);
                        out.push(L3PlanItemV2::Rule { name: name.clone(), body: b, depends_on: deps });
                        proof {
                            assert(items_model(out@) =~= before.push(item_model(out@.last())));
                        }
                    },
                    Err(err) => {
                        proof {
                            lemma_gather_stop(its, (i + 1) as nat, its.len());
                        }
                        let mapped = match err {
                            L3V2LowerError::UnresolvedReference(n) => {
                                if rules.get(n.as_str()).is_some() {
                                    L3V2LowerError::UndeclaredFactRead { rule: name.clone(), fact: n }
                                } else {
                                    L3V2LowerError::UnresolvedReference(n)
                                }
                            },
                            other => other,
                        };
                        return Err(mapped);
                    },
                }
            },
            _ => {},
        }
        i = i + 1;
    }
    Ok(L3PlanV2 { profile: owned(profile), format: L3_PLAN_FORMAT_V2, items: out })
}

/// `m` is a rule item named `x`.
pub open spec fn names_rule(m: ItemModel, x: Seq<char>) -> bool {
    m matches ItemModel::Rule { name, .. } && name == x
}

/// The names of the rule items among `ms`.
pub open spec fn rule_names(ms: Seq<ItemModel>) -> Set<Seq<char>> {
    Set::new(|x: Seq<char>| exists|j: int| 0 <= j < ms.len() && names_rule(#[trigger] ms[j], x))
}

/// Some item before the `i`-th is a rule named `d`.
pub open spec fn declared_before(ms: Seq<ItemModel>, i: int, d: Seq<char>) -> bool {
    exists|j: int| 0 <= j < i && names_rule(#[trigger] ms[j], d)
}

/// Every dependency of every rule item names a rule item before it.
pub open spec fn dependencies_point_back(ms: Seq<ItemModel>) -> bool {
    forall|i: int, k: int|
        #![trigger ms[i]->Rule_depends_on[k]]
        0 <= i < ms.len() && ms[i] is Rule && 0 <= k < ms[i]->Rule_depends_on.len() ==> declared_before(
            ms,
            i,
            ms[i]->Rule_depends_on[k],
        )
}

proof fn lemma_deps_declared(rule: Seq<char>, params: Seq<String>, rules: Set<Seq<char>>, n: nat)
    requires
        rule_deps(rule, params, rules, n) is Ok,
    ensures
        forall|k: int| 0 <= k < rule_deps(rule, params, rules, n)->Ok_0.len() ==> rules.contains(
            #[trigger] rule_deps(rule, params, rules, n)->Ok_0[k],
        ),
    decreases n,
{
    if n > 0 && n <= params.len() {
        lemma_deps_declared(rule, params, rules, (n - 1) as nat);
    }
}

proof fn lemma_push_rule_names(ms: Seq<ItemModel>, last: ItemModel)
    ensures
        rule_names(ms.push(last)) == (if last is Rule {
            rule_names(ms).insert(last->Rule_name)
        } else {
            rule_names(ms)
        }),
{
    let hs = ms.push(last);
    let expected = if last is Rule {
        rule_names(ms).insert(last->Rule_name)
    } else {
        rule_names(ms)
    };
    assert forall|x: Seq<char>| #[trigger] rule_names(hs).contains(x) == expected.contains(x) by {
        if rule_names(hs).contains(x) {
            let j = choose|j: int| 0 <= j < hs.len() && names_rule(#[trigger] hs[j], x);
            if j < ms.len() {
                assert(hs[j] == ms[j]);
            }
        }
        if rule_names(ms).contains(x) {
            let j = choose|j: int| 0 <= j < ms.len() && names_rule(#[trigger] ms[j], x);
            assert(hs[j] == ms[j]);
        }
        if last is Rule && x == last->Rule_name {
            assert(hs[ms.len() as int] == last);
        }
    }
    assert(rule_names(hs) =~= expected);
}

proof fn lemma_push_points_back(ms: Seq<ItemModel>, last: ItemModel, hs: Seq<ItemModel>)
    requires
        hs == ms.push(last),
        dependencies_point_back(ms),
        last is Rule ==> forall|k: int|
            0 <= k < last->Rule_depends_on.len() ==> rule_names(ms).contains(#[trigger] last->Rule_depends_on[k]),
    ensures
        dependencies_point_back(hs),
{
    assert forall|i: int, k: int|
        #![trigger hs[i]->Rule_depends_on[k]]
        0 <= i < hs.len() && hs[i] is Rule && 0 <= k < hs[i]->Rule_depends_on.len() implies declared_before(
            hs,
            i,
            hs[i]->Rule_depends_on[k],
        ) by {
        if i < ms.len() {
            assert(hs[i] == ms[i]);
            assert(ms[i]->Rule_depends_on[k] == ms[i]->Rule_depends_on[k]);
            let j = choose|j: int| 0 <= j < i && names_rule(#[trigger] ms[j], ms[i]->Rule_depends_on[k]);
            assert(hs[j] == ms[j]);
        } else {
            assert(hs[i] == last);
            let d = last->Rule_depends_on[k];
            assert(rule_names(ms).contains(d));
            let j = choose|j: int| 0 <= j < ms.len() && names_rule(#[trigger] ms[j], d);
            assert(hs[j] == ms[j]);
        }
    }
}

proof fn lemma_gather_order(items: Seq<SurfaceItem>, n: nat)
    requires
        gather(items, n) is Ok,
    ensures
        gather(items, n)->Ok_0.rules == rule_names(gather(items, n)->Ok_0.items),
        dependencies_point_back(gather(items, n)->Ok_0.items),
    decreases n,
{
    if n == 0 || n > items.len() {
        assert(rule_names(Seq::<ItemModel>::empty()) =~= Set::<Seq<char>>::empty());
    } else {
        lemma_gather_order(items, (n - 1) as nat);
        let g = gather(items, (n - 1) as nat)->Ok_0;
        let h = gather(items, n)->Ok_0;
        match items[n - 1] {
            SurfaceItem::Rule { name, params, body, .. } => {
                lemma_deps_declared(name@, params@, g.rules, params@.len());
                let last = h.items.last();
                assert(h.items =~= g.items.push(last));
                lemma_push_rule_names(g.items, last);
                lemma_push_points_back(g.items, last, h.items);
            },
            SurfaceItem::Config { .. } | SurfaceItem::Let { .. } => {
                let last = h.items.last();
                assert(h.items =~= g.items.push(last));
                lemma_push_rule_names(g.items, last);
                lemma_push_points_back(g.items, last, h.items);
            },
            _ => {},
        }
    }
}

/// A lowered plan's dependency graph is acyclic by construction: every
/// dependency of every rule names a rule declared before it.
pub proof fn lemma_dependencies_point_back(items: Seq<SurfaceItem>, profile: Seq<char>)
    requires
        plan_v2_spec(items, profile) is Ok,
    ensures
        dependencies_point_back(plan_v2_spec(items, profile)->Ok_0),
{
    lemma_gather_order(items, items.len());
}

/// A rule item reads only the facts its dependencies name; a `let` item
/// reads none.
pub open spec fn item_reads_declared(m: ItemModel) -> bool {
    match m {
        ItemModel::Rule { body, depends_on, .. } => reads(body).subset_of(depends_on.to_set()),
        ItemModel::Let { value, .. } => reads(value) == Set::<Seq<char>>::empty(),
        ItemModel::Config { .. } => true,
    }
}

/// Every item reads only what it may.
pub open spec fn reads_declared(ms: Seq<ItemModel>) -> bool {
    forall|i: int| 0 <= i < ms.len() ==> item_reads_declared(#[trigger] ms[i])
}

proof fn lemma_gather_reads(items: Seq<SurfaceItem>, n: nat)
    requires
        gather(items, n) is Ok,
    ensures
        reads_declared(gather(items, n)->Ok_0.items),
    decreases n,
{
    if n > 0 && n <= items.len() {
        lemma_gather_reads(items, (n - 1) as nat);
        let g = gather(items, (n - 1) as nat)->Ok_0;
        let h = gather(items, n)->Ok_0;
        match items[n - 1] {
            SurfaceItem::Rule { name, params, body, .. } => {
                let ds = rule_deps(name@, params@, g.rules, params@.len())->Ok_0;
                lemma_lower_reads(body, body_scope(g, ds.to_set(), true), Set::empty());
                assert(h.items =~= g.items.push(h.items.last()));
                assert forall|i: int| 0 <= i < h.items.len() implies item_reads_declared(#[trigger] h.items[i]) by {
                    if i < g.items.len() {
                        assert(h.items[i] == g.items[i]);
                    }
                }
            },
            SurfaceItem::Let { name, value, .. } => {
                lemma_lower_reads(value, body_scope(g, g.rules, false), Set::empty());
                assert(h.items =~= g.items.push(h.items.last()));
                let v = lower_spec(value, body_scope(g, g.rules, false), Set::empty())->Ok_0;
                assert(reads(v) =~= Set::<Seq<char>>::empty());
                assert forall|i: int| 0 <= i < h.items.len() implies item_reads_declared(#[trigger] h.items[i]) by {
                    if i < g.items.len() {
                        assert(h.items[i] == g.items[i]);
                    }
                }
            },
            SurfaceItem::Config { .. } => {
                assert(h.items =~= g.items.push(h.items.last()));
                assert forall|i: int| 0 <= i < h.items.len() implies item_reads_declared(#[trigger] h.items[i]) by {
                    if i < g.items.len() {
                        assert(h.items[i] == g.items[i]);
                    }
                }
            },
            _ => {},
        }
    }
}

/// Only a rule body reads facts, and only the facts of the rules its
/// parameters declare; a `let` value reads none. So a plan's dependency
/// lists cannot drift from what its bodies read.
pub proof fn lemma_bodies_read_declared_facts(items: Seq<SurfaceItem>, profile: Seq<char>)
    requires
        plan_v2_spec(items, profile) is Ok,
    ensures
        reads_declared(plan_v2_spec(items, profile)->Ok_0),
{
    lemma_gather_reads(items, items.len());
}

} // verus!
