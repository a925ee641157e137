//! Lowering a module of `config`, `let` and `rule` items into a rule-agenda
//! plan of closed values: the profile marker, the admitted item kinds,
//! unique zero-argument items, resolved and non-recursive configs, and each
//! `let` and rule normalized to a closed value within the plan's limits.
use vstd::prelude::*;

use crate::finite_decision::cycles::names_view;
use crate::finite_decision::plan::{names_of, note_name};
use crate::keymap::{
    assoc_get, insert_pairs, keys_ascending, lemma_get_mapped, lemma_insert_get, lemma_insert_mapped, map_entries,
    KeyMap,
};
use crate::l3::normalize::{
    body_model, has_type, model_type_debug, norm_fault_is, norm_scope, normalize_spec, normalize_static_value,
    type_matches, type_ref_debug, type_ref_debug_text, BodyModel, NormEnv, NormFault, NormScope,
};
use crate::l3::recursion::{
    config_walk_all, configs_model, detect_recursive_configs, has_dep_cycle, initial_states, lemma_config_cycle_detected,
    ConfigWalk,
};
use crate::l3::{
    charge_spec, fields_bytes, fields_depth, fields_nodes, infer_value_type, lemma_static_fields_prefix, sat64,
    value_bytes, value_depth, value_fields, value_metrics, value_nodes, L3ConfigBody, L3ConfigDecl, L3LowerError,
    L3PlanItem, L3PlanV1, L3TypeRef, L3ValueV1, PlanLimitsV1, StaticModel, ValueBudget, ValueMetrics,
    L3_PROFILE_MARKER_V1,
};
use crate::l3_v2::lower_plan::{SurfaceConfigBody, SurfaceField, SurfaceItem, SurfaceModule, SurfaceTy, SurfaceVariant};
use crate::text::{byte_len, owned};

verus! {

/// Why a module is not a rule-agenda plan, as a model: an error built from
/// the module's own names and numbers, the profile found, a value outside
/// the closed fragment, a declared type the value does not have, or a
/// config cycle.
pub enum PlanV1Fault {
    Exact(L3LowerError),
    Profile(Seq<char>),
    Norm(NormFault),
    Declared { name: Seq<char>, expected: Seq<char>, found: Seq<char> },
    Recursive(Seq<Seq<char>>),
}

/// `e` is the error `f` describes.
pub open spec fn l3_fault_is(e: L3LowerError, f: PlanV1Fault) -> bool {
    match f {
        PlanV1Fault::Exact(x) => e == x,
        PlanV1Fault::Profile(p) => e matches L3LowerError::ProfileMismatch { expected, found }
            && expected@ == L3_PROFILE_MARKER_V1@ && found@ == p,
        PlanV1Fault::Norm(n) => norm_fault_is(e, n),
        PlanV1Fault::Declared { name, expected, found } => e matches L3LowerError::DeclaredTypeMismatch {
            name: n,
            expected: x,
            found: y,
        } && n@ == name && x@ == expected && y@ == found,
        PlanV1Fault::Recursive(c) => e matches L3LowerError::RecursiveConfig { cycle } && names_view(cycle@) == c,
    }
}

/// Model of a plan item.
pub enum ItemV1Model {
    Config { name: Seq<char>, body: BodyModel },
    Let { name: Seq<char>, value: StaticModel },
    Rule { ordinal: u64, name: Seq<char>, value: StaticModel },
}

/// Model of a plan item.
pub open spec fn item_v1_model(i: L3PlanItem) -> ItemV1Model {
    match i {
        L3PlanItem::Config(d) => ItemV1Model::Config { name: d.name@, body: body_model(d.body) },
        L3PlanItem::Let { name, value } => ItemV1Model::Let { name: name@, value: value@ },
        L3PlanItem::Rule { ordinal, name, value } => ItemV1Model::Rule { ordinal, name: name@, value: value@ },
    }
}

/// Models of plan items.
pub open spec fn items_v1_model(v: Seq<L3PlanItem>) -> Seq<ItemV1Model> {
    v.map_values(|i: L3PlanItem| item_v1_model(i))
}

/// Why an item lies outside `{config, let, rule}`.
pub open spec fn v1_disallowed(i: SurfaceItem) -> Option<L3LowerError> {
    match i {
        SurfaceItem::Config { .. } | SurfaceItem::Let { .. } | SurfaceItem::Rule { .. } => None,
        SurfaceItem::Fn { name, .. } => Some(L3LowerError::FnItemNotAllowed(name)),
        SurfaceItem::Regime(n) => Some(L3LowerError::RegimeItemNotAllowed(n)),
        SurfaceItem::Show(_) => Some(L3LowerError::ShowItemNotAllowed),
        SurfaceItem::Use(p) => Some(L3LowerError::UnresolvedImport(p)),
        SurfaceItem::Witness(n) => Some(L3LowerError::WitnessItemNotAllowed(n)),
        SurfaceItem::Propose { name, .. } => Some(L3LowerError::ProposeItemNotAllowed(name)),
        SurfaceItem::Commit { name, .. } => Some(L3LowerError::CommitItemNotAllowed(name)),
        SurfaceItem::Input { name, .. } => Some(L3LowerError::InputItemNotAllowed(name)),
    }
}

/// The first item, from the `i`-th on, outside `{config, let, rule}`.
pub open spec fn first_v1_disallowed(items: Seq<SurfaceItem>, i: nat) -> Option<L3LowerError>
    decreases items.len() - i,
{
    if i >= items.len() {
        None
    } else if v1_disallowed(items[i as int]) is Some {
        v1_disallowed(items[i as int])
    } else {
        first_v1_disallowed(items, i + 1)
    }
}

/// The names of the first `n` items, or the first item that is a rule with
/// parameters or repeats an earlier name.
pub open spec fn names_check(items: Seq<SurfaceItem>, n: nat) -> Result<Set<Seq<char>>, L3LowerError>
    decreases n,
{
    if n == 0 || n > items.len() {
        Ok(Set::empty())
    } else {
        match names_check(items, (n - 1) as nat) {
            Err(e) => Err(e),
            Ok(seen) => match items[n - 1] {
                SurfaceItem::Config { name, .. } | SurfaceItem::Let { name, .. } => if seen.contains(name@) {
                    Err(L3LowerError::DuplicateItemName(name))
                } else {
                    Ok(seen.insert(name@))
                },
                SurfaceItem::Rule { name, params, .. } => if params@.len() > 0 {
                    Err(L3LowerError::ParameterizedRule(name))
                } else if seen.contains(name@) {
                    Err(L3LowerError::DuplicateItemName(name))
                } else {
                    Ok(seen.insert(name@))
                },
                _ => Ok(seen),
            },
        }
    }
}

/// Number of rules among the first `n` items.
pub open spec fn rule_count(items: Seq<SurfaceItem>, n: nat) -> nat
    decreases n,
{
    if n == 0 || n > items.len() {
        0
    } else {
        rule_count(items, (n - 1) as nat) + if items[n - 1] is Rule {
            1nat
        } else {
            0nat
        }
    }
}

/// The names of the configs among the first `n` items.
pub open spec fn config_names(items: Seq<SurfaceItem>, n: nat) -> Set<Seq<char>>
    decreases n,
{
    if n == 0 || n > items.len() {
        Set::empty()
    } else {
        match items[n - 1] {
            SurfaceItem::Config { name, .. } => config_names(items, (n - 1) as nat).insert(name@),
            _ => config_names(items, (n - 1) as nat),
        }
    }
}

/// The names of the configs among the first `n` items, in module order.
pub open spec fn config_order(items: Seq<SurfaceItem>, n: nat) -> Seq<Seq<char>>
    decreases n,
{
    if n == 0 || n > items.len() {
        Seq::empty()
    } else {
        match items[n - 1] {
            SurfaceItem::Config { name, .. } => config_order(items, (n - 1) as nat).push(name@),
            _ => config_order(items, (n - 1) as nat),
        }
    }
}

/// The names of the `let`s among the first `n` items.
pub open spec fn let_names(items: Seq<SurfaceItem>, n: nat) -> Set<Seq<char>>
    decreases n,
{
    if n == 0 || n > items.len() {
        Set::empty()
    } else {
        match items[n - 1] {
            SurfaceItem::Let { name, .. } => let_names(items, (n - 1) as nat).insert(name@),
            _ => let_names(items, (n - 1) as nat),
        }
    }
}

/// A surface type resolved against the config names: `Int`, `Str` or a
/// declared config; a graded, applied or anonymous record type, `Float`, or
/// an unknown name is refused.
pub open spec fn resolve_ty_spec(t: SurfaceTy, names: Set<Seq<char>>) -> Result<L3TypeRef, L3LowerError> {
    match t {
        SurfaceTy::Graded(_, _, text) => Err(L3LowerError::GradeAssertionUnsupported(text)),
        SurfaceTy::App(n) => Err(L3LowerError::UnknownTypeName(n)),
        SurfaceTy::Record => Err(L3LowerError::AnonymousRecordTypeNotAllowed),
        SurfaceTy::Named(n) => if n@ == "Int"@ {
            Ok(L3TypeRef::Int)
        } else if n@ == "Str"@ {
            Ok(L3TypeRef::Str)
        } else if n@ == "Float"@ {
            Err(L3LowerError::UnsupportedPrimitiveType(n))
        } else if names.contains(n@) {
            Ok(L3TypeRef::Config(n))
        } else {
            Err(L3LowerError::UnknownTypeName(n))
        },
    }
}

/// The first `n` fields of record config `cfg` with their resolved types,
/// or the first field that repeats a name or has an unresolvable type.
pub open spec fn field_types(cfg: String, fs: Seq<SurfaceField>, names: Set<Seq<char>>, n: nat) -> Result<
    Seq<(String, L3TypeRef)>,
    L3LowerError,
>
    decreases n,
{
    if n == 0 || n > fs.len() {
        Ok(Seq::empty())
    } else {
        match field_types(cfg, fs, names, (n - 1) as nat) {
            Err(e) => Err(e),
            Ok(out) => {
                let f = fs[n - 1];
                if exists|j: int| 0 <= j < n - 1 && (#[trigger] fs[j]).name@ == f.name@ {
                    Err(L3LowerError::DuplicateConfigMember { config: cfg, member: f.name })
                } else {
                    match resolve_ty_spec(f.ty, names) {
                        Err(e) => Err(e),
                        Ok(t) => Ok(out.push((f.name, t))),
                    }
                }
            },
        }
    }
}

/// The first `n` parameter types resolved, or the first unresolvable one.
pub open spec fn param_types(ps: Seq<SurfaceTy>, names: Set<Seq<char>>, n: nat) -> Result<Seq<L3TypeRef>, L3LowerError>
    decreases n,
{
    if n == 0 || n > ps.len() {
        Ok(Seq::empty())
    } else {
        match param_types(ps, names, (n - 1) as nat) {
            Err(e) => Err(e),
            Ok(out) => match resolve_ty_spec(ps[n - 1], names) {
                Err(e) => Err(e),
                Ok(t) => Ok(out.push(t)),
            },
        }
    }
}

/// The first `n` variants of sum config `cfg` with their resolved
/// parameter types, or the first variant that repeats a name or has an
/// unresolvable parameter type.
pub open spec fn variant_types(cfg: String, vs: Seq<SurfaceVariant>, names: Set<Seq<char>>, n: nat) -> Result<
    Seq<(String, Seq<L3TypeRef>)>,
    L3LowerError,
>
    decreases n,
{
    if n == 0 || n > vs.len() {
        Ok(Seq::empty())
    } else {
        match variant_types(cfg, vs, names, (n - 1) as nat) {
            Err(e) => Err(e),
            Ok(out) => {
                let v = vs[n - 1];
                if exists|j: int| 0 <= j < n - 1 && (#[trigger] vs[j]).name@ == v.name@ {
                    Err(L3LowerError::DuplicateConfigMember { config: cfg, member: v.name })
                } else {
                    match param_types(v.params@, names, v.params@.len()) {
                        Err(e) => Err(e),
                        Ok(ts) => Ok(out.push((v.name, ts))),
                    }
                }
            },
        }
    }
}

/// Number of parameters of the first `n` variants.
pub open spec fn params_total(vs: Seq<SurfaceVariant>, n: nat) -> nat
    decreases n,
{
    if n == 0 || n > vs.len() {
        0
    } else {
        params_total(vs, (n - 1) as nat) + vs[n - 1].params@.len()
    }
}

/// The config nodes a body adds besides its declaration: one per member,
/// and one per variant parameter.
pub open spec fn body_nodes(b: SurfaceConfigBody) -> nat {
    match b {
        SurfaceConfigBody::Record(fs) => fs@.len(),
        SurfaceConfigBody::Sum(vs) => vs@.len() + params_total(vs@, vs@.len()),
    }
}

/// The resolved body of config `cfg`.
pub open spec fn body_spec(cfg: String, b: SurfaceConfigBody, names: Set<Seq<char>>) -> Result<BodyModel, L3LowerError> {
    match b {
        SurfaceConfigBody::Record(fs) => match field_types(cfg, fs@, names, fs@.len()) {
            Ok(x) => Ok(BodyModel::Record(x)),
            Err(e) => Err(e),
        },
        SurfaceConfigBody::Sum(vs) => match variant_types(cfg, vs@, names, vs@.len()) {
            Ok(x) => Ok(BodyModel::Sum(x)),
            Err(e) => Err(e),
        },
    }
}

/// The configs among the first `n` items, resolved, with the running count
/// of config nodes, or the first config that cannot be resolved or takes
/// the count past its limit.
pub open spec fn configs_pass(items: Seq<SurfaceItem>, names: Set<Seq<char>>, lim: PlanLimitsV1, n: nat) -> Result<
    (Seq<(Seq<char>, BodyModel)>, u64),
    L3LowerError,
>
    decreases n,
{
    if n == 0 || n > items.len() {
        Ok((Seq::empty(), 0))
    } else {
        match configs_pass(items, names, lim, (n - 1) as nat) {
            Err(e) => Err(e),
            Ok((cfgs, total)) => match items[n - 1] {
                SurfaceItem::Config { name, body } => match body_spec(name, body, names) {
                    Err(e) => Err(e),
                    Ok(b) => {
                        let t = sat64(total + 1 + body_nodes(body));
                        if t > lim.max_config_nodes {
                            Err(L3LowerError::ConfigNodeLimitExceeded { limit: lim.max_config_nodes, actual: t })
                        } else {
                            Ok((insert_pairs(cfgs, name@, b), t))
                        }
                    },
                },
                _ => Ok((cfgs, total)),
            },
        }
    }
}

/// The constructor table after the first `n` variants of sum `sum`: a
/// variant name two sums declare becomes ambiguous and resolves to neither.
pub open spec fn variant_ctors(
    sum: String,
    vs: Seq<SurfaceVariant>,
    n: nat,
    ctors: Seq<(Seq<char>, (String, usize))>,
    amb: Set<Seq<char>>,
) -> (Seq<(Seq<char>, (String, usize))>, Set<Seq<char>>)
    decreases n,
{
    if n == 0 || n > vs.len() {
        (ctors, amb)
    } else {
        let (c, a) = variant_ctors(sum, vs, (n - 1) as nat, ctors, amb);
        let v = vs[n - 1];
        if a.contains(v.name@) {
            (c, a)
        } else {
            match assoc_get(c, v.name@) {
                Some(e) => if e.0@ != sum@ {
                    (c, a.insert(v.name@))
                } else {
                    (c, a)
                },
                None => (insert_pairs(c, v.name@, (sum, v.params@.len() as usize)), a),
            }
        }
    }
}

/// The constructor table and the ambiguous names after the sums among the
/// first `n` items.
pub open spec fn ctor_pass(items: Seq<SurfaceItem>, n: nat) -> (Seq<(Seq<char>, (String, usize))>, Set<Seq<char>>)
    decreases n,
{
    if n == 0 || n > items.len() {
        (Seq::empty(), Set::empty())
    } else {
        let (c, a) = ctor_pass(items, (n - 1) as nat);
        match items[n - 1] {
            SurfaceItem::Config { name, body: SurfaceConfigBody::Sum(vs) } => variant_ctors(name, vs@, vs@.len(), c, a),
            _ => (c, a),
        }
    }
}

/// The fields of a record model.
pub open spec fn model_fields(m: StaticModel) -> Seq<(Seq<char>, StaticModel)> {
    match m {
        StaticModel::Record { fields, .. } => fields,
        _ => Seq::empty(),
    }
}

/// Nodes of a closed value model.
pub open spec fn static_nodes(m: StaticModel) -> nat
    decreases m, 1nat, 0nat,
{
    match m {
        StaticModel::Record { .. } => 1 + static_fields_nodes(m, 0),
        _ => 1,
    }
}

/// Nodes of the field values of `parent` from the `i`-th on.
pub open spec fn static_fields_nodes(parent: StaticModel, i: nat) -> nat
    decreases parent, 0nat, model_fields(parent).len() - i,
{
    if i >= model_fields(parent).len() {
        0
    } else {
        static_nodes(model_fields(parent)[i as int].1) + static_fields_nodes(parent, i + 1)
    }
}

/// String bytes of a closed value model.
pub open spec fn static_bytes(m: StaticModel) -> nat
    decreases m, 1nat, 0nat,
{
    match m {
        StaticModel::Str(s) => byte_len(s) as nat,
        StaticModel::Record { .. } => static_fields_bytes(m, 0),
        _ => 0,
    }
}

/// String bytes of the field values of `parent` from the `i`-th on.
pub open spec fn static_fields_bytes(parent: StaticModel, i: nat) -> nat
    decreases parent, 0nat, model_fields(parent).len() - i,
{
    if i >= model_fields(parent).len() {
        0
    } else {
        static_bytes(model_fields(parent)[i as int].1) + static_fields_bytes(parent, i + 1)
    }
}

/// Depth of a closed value model; the root has depth one.
pub open spec fn static_depth(m: StaticModel) -> nat
    decreases m, 1nat, 0nat,
{
    match m {
        StaticModel::Record { .. } => 1 + static_fields_depth(m, 0),
        _ => 1,
    }
}

/// Largest depth among the field values of `parent` from the `i`-th on.
pub open spec fn static_fields_depth(parent: StaticModel, i: nat) -> nat
    decreases parent, 0nat, model_fields(parent).len() - i,
{
    if i >= model_fields(parent).len() {
        0
    } else {
        let d = static_depth(model_fields(parent)[i as int].1);
        let rest = static_fields_depth(parent, i + 1);
        if d > rest {
            d
        } else {
            rest
        }
    }
}

/// The footprint a closed value is charged.
pub open spec fn metrics_of(m: StaticModel) -> ValueMetrics {
    ValueMetrics {
        nodes: sat64(static_nodes(m) as int),
        bytes: sat64(static_bytes(m) as int),
        depth: sat64(static_depth(m) as int),
    }
}

/// A declared type, when there is one, that value `v` of item `name` has.
pub open spec fn declared_check(ty: Option<SurfaceTy>, v: StaticModel, name: String, names: Set<Seq<char>>) -> Result<
    (),
    PlanV1Fault,
> {
    match ty {
        None => Ok(()),
        Some(t) => match resolve_ty_spec(t, names) {
            Err(e) => Err(PlanV1Fault::Exact(e)),
            Ok(x) => if has_type(v, x) {
                Ok(())
            } else {
                Err(PlanV1Fault::Declared { name: name@, expected: type_ref_debug(x), found: model_type_debug(v) })
            },
        },
    }
}

/// What the closing pass has made so far: the plan items, the closed `let`
/// values, the value budget and the next rule ordinal.
pub struct Closing {
    pub items: Seq<ItemV1Model>,
    pub lets: Seq<(Seq<char>, StaticModel)>,
    pub budget: ValueBudget,
    pub ordinal: u64,
}

/// The fixed part of what normalization reads: configs, constructors,
/// ambiguous names and every `let` name.
pub struct Tables {
    pub configs: Seq<(Seq<char>, BodyModel)>,
    pub ctors: Seq<(Seq<char>, (String, usize))>,
    pub ambiguous: Set<Seq<char>>,
    pub all_lets: Set<Seq<char>>,
    pub names: Set<Seq<char>>,
}

/// The scope an item is normalized in.
pub open spec fn item_scope(t: Tables, lets: Seq<(Seq<char>, StaticModel)>, self_name: Option<String>) -> NormScope {
    NormScope {
        configs: t.configs,
        ctors: t.ctors,
        ambiguous: t.ambiguous,
        closed_lets: lets,
        all_lets: t.all_lets,
        self_name,
    }
}

/// Normalize, check the declared type of, and charge a value.
pub open spec fn close_value(
    t: Tables,
    c: Closing,
    e: crate::l3_v2::lower::SurfaceExpr,
    ty: Option<SurfaceTy>,
    name: String,
    self_name: Option<String>,
) -> Result<(StaticModel, ValueBudget), PlanV1Fault> {
    match normalize_spec(e, item_scope(t, c.lets, self_name)) {
        Err(f) => Err(PlanV1Fault::Norm(f)),
        Ok(v) => match declared_check(ty, v, name, t.names) {
            Err(f) => Err(f),
            Ok(()) => {
                let (b, r) = charge_spec(c.budget, metrics_of(v));
                match r {
                    Err(x) => Err(PlanV1Fault::Exact(x)),
                    Ok(()) => Ok((v, b)),
                }
            },
        }
    }
}

/// The closing pass over the first `n` items, in module order.
pub open spec fn close_items(items: Seq<SurfaceItem>, t: Tables, lim: PlanLimitsV1, n: nat) -> Result<Closing, PlanV1Fault>
    decreases n,
{
    if n == 0 || n > items.len() {
        Ok(Closing { items: Seq::empty(), lets: Seq::empty(), budget: ValueBudget { limits: lim, total_nodes: 0, total_bytes: 0 }, ordinal: 0 })
    } else {
        match close_items(items, t, lim, (n - 1) as nat) {
            Err(f) => Err(f),
            Ok(c) => match items[n - 1] {
                SurfaceItem::Config { name, .. } => match assoc_get(t.configs, name@) {
                    Some(b) => Ok(Closing { items: c.items.push(ItemV1Model::Config { name: name@, body: b }), ..c }),
                    None => Ok(c),
                },
                SurfaceItem::Let { name, ty, value } => match close_value(t, c, value, ty, name, Some(name)) {
                    Err(f) => Err(f),
                    Ok((v, b)) => Ok(
                        Closing {
                            items: c.items.push(ItemV1Model::Let { name: name@, value: v }),
                            lets: insert_pairs(c.lets, name@, v),
                            budget: b,
                            ordinal: c.ordinal,
                        },
                    ),
                },
                SurfaceItem::Rule { name, ret, body, .. } => match close_value(t, c, body, ret, name, None) {
                    Err(f) => Err(f),
                    Ok((v, b)) => Ok(
                        Closing {
                            items: c.items.push(ItemV1Model::Rule { ordinal: c.ordinal, name: name@, value: v }),
                            lets: c.lets,
                            budget: b,
                            ordinal: (c.ordinal + 1) as u64,
                        },
                    ),
                },
                _ => Ok(c),
            },
        }
    }
}

/// The items of the rule-agenda plan a module lowers to, or the first
/// reason it is not one: the profile, then any item outside `{config, let,
/// rule}`, then parameterized rules and repeated names, then the rule count,
/// then each config in order and the config cycles, then each `let` and
/// rule in order.
pub open spec fn l3_plan_spec(items: Seq<SurfaceItem>, profile: Seq<char>, lim: PlanLimitsV1) -> Result<
    Seq<ItemV1Model>,
    PlanV1Fault,
> {
    let n = items.len();
    if profile != L3_PROFILE_MARKER_V1@ {
        Err(PlanV1Fault::Profile(profile))
    } else if first_v1_disallowed(items, 0) is Some {
        Err(PlanV1Fault::Exact(first_v1_disallowed(items, 0)->0))
    } else if names_check(items, n) is Err {
        Err(PlanV1Fault::Exact(names_check(items, n)->Err_0))
    } else if rule_count(items, n) > lim.max_selected_rules {
        Err(
            PlanV1Fault::Exact(
                L3LowerError::RuleCountExceeded { limit: lim.max_selected_rules, actual: rule_count(items, n) as u64 },
            ),
        )
    } else {
        let names = config_names(items, n);
        match configs_pass(items, names, lim, n) {
            Err(e) => Err(PlanV1Fault::Exact(e)),
            Ok((cfgs, _)) => {
                let order = config_order(items, n);
                match config_walk_all(cfgs, order, 0, initial_states(order)) {
                    ConfigWalk::Recursive(c) => Err(PlanV1Fault::Recursive(c)),
                    ConfigWalk::Finished(_) => {
                        let (ctors, amb) = ctor_pass(items, n);
                        let t = Tables { configs: cfgs, ctors, ambiguous: amb, all_lets: let_names(items, n), names };
                        match close_items(items, t, lim, n) {
                            Err(f) => Err(f),
                            Ok(c) => Ok(c.items),
                        }
                    },
                }
            },
        }
    }
}

/// Number of rule items among `ms`.
pub open spec fn rules_in(ms: Seq<ItemV1Model>) -> nat
    decreases ms.len(),
{
    if ms.len() == 0 {
        0
    } else {
        rules_in(ms.drop_last()) + if ms.last() is Rule {
            1nat
        } else {
            0nat
        }
    }
}

/// Every rule item of `ms` carries as its ordinal the number of rules
/// before it.
pub open spec fn numbered_in_order(ms: Seq<ItemV1Model>) -> bool {
    forall|i: int| 0 <= i < ms.len() && (#[trigger] ms[i]) is Rule ==> ms[i]->Rule_ordinal == rules_in(ms.take(i))
}

proof fn lemma_close_numbered(items: Seq<SurfaceItem>, t: Tables, lim: PlanLimitsV1, n: nat)
    requires
        items.len() <= usize::MAX,
    ensures
        close_items(items, t, lim, n) matches Ok(c) ==> c.ordinal == rules_in(c.items) && numbered_in_order(c.items)
            && c.ordinal <= n,
    decreases n,
{
    if n == 0 || n > items.len() {
        if let Ok(c) = close_items(items, t, lim, n) {
            assert(c.items.len() == 0);
        }
    } else {
        lemma_close_numbered(items, t, lim, (n - 1) as nat);
        if let Ok(c0) = close_items(items, t, lim, (n - 1) as nat) {
            if let Ok(c) = close_items(items, t, lim, n) {
                if c.items.len() > c0.items.len() {
                    let x = c.items.last();
                    assert(c.items =~= c0.items.push(x));
                    assert(c.items.drop_last() =~= c0.items);
                    assert forall|i: int| 0 <= i < c.items.len() && (#[trigger] c.items[i]) is Rule implies c.items[i]->Rule_ordinal
                        == rules_in(c.items.take(i)) by {
                        if i < c0.items.len() {
                            assert(c.items.take(i) =~= c0.items.take(i));
                            assert(c.items[i] == c0.items[i]);
                        } else {
                            assert(c.items.take(i) =~= c0.items);
                        }
                    }
                } else {
                    assert(c.items =~= c0.items);
                }
            }
        }
    }
}

/// The rules of a plan are numbered in module order from zero.
pub proof fn lemma_plan_rules_numbered(items: Seq<SurfaceItem>, profile: Seq<char>, lim: PlanLimitsV1)
    requires
        items.len() <= usize::MAX,
    ensures
        l3_plan_spec(items, profile, lim) matches Ok(ms) ==> numbered_in_order(ms),
{
    let n = items.len();
    if let Ok((cfgs, _)) = configs_pass(items, config_names(items, n), lim, n) {
        let (ctors, amb) = ctor_pass(items, n);
        let t = Tables { configs: cfgs, ctors, ambiguous: amb, all_lets: let_names(items, n), names: config_names(items, n) };
        lemma_close_numbered(items, t, lim, n);
    }
}

proof fn lemma_configs_declared(items: Seq<SurfaceItem>, names: Set<Seq<char>>, lim: PlanLimitsV1, n: nat)
    ensures
        configs_pass(items, names, lim, n) matches Ok((cfgs, _)) ==> keys_ascending(cfgs) && forall|i: int|
            0 <= i < cfgs.len() ==> config_order(items, n).contains(#[trigger] cfgs[i].0),
    decreases n,
{
    if n > 0 && n <= items.len() {
        lemma_configs_declared(items, names, lim, (n - 1) as nat);
        if let Ok((c0, _)) = configs_pass(items, names, lim, (n - 1) as nat) {
            if let Ok((cfgs, _)) = configs_pass(items, names, lim, n) {
                let o0 = config_order(items, (n - 1) as nat);
                let o = config_order(items, n);
                assert forall|x: Seq<char>| o0.contains(x) implies o.contains(x) by {
                    if items[n - 1] is Config {
                        let j = choose|j: int| 0 <= j < o0.len() && o0[j] == x;
                        assert(o[j] == x);
                    }
                }
                if let SurfaceItem::Config { name, body } = items[n - 1] {
                    if let Ok(b) = body_spec(name, body, names) {
                        crate::keymap::lemma_insert_pairs_shape(c0, name@, b);
                        lemma_insert_get(c0, name@, b, name@);
                        assert(o[o.len() - 1] == name@);
                        assert forall|i: int| 0 <= i < cfgs.len() implies o.contains(#[trigger] cfgs[i].0) by {
                            if cfgs[i] != (name@, b) {
                                let j = choose|j: int| 0 <= j < c0.len() && c0[j] == cfgs[i];
                                assert(o0.contains(c0[j].0));
                            }
                        }
                    }
                }
            }
        }
    }
}

/// A plan's configs never depend on themselves, directly or through other
/// configs.
pub proof fn lemma_plan_configs_acyclic(items: Seq<SurfaceItem>, profile: Seq<char>, lim: PlanLimitsV1)
    requires
        l3_plan_spec(items, profile, lim) is Ok,
    ensures
        configs_pass(items, config_names(items, items.len()), lim, items.len()) matches Ok((cfgs, _))
            && !has_dep_cycle(cfgs),
{
    let n = items.len();
    lemma_configs_declared(items, config_names(items, n), lim, n);
    if let Ok((cfgs, _)) = configs_pass(items, config_names(items, n), lim, n) {
        lemma_config_cycle_detected(cfgs, config_order(items, n));
    }
}

/// Whether a set-like map holds `k`.
fn has_name(m: &KeyMap<()>, k: &str) -> (b: bool)
    ensures
        b == names_of(*m).contains(k@),
{
    m.get(k).is_some()
}

/// Why an item lies outside `{config, let, rule}`.
fn v1_item_not_allowed(item: &SurfaceItem) -> (r: Option<L3LowerError>)
    ensures
        r == v1_disallowed(*item),
{
    match item {
        SurfaceItem::Config { .. } | SurfaceItem::Let { .. } | SurfaceItem::Rule { .. } => None,
        SurfaceItem::Fn { name, .. } => Some(L3LowerError::FnItemNotAllowed(name.clone())),
        SurfaceItem::Regime(n) => Some(L3LowerError::RegimeItemNotAllowed(n.clone())),
        SurfaceItem::Show(_) => Some(L3LowerError::ShowItemNotAllowed),
        SurfaceItem::Use(p) => Some(L3LowerError::UnresolvedImport(p.clone())),
        SurfaceItem::Witness(n) => Some(L3LowerError::WitnessItemNotAllowed(n.clone())),
        SurfaceItem::Propose { name, .. } => Some(L3LowerError::ProposeItemNotAllowed(name.clone())),
        SurfaceItem::Commit { name, .. } => Some(L3LowerError::CommitItemNotAllowed(name.clone())),
        SurfaceItem::Input { name, .. } => Some(L3LowerError::InputItemNotAllowed(name.clone())),
    }
}

/// Resolve a surface type against the config names.
fn resolve_ty(t: &SurfaceTy, names: &KeyMap<()>) -> (r: Result<L3TypeRef, L3LowerError>)
    ensures
        r == resolve_ty_spec(*t, names_of(*names)),
{
    match t {
        SurfaceTy::Graded(_, _, text) => Err(L3LowerError::GradeAssertionUnsupported(text.clone())),
        SurfaceTy::App(n) => Err(L3LowerError::UnknownTypeName(n.clone())),
        SurfaceTy::Record => Err(L3LowerError::AnonymousRecordTypeNotAllowed),
        SurfaceTy::Named(n) => {
            if crate::keymap::same_text(n.as_str(), "Int") {
                Ok(L3TypeRef::Int)
            } else if crate::keymap::same_text(n.as_str(), "Str") {
                Ok(L3TypeRef::Str)
            } else if crate::keymap::same_text(n.as_str(), "Float") {
                Err(L3LowerError::UnsupportedPrimitiveType(n.clone()))
            } else if has_name(names, n.as_str()) {
                Ok(L3TypeRef::Config(n.clone()))
            } else {
                Err(L3LowerError::UnknownTypeName(n.clone()))
            }
        },
    }
}

proof fn lemma_field_types_stop(cfg: String, fs: Seq<SurfaceField>, names: Set<Seq<char>>, k: nat, n: nat)
    requires
        k <= n <= fs.len(),
        field_types(cfg, fs, names, k) is Err,
    ensures
        field_types(cfg, fs, names, n) == field_types(cfg, fs, names, k),
    decreases n - k,
{
    if k < n {
        lemma_field_types_stop(cfg, fs, names, k, (n - 1) as nat);
    }
}

proof fn lemma_param_types_stop(ps: Seq<SurfaceTy>, names: Set<Seq<char>>, k: nat, n: nat)
    requires
        k <= n <= ps.len(),
        param_types(ps, names, k) is Err,
    ensures
        param_types(ps, names, n) == param_types(ps, names, k),
    decreases n - k,
{
    if k < n {
        lemma_param_types_stop(ps, names, k, (n - 1) as nat);
    }
}

proof fn lemma_variant_types_stop(cfg: String, vs: Seq<SurfaceVariant>, names: Set<Seq<char>>, k: nat, n: nat)
    requires
        k <= n <= vs.len(),
        variant_types(cfg, vs, names, k) is Err,
    ensures
        variant_types(cfg, vs, names, n) == variant_types(cfg, vs, names, k),
    decreases n - k,
{
    if k < n {
        lemma_variant_types_stop(cfg, vs, names, k, (n - 1) as nat);
    }
}

/// Whether a field before the `i`-th has the `i`-th field's name.
fn field_seen(fs: &Vec<SurfaceField>, i: usize) -> (b: bool)
    requires
        i < fs@.len(),
    ensures
        b == exists|j: int| 0 <= j < i && (#[trigger] fs@[j]).name@ == fs@[i as int].name@,
{
    let mut j: usize = 0;
    while j < i
        invariant
            j <= i < fs@.len(),
            forall|q: int| 0 <= q < j ==> (#[trigger] fs@[q]).name@ != fs@[i as int].name@,
        decreases i - j,
    {
        if crate::keymap::same_text(fs[j].name.as_str(), fs[i].name.as_str()) {
            return true;
        }
        j = j + 1;
    }
    false
}

/// Whether a variant before the `i`-th has the `i`-th variant's name.
fn variant_seen(vs: &Vec<SurfaceVariant>, i: usize) -> (b: bool)
    requires
        i < vs@.len(),
    ensures
        b == exists|j: int| 0 <= j < i && (#[trigger] vs@[j]).name@ == vs@[i as int].name@,
{
    let mut j: usize = 0;
    while j < i
        invariant
            j <= i < vs@.len(),
            forall|q: int| 0 <= q < j ==> (#[trigger] vs@[q]).name@ != vs@[i as int].name@,
        decreases i - j,
    {
        if crate::keymap::same_text(vs[j].name.as_str(), vs[i].name.as_str()) {
            return true;
        }
        j = j + 1;
    }
    false
}

/// The fields of record config `cfg` with their resolved types.
fn record_types(cfg: &String, fs: &Vec<SurfaceField>, names: &KeyMap<()>) -> (r: Result<
    Vec<(String, L3TypeRef)>,
    L3LowerError,
>)
    ensures
        match field_types(*cfg, fs@, names_of(*names), fs@.len()) {
            Ok(x) => r matches Ok(v) && v@ == x,
            Err(e) => r matches Err(y) && y == e,
        },
{
    let ghost nm = names_of(*names);
    let mut out: Vec<(String, L3TypeRef)> = Vec::new();
    let mut i: usize = 0;
    while i < fs.len()
        invariant
            i <= fs@.len(),
            nm == names_of(*names),
            field_types(*cfg, fs@, nm, i as nat) == Ok::<Seq<(String, L3TypeRef)>, L3LowerError>(out@),
        decreases fs@.len() - i,
    {
        if field_seen(fs, i) {
            proof {
                lemma_field_types_stop(*cfg, fs@, nm, (i + 1) as nat, fs@.len());
            }
            return Err(L3LowerError::DuplicateConfigMember { config: cfg.clone(), member: fs[i].name.clone() });
        }
        match resolve_ty(&fs[i].ty, names) {
            Err(e) => {
                proof {
                    lemma_field_types_stop(*cfg, fs@, nm, (i + 1) as nat, fs@.len());
                }
                return Err(e);
            },
            Ok(t) => {
                out.push((fs[i].name.clone(), t));
            },
        }
        i = i + 1;
    }
    Ok(out)
}

/// Parameter types resolved.
fn params_resolved(ps: &Vec<SurfaceTy>, names: &KeyMap<()>) -> (r: Result<Vec<L3TypeRef>, L3LowerError>)
    ensures
        match param_types(ps@, names_of(*names), ps@.len()) {
            Ok(x) => r matches Ok(v) && v@ == x,
            Err(e) => r matches Err(y) && y == e,
        },
{
    let ghost nm = names_of(*names);
    let mut out: Vec<L3TypeRef> = Vec::new();
    let mut i: usize = 0;
    while i < ps.len()
        invariant
            i <= ps@.len(),
            nm == names_of(*names),
            param_types(ps@, nm, i as nat) == Ok::<Seq<L3TypeRef>, L3LowerError>(out@),
        decreases ps@.len() - i,
    {
        match resolve_ty(&ps[i], names) {
            Err(e) => {
                proof {
                    lemma_param_types_stop(ps@, nm, (i + 1) as nat, ps@.len());
                }
                return Err(e);
            },
            Ok(t) => {
                out.push(t);
            },
        }
        i = i + 1;
    }
    Ok(out)
}

/// The variants of sum config `cfg` with their resolved parameter types.
fn sum_types(cfg: &String, vs: &Vec<SurfaceVariant>, names: &KeyMap<()>) -> (r: Result<
    Vec<(String, Vec<L3TypeRef>)>,
    L3LowerError,
>)
    ensures
        match variant_types(*cfg, vs@, names_of(*names), vs@.len()) {
            Ok(x) => r matches Ok(v) && v@.map_values(|p: (String, Vec<L3TypeRef>)| (p.0, p.1@)) == x,
            Err(e) => r matches Err(y) && y == e,
        },
{
    let ghost nm = names_of(*names);
    let mut out: Vec<(String, Vec<L3TypeRef>)> = Vec::new();
    proof {
        assert(out@.map_values(|p: (String, Vec<L3TypeRef>)| (p.0, p.1@)) =~= Seq::<(String, Seq<L3TypeRef>)>::empty());
    }
    let mut i: usize = 0;
    while i < vs.len()
        invariant
            i <= vs@.len(),
            nm == names_of(*names),
            variant_types(*cfg, vs@, nm, i as nat) == Ok::<Seq<(String, Seq<L3TypeRef>)>, L3LowerError>(
                out@.map_values(|p: (String, Vec<L3TypeRef>)| (p.0, p.1@)),
            ),
        decreases vs@.len() - i,
    {
        if variant_seen(vs, i) {
            proof {
                lemma_variant_types_stop(*cfg, vs@, nm, (i + 1) as nat, vs@.len());
            }
            return Err(L3LowerError::DuplicateConfigMember { config: cfg.clone(), member: vs[i].name.clone() });
        }
        match params_resolved(&vs[i].params, names) {
            Err(e) => {
                proof {
                    lemma_variant_types_stop(*cfg, vs@, nm, (i + 1) as nat, vs@.len());
                }
                return Err(e);
            },
            Ok(ts) => {
                let ghost before = out@.map_values(|p: (String, Vec<L3TypeRef>)| (p.0, p.1@));
                out.push((vs[i].name.clone(), ts));
                proof {
                    assert(out@.map_values(|p: (String, Vec<L3TypeRef>)| (p.0, p.1@)) =~= before.push(
                        (vs@[i as int].name, ts@),
                    ));
                }
            },
        }
        i = i + 1;
    }
    Ok(out)
}

/// The config node count after a body: the declaration, each member and
/// each variant parameter, saturating.
fn count_body_nodes(body: &SurfaceConfigBody, total: u64) -> (t: u64)
    ensures
        t == sat64(total + 1 + body_nodes(*body)),
{
    let mut t: u64 = total.saturating_add(1);
    match body {
        SurfaceConfigBody::Record(fs) => {
            let mut i: usize = 0;
            while i < fs.len()
                invariant
                    i <= fs@.len(),
                    t == sat64(total + 1 + i),
                decreases fs@.len() - i,
            {
                t = t.saturating_add(1);
                i = i + 1;
            }
        },
        SurfaceConfigBody::Sum(vs) => {
            let mut i: usize = 0;
            while i < vs.len()
                invariant
                    i <= vs@.len(),
                    t == sat64(total + 1 + i + params_total(vs@, i as nat)),
                decreases vs@.len() - i,
            {
                t = t.saturating_add(1);
                let ps = &vs[i].params;
                let mut j: usize = 0;
                while j < ps.len()
                    invariant
                        j <= ps@.len(),
                        i < vs@.len(),
                        *ps == vs@[i as int].params,
                        t == sat64(total + 1 + i + 1 + params_total(vs@, i as nat) + j),
                    decreases ps@.len() - j,
                {
                    t = t.saturating_add(1);
                    j = j + 1;
                }
                i = i + 1;
            }
        },
    }
    t
}


proof fn lemma_metrics_model(v: L3ValueV1)
    ensures
        value_nodes(v) == static_nodes(v@),
        value_bytes(v) == static_bytes(v@),
        value_depth(v) == static_depth(v@),
    decreases v, 1nat, 0nat,
{
    if v is Record {
        lemma_fields_metrics_model(v, 0);
    }
}

proof fn lemma_fields_metrics_model(v: L3ValueV1, i: nat)
    requires
        v is Record,
    ensures
        fields_nodes(v, i) == static_fields_nodes(v@, i),
        fields_bytes(v, i) == static_fields_bytes(v@, i),
        fields_depth(v, i) == static_fields_depth(v@, i),
    decreases v, 0nat, value_fields(v).len() - i,
{
    let fs = value_fields(v);
    lemma_static_fields_prefix(fs, fs.len());
    assert(model_fields(v@).len() == fs.len());
    if i < fs.len() {
        assert(decreases_to!(v => v->Record_fields));
        assert(decreases_to!(v->Record_fields => v->Record_fields@));
        assert(decreases_to!(v->Record_fields@ => v->Record_fields@[i as int]));
        assert(decreases_to!(v->Record_fields@[i as int] => v->Record_fields@[i as int].1));
        lemma_metrics_model(fs[i as int].1);
        lemma_fields_metrics_model(v, i + 1);
        assert(model_fields(v@)[i as int].1 == fs[i as int].1@);
    }
}

/// A copy of a type.
fn copy_type_ref(t: &L3TypeRef) -> (r: L3TypeRef)
    ensures
        r == *t,
{
    match t {
        L3TypeRef::Int => L3TypeRef::Int,
        L3TypeRef::Str => L3TypeRef::Str,
        L3TypeRef::Config(c) => L3TypeRef::Config(c.clone()),
    }
}

/// A copy of a config declaration.
fn copy_decl(d: &L3ConfigDecl) -> (r: L3ConfigDecl)
    ensures
        r.name == d.name,
        body_model(r.body) == body_model(d.body),
{
    let body = match &d.body {
        L3ConfigBody::Record(fs) => {
            let mut out: Vec<(String, L3TypeRef)> = Vec::new();
            let mut i: usize = 0;
            while i < fs.len()
                invariant
                    i <= fs@.len(),
                    out@ == fs@.subrange(0, i as int),
                decreases fs@.len() - i,
            {
                out.push((fs[i].0.clone(), copy_type_ref(&fs[i].1)));
                proof {
                    assert(out@ =~= fs@.subrange(0, i + 1));
                }
                i = i + 1;
            }
            proof {
                assert(fs@.subrange(0, fs@.len() as int) =~= fs@);
            }
            L3ConfigBody::Record(out)
        },
        L3ConfigBody::Sum(vs) => {
            let ghost m = vs@.map_values(|p: (String, Vec<L3TypeRef>)| (p.0, p.1@));
            let mut out: Vec<(String, Vec<L3TypeRef>)> = Vec::new();
            let mut i: usize = 0;
            while i < vs.len()
                invariant
                    i <= vs@.len(),
                    m == vs@.map_values(|p: (String, Vec<L3TypeRef>)| (p.0, p.1@)),
                    out@.map_values(|p: (String, Vec<L3TypeRef>)| (p.0, p.1@)) == m.subrange(0, i as int),
                decreases vs@.len() - i,
            {
                let ps = &vs[i].1;
                let mut qs: Vec<L3TypeRef> = Vec::new();
                let mut j: usize = 0;
                while j < ps.len()
                    invariant
                        j <= ps@.len(),
                        qs@ == ps@.subrange(0, j as int),
                    decreases ps@.len() - j,
                {
                    qs.push(copy_type_ref(&ps[j]));
                    proof {
                        assert(qs@ =~= ps@.subrange(0, j + 1));
                    }
                    j = j + 1;
                }
                proof {
                    assert(ps@.subrange(0, ps@.len() as int) =~= ps@);
                }
                let ghost before = out@.map_values(|p: (String, Vec<L3TypeRef>)| (p.0, p.1@));
                out.push((vs[i].0.clone(), qs));
                proof {
                    assert(qs@ == vs@[i as int].1@);
                    assert(out@.map_values(|p: (String, Vec<L3TypeRef>)| (p.0, p.1@)) =~= before.push(
                        (vs@[i as int].0, qs@),
                    ));
                    assert(m.subrange(0, i + 1) =~= m.subrange(0, i as int).push(m[i as int]));
                }
                i = i + 1;
            }
            proof {
                assert(m.subrange(0, m.len() as int) =~= m);
            }
            L3ConfigBody::Sum(out)
        },
    };
    L3ConfigDecl { name: d.name.clone(), body }
}

proof fn lemma_names_stop(items: Seq<SurfaceItem>, k: nat, n: nat)
    requires
        k <= n <= items.len(),
        names_check(items, k) is Err,
    ensures
        names_check(items, n) == names_check(items, k),
    decreases n - k,
{
    if k < n {
        lemma_names_stop(items, k, (n - 1) as nat);
    }
}

proof fn lemma_configs_stop(items: Seq<SurfaceItem>, names: Set<Seq<char>>, lim: PlanLimitsV1, k: nat, n: nat)
    requires
        k <= n <= items.len(),
        configs_pass(items, names, lim, k) is Err,
    ensures
        configs_pass(items, names, lim, n) == configs_pass(items, names, lim, k),
    decreases n - k,
{
    if k < n {
        lemma_configs_stop(items, names, lim, k, (n - 1) as nat);
    }
}

proof fn lemma_close_stop(items: Seq<SurfaceItem>, t: Tables, lim: PlanLimitsV1, k: nat, n: nat)
    requires
        k <= n <= items.len(),
        close_items(items, t, lim, k) is Err,
    ensures
        close_items(items, t, lim, n) == close_items(items, t, lim, k),
    decreases n - k,
{
    if k < n {
        lemma_close_stop(items, t, lim, k, (n - 1) as nat);
    }
}


/// The first item outside {config, let, rule}, if any.
#[verifier::loop_isolation(false)]
fn first_disallowed_item(module: &SurfaceModule) -> (r: Option<L3LowerError>)
    ensures
        r == first_v1_disallowed(module.items@, 0),
{
    let ghost its = module.items@;
    let mut k: usize = 0;
    while k < module.items.len()
        invariant
            k <= its.len(),
            its == module.items@,
            first_v1_disallowed(its, k as nat) == first_v1_disallowed(its, 0),
        decreases its.len() - k,
    {
        match v1_item_not_allowed(&module.items[k]) {
            Some(e) => {
                return Some(e);
            },
            None => {},
        }
        k = k + 1;
    }
    None
}

/// Refuse a rule with parameters or a repeated item name.
#[verifier::loop_isolation(false)]
fn check_item_names(module: &SurfaceModule) -> (r: Result<(), L3LowerError>)
    ensures
        match names_check(module.items@, module.items@.len()) {
            Ok(_) => r is Ok,
            Err(e) => r == Err::<(), L3LowerError>(e),
        },
{
    let ghost its = module.items@;
    let ghost n = its.len();
    let mut seen: KeyMap<()> = KeyMap::new();
    proof {
        assert(names_of(seen) =~= Set::<Seq<char>>::empty());
    }
    let mut i: usize = 0;
    while i < module.items.len()
        invariant
            i <= its.len(),
            its == module.items@,
            names_check(its, i as nat) == Ok::<Set<Seq<char>>, L3LowerError>(names_of(seen)),
        decreases its.len() - i,
    {
        match &module.items[i] {
            SurfaceItem::Config { name, .. } => {
                if has_name(&seen, name.as_str()) {
                    proof {
                        lemma_names_stop(its, (i + 1) as nat, n);
                    }
                    return Err(L3LowerError::DuplicateItemName(name.clone()));
                }
                note_name(&mut seen, name);
            },
            SurfaceItem::Let { name, .. } => {
                if has_name(&seen, name.as_str()) {
                    proof {
                        lemma_names_stop(its, (i + 1) as nat, n);
                    }
                    return Err(L3LowerError::DuplicateItemName(name.clone()));
                }
                note_name(&mut seen, name);
            },
            SurfaceItem::Rule { name, params, .. } => {
                if params.len() > 0 {
                    proof {
                        lemma_names_stop(its, (i + 1) as nat, n);
                    }
                    return Err(L3LowerError::ParameterizedRule(name.clone()));
                }
                if has_name(&seen, name.as_str()) {
                    proof {
                        lemma_names_stop(its, (i + 1) as nat, n);
                    }
                    return Err(L3LowerError::DuplicateItemName(name.clone()));
                }
                note_name(&mut seen, name);
            },
            _ => {},
        }
        i = i + 1;
    }
    Ok(())
}

/// The rule count, the config names, the `let` names and the config order.
#[verifier::loop_isolation(false)]
fn scan_items(module: &SurfaceModule) -> (r: (u64, KeyMap<()>, KeyMap<()>, Vec<String>))
    ensures
        r.0 == rule_count(module.items@, module.items@.len()),
        names_of(r.1) == config_names(module.items@, module.items@.len()),
        names_of(r.2) == let_names(module.items@, module.items@.len()),
        names_view(r.3@) == config_order(module.items@, module.items@.len()),
{
    let ghost its = module.items@;
    let mut i: usize = 0;
    let mut rc: u64 = 0;
    let mut cnames: KeyMap<()> = KeyMap::new();
    let mut lnames: KeyMap<()> = KeyMap::new();
    let mut order: Vec<String> = Vec::new();
    proof {
        assert(names_of(cnames) =~= Set::<Seq<char>>::empty());
        assert(names_of(lnames) =~= Set::<Seq<char>>::empty());
        assert(names_view(order@) =~= Seq::<Seq<char>>::empty());
    }
    while i < module.items.len()
        invariant
            i <= its.len(),
            its == module.items@,
            rc == rule_count(its, i as nat),
            rc <= i,
            names_of(cnames) == config_names(its, i as nat),
            names_of(lnames) == let_names(its, i as nat),
            names_view(order@) == config_order(its, i as nat),
        decreases its.len() - i,
    {
        match &module.items[i] {
            SurfaceItem::Rule { .. } => {
                rc = rc + 1;
            },
            SurfaceItem::Config { name, .. } => {
                note_name(&mut cnames, name);
                let ghost before = names_view(order@);
                order.push(name.clone());
                proof {
                    assert(names_view(order@) =~= before.push(name@));
                }
            },
            SurfaceItem::Let { name, .. } => {
                note_name(&mut lnames, name);
            },
            _ => {},
        }
        i = i + 1;
    }
    (rc, cnames, lnames, order)
}

/// The configs resolved, or the first that cannot be or that passes the
/// config node limit.
#[verifier::loop_isolation(false)]
fn resolve_configs(module: &SurfaceModule, cnames: &KeyMap<()>, limits: &PlanLimitsV1) -> (r: Result<
    KeyMap<L3ConfigDecl>,
    L3LowerError,
>)
    requires
        names_of(*cnames) == config_names(module.items@, module.items@.len()),
    ensures
        match configs_pass(module.items@, names_of(*cnames), *limits, module.items@.len()) {
            Ok((cfgs, _)) => r matches Ok(m) && configs_model(m) == cfgs,
            Err(e) => r matches Err(x) && x == e,
        },
{
    let ghost its = module.items@;
    let ghost n = its.len();
    let ghost nm = names_of(*cnames);
    let mut i: usize = 0;
    let mut configs: KeyMap<L3ConfigDecl> = KeyMap::new();
    let mut total: u64 = 0;
    proof {
        assert(configs_model(configs) =~= Seq::<(Seq<char>, BodyModel)>::empty());
    }
    while i < module.items.len()
        invariant
            i <= its.len(),
            its == module.items@,
            nm == names_of(*cnames),
            nm == config_names(its, n),
            configs_pass(its, nm, *limits, i as nat) == Ok::<(Seq<(Seq<char>, BodyModel)>, u64), L3LowerError>(
                (configs_model(configs), total),
            ),
        decreases its.len() - i,
    {
        match &module.items[i] {
            SurfaceItem::Config { name, body } => {
                let b = match body {
                    SurfaceConfigBody::Record(fs) => match record_types(name, fs, cnames) {
                        Ok(v) => L3ConfigBody::Record(v),
                        Err(e) => {
                            proof {
                                lemma_configs_stop(its, nm, *limits, (i + 1) as nat, n);
                            }
                            return Err(e);
                        },
                    },
                    SurfaceConfigBody::Sum(vs) => match sum_types(name, vs, cnames) {
                        Ok(v) => L3ConfigBody::Sum(v),
                        Err(e) => {
                            proof {
                                lemma_configs_stop(its, nm, *limits, (i + 1) as nat, n);
                            }
                            return Err(e);
                        },
                    },
                };
                let t = count_body_nodes(body, total);
                if t > limits.max_config_nodes {
                    proof {
                        lemma_configs_stop(its, nm, *limits, (i + 1) as nat, n);
                    }
                    return Err(L3LowerError::ConfigNodeLimitExceeded { limit: limits.max_config_nodes, actual: t });
                }
                let decl = L3ConfigDecl { name: name.clone(), body: b };
                let ghost gd = decl;
                let ghost before = configs.pairs();
                configs.insert(name.clone(), decl);
                proof {
                    lemma_insert_mapped(before, name@, gd, |d: L3ConfigDecl| body_model(d.body));
                }
                total = t;
            },
            _ => {},
        }
        i = i + 1;
    }
    Ok(configs)
}

/// The constructor table and the ambiguous constructor names.
#[verifier::loop_isolation(false)]
fn build_ctors(module: &SurfaceModule) -> (r: (KeyMap<(String, usize)>, KeyMap<()>))
    ensures
        ctor_pass(module.items@, module.items@.len()) == (r.0.pairs(), names_of(r.1)),
{
    let ghost its = module.items@;
    let mut i: usize = 0;
    let mut ctors: KeyMap<(String, usize)> = KeyMap::new();
    let mut amb: KeyMap<()> = KeyMap::new();
    proof {
        assert(names_of(amb) =~= Set::<Seq<char>>::empty());
    }
    while i < module.items.len()
        invariant
            i <= its.len(),
            its == module.items@,
            ctor_pass(its, i as nat) == (ctors.pairs(), names_of(amb)),
        decreases its.len() - i,
    {
        if let SurfaceItem::Config { name, body: SurfaceConfigBody::Sum(vs) } = &module.items[i] {
            let ghost c0 = ctors.pairs();
            let ghost a0 = names_of(amb);
            let mut j: usize = 0;
            while j < vs.len()
                invariant
                    j <= vs@.len(),
                    variant_ctors(*name, vs@, j as nat, c0, a0) == (ctors.pairs(), names_of(amb)),
                decreases vs@.len() - j,
            {
                let v = &vs[j];
                if !has_name(&amb, v.name.as_str()) {
                    match ctors.get(v.name.as_str()) {
                        Some(e) => {
                            if !crate::keymap::same_text(e.0.as_str(), name.as_str()) {
                                note_name(&mut amb, &v.name);
                            }
                        },
                        None => {
                            ctors.insert(v.name.clone(), (name.clone(), v.params.len()));
                        },
                    }
                }
                j = j + 1;
            }
        }
        i = i + 1;
    }
    (ctors, amb)
}

/// Close each `let` and rule in module order.
#[verifier::loop_isolation(false)]
#[verifier::spinoff_prover]
fn close_module(
    module: &SurfaceModule,
    env: NormEnv,
    cnames: &KeyMap<()>,
    limits: &PlanLimitsV1,
    Ghost(t): Ghost<Tables>,
) -> (r: Result<Vec<L3PlanItem>, L3LowerError>)
    requires
        t.configs == configs_model(env.configs),
        t.ctors == env.ctors.pairs(),
        t.ambiguous == names_of(env.ambiguous_ctors),
        t.all_lets == names_of(env.all_let_names),
        t.names == names_of(*cnames),
        env.closed_lets.pairs().len() == 0,
    ensures
        match close_items(module.items@, t, *limits, module.items@.len()) {
            Ok(c) => r matches Ok(v) && items_v1_model(v@) == c.items,
            Err(f) => r matches Err(e) && l3_fault_is(e, f),
        },
{
    let ghost its = module.items@;
    let ghost n = its.len();
    let ghost nm = names_of(*cnames);
    let mut env = env;
    let mut i: usize = 0;
    let mut budget = ValueBudget { limits: *limits, total_nodes: 0, total_bytes: 0 };
    let mut ordinal: u64 = 0;
    let mut out: Vec<L3PlanItem> = Vec::new();
    proof {
        assert(items_v1_model(out@) =~= Seq::<ItemV1Model>::empty());
        assert(map_entries(env.closed_lets.pairs(), |v: L3ValueV1| v@) =~= Seq::<(Seq<char>, StaticModel)>::empty());
    }
    while i < module.items.len()
        invariant
            i <= its.len(),
            its == module.items@,
            nm == names_of(*cnames),
            t.configs == configs_model(env.configs),
            t.ctors == env.ctors.pairs(),
            t.ambiguous == names_of(env.ambiguous_ctors),
            t.all_lets == names_of(env.all_let_names),
            t.names == nm,
            ordinal <= i,
            close_items(its, t, *limits, i as nat) == Ok::<Closing, PlanV1Fault>(
                Closing {
                    items: items_v1_model(out@),
                    lets: map_entries(env.closed_lets.pairs(), |v: L3ValueV1| v@),
                    budget,
                    ordinal,
                },
            ),
        decreases its.len() - i,
    {
        let ghost before = items_v1_model(out@);
        match &module.items[i] {
            SurfaceItem::Config { name, .. } => {
                proof {
                    lemma_get_mapped(env.configs.pairs(), name@, |d: L3ConfigDecl| body_model(d.body));
                }
                match env.configs.get(name.as_str()) {
                    Some(d) => {
                        let c = copy_decl(d);
                        out.push(L3PlanItem::Config(L3ConfigDecl { name: name.clone(), body: c.body }));
                        proof {
                            assert(items_v1_model(out@) =~= before.push(item_v1_model(out@.last())));
                        }
                    },
                    None => {},
                }
            },
            SurfaceItem::Let { name, ty, value } => {
                env.self_name = Some(name.clone());
                let ghost sc = item_scope(t, map_entries(env.closed_lets.pairs(), |v: L3ValueV1| v@), Some(*name));
                assert(norm_scope(env) == sc);
                let v = match normalize_static_value(value, &env) {
                    Ok(v) => v,
                    Err(e) => {
                        proof {
                            lemma_close_stop(its, t, *limits, (i + 1) as nat, n);
                        }
                        return Err(e);
                    },
                };
                match ty {
                    Some(tt) => {
                        let x = match resolve_ty(tt, cnames) {
                            Ok(x) => x,
                            Err(e) => {
                                proof {
                                    lemma_close_stop(its, t, *limits, (i + 1) as nat, n);
                                }
                                return Err(e);
                            },
                        };
                        if !type_matches(&v, &x) {
                            let found_t = infer_value_type(&v);
                            let expected = type_ref_debug_text(&x);
                            let found = type_ref_debug_text(&found_t);
                            proof {
                                lemma_close_stop(its, t, *limits, (i + 1) as nat, n);
                            }
                            return Err(L3LowerError::DeclaredTypeMismatch { name: name.clone(), expected, found });
                        }
                    },
                    None => {},
                }
                let m = value_metrics(&v);
                proof {
                    lemma_metrics_model(v);
                    assert(m == metrics_of(v@));
                }
                match budget.charge(m) {
                    Err(e) => {
                        proof {
                            lemma_close_stop(its, t, *limits, (i + 1) as nat, n);
                        }
                        return Err(e);
                    },
                    Ok(()) => {},
                }
                let ghost lets_before = env.closed_lets.pairs();
                let d = v.duplicate();
                let ghost gd = d;
                env.closed_lets.insert(name.clone(), d);
                proof {
                    lemma_insert_mapped(lets_before, name@, gd, |v: L3ValueV1| v@);
                }
                out.push(L3PlanItem::Let { name: name.clone(), value: v });
                proof {
                    assert(items_v1_model(out@) =~= before.push(item_v1_model(out@.last())));
                }
            },
            SurfaceItem::Rule { name, ret, body, .. } => {
                env.self_name = None;
                let ghost sc = item_scope(t, map_entries(env.closed_lets.pairs(), |v: L3ValueV1| v@), None);
                assert(norm_scope(env) == sc);
                let v = match normalize_static_value(body, &env) {
                    Ok(v) => v,
                    Err(e) => {
                        proof {
                            lemma_close_stop(its, t, *limits, (i + 1) as nat, n);
                        }
                        return Err(e);
                    },
                };
                match ret {
                    Some(tt) => {
                        let x = match resolve_ty(tt, cnames) {
                            Ok(x) => x,
                            Err(e) => {
                                proof {
                                    lemma_close_stop(its, t, *limits, (i + 1) as nat, n);
                                }
                                return Err(e);
                            },
                        };
                        if !type_matches(&v, &x) {
                            let found_t = infer_value_type(&v);
                            let expected = type_ref_debug_text(&x);
                            let found = type_ref_debug_text(&found_t);
                            proof {
                                lemma_close_stop(its, t, *limits, (i + 1) as nat, n);
                            }
                            return Err(L3LowerError::DeclaredTypeMismatch { name: name.clone(), expected, found });
                        }
                    },
                    None => {},
                }
                let m = value_metrics(&v);
                proof {
                    lemma_metrics_model(v);
                    assert(m == metrics_of(v@));
                }
                match budget.charge(m) {
                    Err(e) => {
                        proof {
                            lemma_close_stop(its, t, *limits, (i + 1) as nat, n);
                        }
                        return Err(e);
                    },
                    Ok(()) => {},
                }
                out.push(L3PlanItem::Rule { ordinal, name: name.clone(), value: v });
                proof {
                    assert(items_v1_model(out@) =~= before.push(item_v1_model(out@.last())));
                }
                ordinal = ordinal + 1;
            },
            _ => {},
        }
        i = i + 1;
    }
    Ok(out)
}

/// Lower a module into a rule-agenda plan of closed values, or refuse it
/// with the first reason it falls outside the profile: the profile marker
/// first, then any item outside `{config, let, rule}`, then a rule with
/// parameters or a repeated item name, then the rule count, then each
/// config in module order (member names, member types, the config node
/// limit), then any config that depends on itself, then each `let` and
/// rule in module order (its closed value, its declared type, the value
/// limits).
pub fn lower_l3_plan(module: &SurfaceModule, profile: &str, limits: &PlanLimitsV1) -> (r: Result<L3PlanV1, L3LowerError>)
    ensures
        match l3_plan_spec(module.items@, profile@, *limits) {
            Ok(ms) => r matches Ok(p) && p.profile@ == profile@ && p.limits == *limits && items_v1_model(p.items@) == ms,
            Err(f) => r matches Err(e) && l3_fault_is(e, f),
        },
{
    if !crate::keymap::same_text(profile, L3_PROFILE_MARKER_V1) {
        return Err(L3LowerError::ProfileMismatch { expected: owned(L3_PROFILE_MARKER_V1), found: owned(profile) });
    }
    match first_disallowed_item(module) {
        Some(e) => {
            return Err(e);
        },
        None => {},
    }
    match check_item_names(module) {
        Err(e) => {
            return Err(e);
        },
        Ok(()) => {},
    }
    let (rc, cnames, lnames, order) = scan_items(module);
    if rc > limits.max_selected_rules {
        return Err(L3LowerError::RuleCountExceeded { limit: limits.max_selected_rules, actual: rc });
    }
    let configs = match resolve_configs(module, &cnames, limits) {
        Ok(c) => c,
        Err(e) => {
            return Err(e);
        },
    };
    match detect_recursive_configs(order.as_slice(), &configs) {
        Err(e) => {
            return Err(e);
        },
        Ok(()) => {},
    }
    let (ctors, amb) = build_ctors(module);
    let env = NormEnv {
        configs,
        ctors,
        ambiguous_ctors: amb,
        closed_lets: KeyMap::new(),
        all_let_names: lnames,
        self_name: None,
    };
    let ghost t = Tables {
        configs: configs_model(env.configs),
        ctors: env.ctors.pairs(),
        ambiguous: names_of(env.ambiguous_ctors),
        all_lets: names_of(env.all_let_names),
        names: names_of(cnames),
    };
    let items = match close_module(module, env, &cnames, limits, Ghost(t)) {
        Ok(v) => v,
        Err(e) => {
            return Err(e);
        },
    };
    Ok(L3PlanV1 { profile: owned(profile), items, limits: *limits })
}

} // verus!
