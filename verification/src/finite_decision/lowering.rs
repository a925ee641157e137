//! Lowering a surface module to a finite-decision plan.
use vstd::prelude::*;

use crate::input::MAX_INPUT_NAME_BYTES;
use crate::keymap::{assoc_get, lemma_insert_mapped, same_text, KeyMap};
use crate::l3_v2::exhaustive::{names, sum_model, variants_model};
use crate::l3_v2::lower::{records_model, surface_args, surface_arms, surface_fields, SurfaceExpr};
use crate::l3_v2::exhaustive::check_exhaustive_expr;
use crate::l3_v2::lower::{lower_expr_v2, lower_fault_is, lower_spec, scope_model, LowerFault};
use crate::l3_v2::lower_plan::{
    declared_deps, listed, name_set, register_sum, SurfaceConfigBody, SurfaceInnerTy, SurfaceItem, SurfaceModule, SurfaceParam, SurfaceTy,
};
use crate::l3_v2::{L3ConfigBodyV2, L3ConfigDeclV2, L3ExprV2, L3V2LowerError, L3ValueType};
use super::models::{calls_of, lemma_model_checks};
use super::plan::calls_in;
use super::cycles::{
    check_helper_recursion, has_helper_cycle, helper_body, helper_calls, helper_linked, is_helper_cycle, is_helper_graph,
    walk_reports,
};
use crate::text::{join2, owned, text_len};
use super::lowering_spec::{
    is_model_graph, fd_gather, fd_plan_spec, fd_start, has_model_cycle, helper_gap, is_model_cycle, model_body, model_calls, model_linked,
    plan_model, unknown_from,
    config_model, fd_item, fn_model, param_names, proposal_model, rule_model, shape_of, gap_fault, helper_fault, numbered, over_bounds, parts_model, proposal_deps, proposal_fault, rule_fault, shared_fault,
    sums_with_bool, unchecked, variants_with_bool, FdContext, FdState,
    bounds, bounds_args, bounds_arms, bounds_fields, commit_positions, contract_spec, fd_fault_is, field_names, first_refusal, fn_count, generic_detail, helper_table,
    named_contract, opt_contract, params_spec, record_detail, refusal, repeated_from, sig_spec, tables, variant_names, FdFault,
    Tables,
};
use super::plan::{
    names_of, note_name, FiniteDecisionContract, FiniteDecisionFnParam, FiniteDecisionFunction, FiniteDecisionInput,
    FiniteDecisionCommit, FiniteDecisionLowerError, FiniteDecisionPlan, FiniteDecisionProposal, FiniteDecisionRule, Grade,
    FINITE_DECISION_PROFILE,
    MAX_EXPR_DEPTH, MAX_EXPR_NODES, MAX_FUNCTION_COUNT, MAX_FUNCTION_PARAMS,
};

verus! {

/// Why an item may not stand in a finite-decision module.
fn refused_item(item: &SurfaceItem) -> (r: Option<FiniteDecisionLowerError>)
    ensures
        match refusal(*item) {
            Some(f) => r matches Some(e) && fd_fault_is(e, f),
            None => r is None,
        },
{
    match item {
        SurfaceItem::Regime(n) => Some(FiniteDecisionLowerError::ItemNotAllowed(join2("regime ", n.as_str()))),
        SurfaceItem::Witness(n) => Some(FiniteDecisionLowerError::ItemNotAllowed(join2("witness ", n.as_str()))),
        SurfaceItem::Use(p) => Some(FiniteDecisionLowerError::UnresolvedImport(p.clone())),
        _ => None,
    }
}

/// The number of helpers and the commits among the items, or the first
/// refused item.
fn admit_items(items: &Vec<SurfaceItem>) -> (r: Result<(usize, usize, usize), FiniteDecisionLowerError>)
    ensures
        match first_refusal(items@, 0) {
            Some(f) => r matches Err(e) && fd_fault_is(e, f),
            None => r matches Ok((fns, commits, first)) && fns == fn_count(items@, items@.len()) && commits
                == commit_positions(items@, items@.len()).len() && (commits > 0 ==> first == commit_positions(
                items@,
                items@.len(),
            )[0]),
        },
{
    let mut fns: usize = 0;
    let mut commits: usize = 0;
    let mut first: usize = 0;
    let mut k: usize = 0;
    while k < items.len()
        invariant
            k <= items@.len(),
            first_refusal(items@, k as nat) == first_refusal(items@, 0),
            fns == fn_count(items@, k as nat),
            fns <= k,
            commits == commit_positions(items@, k as nat).len(),
            commits <= k,
            commits > 0 ==> first == commit_positions(items@, k as nat)[0],
        decreases items@.len() - k,
    {
        if let Some(e) = refused_item(&items[k]) {
            return Err(e);
        }
        proof {
            assert(commit_positions(items@, k as nat).len() > 0 ==> commit_positions(items@, (k + 1) as nat)[0]
                == commit_positions(items@, k as nat)[0]);
        }
        match &items[k] {
            SurfaceItem::Fn { .. } => {
                fns = fns + 1;
            },
            SurfaceItem::Commit { .. } => {
                if commits == 0 {
                    first = k;
                }
                commits = commits + 1;
            },
            _ => {},
        }
        k = k + 1;
    }
    Ok((fns, commits, first))
}

proof fn lemma_take_set(cs: Seq<Seq<char>>, j: int)
    requires
        0 <= j < cs.len(),
    ensures
        cs.take(j + 1).to_set() == cs.take(j).to_set().insert(cs[j]),
        cs.take(j).to_set().contains(cs[j]) == cs.take(j).contains(cs[j]),
{
    let t = cs.take(j);
    let t1 = cs.take(j + 1);
    assert(t1 =~= t.push(cs[j]));
    assert forall|x: Seq<char>| #[trigger] t1.contains(x) == (t.contains(x) || x == cs[j]) by {
        if t1.contains(x) {
            let k = choose|k: int| 0 <= k < t1.len() && t1[k] == x;
            if k < j {
                assert(t[k] == x);
            }
        }
        if t.contains(x) {
            let k = choose|k: int| 0 <= k < t.len() && t[k] == x;
            assert(t1[k] == x);
        }
        if x == cs[j] {
            assert(t1[j] == x);
        }
    }
    assert(t1.to_set() =~= t.to_set().insert(cs[j]));
}

/// The first candidate an earlier one repeats.
fn repeated_candidate(cands: &Vec<String>) -> (r: Option<String>)
    ensures
        match repeated_from(names(cands@), 0) {
            Some(c) => r matches Some(x) && x@ == c,
            None => r is None,
        },
{
    let ghost cs = names(cands@);
    let mut seen: KeyMap<()> = KeyMap::new();
    proof {
        assert(names_of(seen) =~= cs.take(0).to_set());
    }
    let mut j: usize = 0;
    while j < cands.len()
        invariant
            j <= cands@.len(),
            cs == names(cands@),
            names_of(seen) == cs.take(j as int).to_set(),
            repeated_from(cs, j as nat) == repeated_from(cs, 0),
        decreases cands@.len() - j,
    {
        proof {
            lemma_take_set(cs, j as int);
        }
        if seen.contains_key(cands[j].as_str()) {
            assert(names_of(seen).contains(cs[j as int]));
            return Some(cands[j].clone());
        }
        note_name(&mut seen, &cands[j]);
        j = j + 1;
    }
    None
}

/// What the whole module declares, as maps.
pub(crate) struct TableMaps {
    pub inputs: KeyMap<()>,
    pub rules: KeyMap<()>,
    pub lets: KeyMap<()>,
    pub sums: KeyMap<()>,
    pub recs: KeyMap<()>,
    pub variants_of: KeyMap<String>,
    pub nullary: KeyMap<String>,
    pub sov: KeyMap<String>,
    pub vos: KeyMap<Vec<String>>,
    pub records: Vec<(String, Vec<String>)>,
}

/// The tables the maps hold.
pub(crate) open spec fn maps_hold(m: TableMaps, t: Tables) -> bool {
    &&& names_of(m.inputs) == t.inputs
    &&& names_of(m.rules) == t.rules
    &&& names_of(m.lets) == t.lets
    &&& names_of(m.sums) == t.sums
    &&& names_of(m.recs) == t.recs
    &&& m.variants_of.pairs() == t.variants_of
    &&& m.nullary.pairs() == t.nullary
    &&& records_model(m.records@) == t.records
}

/// Variant names as a vector.
fn variant_name_list(vs: &Vec<crate::l3_v2::lower_plan::SurfaceVariant>) -> (r: Vec<String>)
    ensures
        names(r@) == variant_names(vs@),
{
    let mut r: Vec<String> = Vec::new();
    let mut j: usize = 0;
    while j < vs.len()
        invariant
            j <= vs@.len(),
            r@.len() == j,
            forall|q: int| 0 <= q < j ==> (#[trigger] r@[q])@ == vs@[q].name@,
        decreases vs@.len() - j,
    {
        r.push(vs[j].name.clone());
        j = j + 1;
    }
    proof {
        assert(names(r@) =~= variant_names(vs@));
    }
    r
}

/// Field names as a vector.
fn field_name_list(fs: &Vec<crate::l3_v2::lower_plan::SurfaceField>) -> (r: Vec<String>)
    ensures
        names(r@) == field_names(fs@),
{
    let mut r: Vec<String> = Vec::new();
    let mut j: usize = 0;
    while j < fs.len()
        invariant
            j <= fs@.len(),
            r@.len() == j,
            forall|q: int| 0 <= q < j ==> (#[trigger] r@[q])@ == fs@[q].name@,
        decreases fs@.len() - j,
    {
        r.push(fs[j].name.clone());
        j = j + 1;
    }
    proof {
        assert(names(r@) =~= field_names(fs@));
    }
    r
}

/// Read the tables off the whole module.
#[verifier::loop_isolation(false)]
fn read_tables(items: &Vec<SurfaceItem>) -> (r: (TableMaps, KeyMap<String>, KeyMap<String>))
    ensures
        maps_hold(r.0, tables(items@, items@.len())),
        variants_model(r.0.vos.pairs()) == tables(items@, items@.len()).vos,
        r.0.sov.pairs() == r.0.variants_of.pairs(),
        r.1.pairs() == r.0.variants_of.pairs(),
        r.2.pairs() == r.0.nullary.pairs(),
{
    let mut m = TableMaps {
        inputs: KeyMap::new(),
        rules: KeyMap::new(),
        lets: KeyMap::new(),
        sums: KeyMap::new(),
        recs: KeyMap::new(),
        variants_of: KeyMap::new(),
        nullary: KeyMap::new(),
        sov: KeyMap::new(),
        vos: KeyMap::new(),
        records: Vec::new(),
    };
    proof {
        assert(names_of(m.inputs) =~= Set::<Seq<char>>::empty());
        assert(names_of(m.rules) =~= Set::<Seq<char>>::empty());
        assert(names_of(m.lets) =~= Set::<Seq<char>>::empty());
        assert(names_of(m.sums) =~= Set::<Seq<char>>::empty());
        assert(names_of(m.recs) =~= Set::<Seq<char>>::empty());
        assert(variants_model(m.vos.pairs()) =~= Seq::<(Seq<char>, Seq<Seq<char>>)>::empty());
        assert(records_model(m.records@) =~= Seq::<(Seq<char>, Seq<Seq<char>>)>::empty());
    }
    let mut spare: KeyMap<String> = KeyMap::new();
    let mut vo: KeyMap<String> = KeyMap::new();
    let mut nu: KeyMap<String> = KeyMap::new();
    let mut i: usize = 0;
    while i < items.len()
        invariant
            i <= items@.len(),
            maps_hold(m, tables(items@, i as nat)),
            variants_model(m.vos.pairs()) == tables(items@, i as nat).vos,
            m.sov.pairs() == m.variants_of.pairs(),
            spare.pairs() == m.nullary.pairs(),
            vo.pairs() == m.variants_of.pairs(),
            nu.pairs() == m.nullary.pairs(),
        decreases items@.len() - i,
    {
        match &items[i] {
            SurfaceItem::Input { name, .. } => note_name(&mut m.inputs, name),
            SurfaceItem::Rule { name, .. } => note_name(&mut m.rules, name),
            SurfaceItem::Let { name, .. } => note_name(&mut m.lets, name),
            SurfaceItem::Config { name, body } => match body {
                SurfaceConfigBody::Sum(vs) => {
                    note_name(&mut m.sums, name);
                    register_sum(vs, name, &mut m.variants_of, &mut m.nullary);
                    register_sum(vs, name, &mut m.sov, &mut spare);
                    register_sum(vs, name, &mut vo, &mut nu);
                    let list = variant_name_list(vs);
                    let ghost before = m.vos.pairs();
                    m.vos.insert(name.clone(), list);
                    proof {
                        lemma_insert_mapped(before, name@, list, |v: Vec<String>| names(v@));
                    }
                },
                SurfaceConfigBody::Record(fs) => {
                    note_name(&mut m.recs, name);
                    let list = field_name_list(fs);
                    let ghost rs = records_model(m.records@);
                    m.records.push((name.clone(), list));
                    proof {
                        assert(records_model(m.records@) =~= rs.push((name@, field_names(fs@))));
                    }
                },
            },
            _ => {},
        }
        i = i + 1;
    }
    (m, vo, nu)
}

/// Add `Bool`'s constructors to the constructor tables.
fn add_bool(sov: &mut KeyMap<String>, vos: &mut KeyMap<Vec<String>>)
    ensures
        sum_model(final(sov).pairs()) == crate::keymap::insert_pairs(
            crate::keymap::insert_pairs(sum_model(old(sov).pairs()), "true"@, "Bool"@),
            "false"@,
            "Bool"@,
        ),
        variants_model(final(vos).pairs()) == crate::keymap::insert_pairs(
            variants_model(old(vos).pairs()),
            "Bool"@,
            seq!["false"@, "true"@],
        ),
{
    let ghost s0 = sov.pairs();
    let b1 = owned("Bool");
    sov.insert(owned("true"), b1);
    proof {
        lemma_insert_mapped(s0, "true"@, b1, |x: String| x@);
    }
    let ghost s1 = sov.pairs();
    let b2 = owned("Bool");
    sov.insert(owned("false"), b2);
    proof {
        lemma_insert_mapped(s1, "false"@, b2, |x: String| x@);
    }
    let mut bools: Vec<String> = Vec::new();
    bools.push(owned("false"));
    bools.push(owned("true"));
    let ghost v0 = vos.pairs();
    vos.insert(owned("Bool"), bools);
    proof {
        lemma_insert_mapped(v0, "Bool"@, bools, |v: Vec<String>| names(v@));
        assert(names(bools@) =~= seq!["false"@, "true"@]);
    }
}

/// The value type a contract names, without its grade.
fn named_contract_of(n: &String, m: &TableMaps, Ghost(t): Ghost<Tables>) -> (r: Result<L3ValueType, FiniteDecisionLowerError>)
    requires
        maps_hold(*m, t),
    ensures
        match named_contract(n@, t) {
            Ok(v) => r matches Ok(x) && x == v,
            Err(f) => r matches Err(e) && fd_fault_is(e, f),
        },
{
    if same_text(n.as_str(), "Int") {
        Ok(L3ValueType::Int)
    } else if same_text(n.as_str(), "Bool") {
        Ok(L3ValueType::Bool)
    } else if same_text(n.as_str(), "Str") {
        Ok(L3ValueType::Str)
    } else if same_text(n.as_str(), "Float") {
        Err(FiniteDecisionLowerError::UnsupportedContractType {
            ty: owned("Float"),
            detail: owned("Float is not supported in finite-decision"),
        })
    } else if m.sums.contains_key(n.as_str()) || m.recs.contains_key(n.as_str()) {
        Err(FiniteDecisionLowerError::UnsupportedContractType {
            ty: n.clone(),
            detail: owned(
                "sum and record contract annotations are not supported in finite-decision alpha (only Int, Bool, Str are supported)",
            ),
        })
    } else {
        Err(FiniteDecisionLowerError::UnknownContractType { name: n.clone() })
    }
}

fn record_refused() -> (e: FiniteDecisionLowerError)
    ensures
        fd_fault_is(e, FdFault::ContractType { ty: "anonymous record"@, detail: record_detail() }),
{
    FiniteDecisionLowerError::UnsupportedContractType {
        ty: owned("anonymous record"),
        detail: owned("composite types are not supported in function contracts in this slice"),
    }
}

fn generic_refused(n: &String) -> (e: FiniteDecisionLowerError)
    ensures
        fd_fault_is(e, FdFault::ContractType { ty: n@ + "<...>"@, detail: generic_detail() }),
{
    FiniteDecisionLowerError::UnsupportedContractType {
        ty: join2(n.as_str(), "<...>"),
        detail: owned("generic/parameterized types are not supported in finite-decision"),
    }
}

/// A contract annotation: `Int`, `Bool` or `Str`, possibly graded
/// `@Derived`.
fn contract_of(ty: &SurfaceTy, m: &TableMaps, Ghost(t): Ghost<Tables>) -> (r: Result<FiniteDecisionContract, FiniteDecisionLowerError>)
    requires
        maps_hold(*m, t),
    ensures
        match contract_spec(*ty, t) {
            Ok(c) => r matches Ok(x) && x == c,
            Err(f) => r matches Err(e) && fd_fault_is(e, f),
        },
{
    match ty {
        SurfaceTy::Graded(inner, g, _) => match g {
            Grade::Derived => {
                let v = match inner {
                    SurfaceInnerTy::Named(n) => named_contract_of(n, m, Ghost(t))?,
                    SurfaceInnerTy::Record => {
                        return Err(record_refused());
                    },
                    SurfaceInnerTy::App(n) => {
                        return Err(generic_refused(n));
                    },
                    SurfaceInnerTy::Graded => {
                        return Err(FiniteDecisionLowerError::UnsupportedContractType {
                            ty: owned("nested graded type"),
                            detail: owned("nested grade annotations are not supported"),
                        });
                    },
                };
                Ok(FiniteDecisionContract { ty: v, grade: Some(Grade::Derived) })
            },
            Grade::Proven => Err(FiniteDecisionLowerError::UnsupportedContractGrade {
                grade: Grade::Proven,
                detail: owned("helpers cannot declare or elevate to @Proven or @Audited"),
            }),
            Grade::Audited => Err(FiniteDecisionLowerError::UnsupportedContractGrade {
                grade: Grade::Audited,
                detail: owned("helpers cannot declare or elevate to @Proven or @Audited"),
            }),
        },
        SurfaceTy::Named(n) => {
            let v = named_contract_of(n, m, Ghost(t))?;
            Ok(FiniteDecisionContract { ty: v, grade: None })
        },
        SurfaceTy::Record => Err(record_refused()),
        SurfaceTy::App(n) => Err(generic_refused(n)),
    }
}

/// An optional annotation's contract.
fn opt_contract_of(ty: &Option<SurfaceTy>, m: &TableMaps, Ghost(t): Ghost<Tables>) -> (r: Result<
    Option<FiniteDecisionContract>,
    FiniteDecisionLowerError,
>)
    requires
        maps_hold(*m, t),
    ensures
        match opt_contract(*ty, t) {
            Ok(c) => r matches Ok(x) && x == c,
            Err(f) => r matches Err(e) && fd_fault_is(e, f),
        },
{
    match ty {
        None => Ok(None),
        Some(x) => {
            let c = contract_of(x, m, Ghost(t))?;
            Ok(Some(c))
        },
    }
}

/// Parameters with their contracts, as a model.
pub open spec fn param_models(v: Seq<FiniteDecisionFnParam>) -> Seq<(Seq<char>, Option<FiniteDecisionContract>)> {
    v.map_values(|p: FiniteDecisionFnParam| (p.name@, p.contract))
}

proof fn lemma_params_stop(func: Seq<char>, ps: Seq<SurfaceParam>, t: Tables, k: nat, n: nat)
    requires
        k <= n <= ps.len(),
        params_spec(func, ps, t, k) is Err,
    ensures
        params_spec(func, ps, t, n) == params_spec(func, ps, t, k),
    decreases n - k,
{
    if k < n {
        lemma_params_stop(func, ps, t, k, (n - 1) as nat);
    }
}

/// A helper's parameters with their contracts and its return contract.
#[verifier::loop_isolation(false)]
fn signature(name: &String, params: &Vec<SurfaceParam>, ret: &Option<SurfaceTy>, m: &TableMaps, Ghost(t): Ghost<Tables>) -> (r:
    Result<(Vec<FiniteDecisionFnParam>, Option<FiniteDecisionContract>), FiniteDecisionLowerError>)
    requires
        maps_hold(*m, t),
    ensures
        match sig_spec(name@, params@, *ret, t) {
            Ok((pm, rc)) => r matches Ok((v, c)) && param_models(v@) == pm && c == rc,
            Err(f) => r matches Err(e) && fd_fault_is(e, f),
        },
{
    let mut out: Vec<FiniteDecisionFnParam> = Vec::new();
    let mut seen: KeyMap<()> = KeyMap::new();
    proof {
        assert(param_models(out@) =~= Seq::<(Seq<char>, Option<FiniteDecisionContract>)>::empty());
        assert(names_of(seen) =~= Set::<Seq<char>>::empty());
    }
    let mut j: usize = 0;
    while j < params.len()
        invariant
            j <= params@.len(),
            params_spec(name@, params@, t, j as nat) == Ok::<_, FdFault>(param_models(out@)),
            names_of(seen) == param_models(out@).map_values(|q: (Seq<char>, Option<FiniteDecisionContract>)| q.0).to_set(),
        decreases params@.len() - j,
    {
        let p = &params[j];
        let ghost keys = param_models(out@).map_values(|q: (Seq<char>, Option<FiniteDecisionContract>)| q.0);
        if seen.contains_key(p.name.as_str()) {
            proof {
                assert(keys.to_set().contains(p.name@));
                lemma_params_stop(name@, params@, t, (j + 1) as nat, params@.len());
            }
            return Err(FiniteDecisionLowerError::DuplicateFunctionParameter { func: name.clone(), param: p.name.clone() });
        }
        proof {
            assert(!keys.to_set().contains(p.name@));
            assert(!keys.contains(p.name@));
            assert(params@[j as int] == *p);
        }
        let c = match opt_contract_of(&p.ty, m, Ghost(t)) {
            Ok(c) => c,
            Err(e) => {
                proof {
                    lemma_params_stop(name@, params@, t, (j + 1) as nat, params@.len());
                }
                return Err(e);
            },
        };
        note_name(&mut seen, &p.name);
        let ghost before = param_models(out@);
        out.push(FiniteDecisionFnParam { name: p.name.clone(), contract: c });
        proof {
            assert(param_models(out@) =~= before.push((p.name@, c)));
            let k2 = param_models(out@).map_values(|q: (Seq<char>, Option<FiniteDecisionContract>)| q.0);
            assert(k2 =~= keys.push(p.name@));
            assert(k2.to_set() =~= keys.to_set().insert(p.name@)) by {
                assert forall|x: Seq<char>| #[trigger] k2.contains(x) == (keys.contains(x) || x == p.name@) by {
                    if k2.contains(x) {
                        let q = choose|q: int| 0 <= q < k2.len() && k2[q] == x;
                        if q < keys.len() {
                            assert(keys[q] == x);
                        }
                    }
                    if keys.contains(x) {
                        let q = choose|q: int| 0 <= q < keys.len() && keys[q] == x;
                        assert(k2[q] == x);
                    }
                    if x == p.name@ {
                        assert(k2[keys.len() as int] == x);
                    }
                }
            }
        }
        j = j + 1;
    }
    let rc = opt_contract_of(ret, m, Ghost(t))?;
    Ok((out, rc))
}

proof fn lemma_helpers_stop(items: Seq<SurfaceItem>, t: Tables, k: nat, n: nat)
    requires
        k <= n <= items.len(),
        helper_table(items, t, k) is Err,
    ensures
        helper_table(items, t, n) == helper_table(items, t, k),
    decreases n - k,
{
    if k < n {
        lemma_helpers_stop(items, t, k, (n - 1) as nat);
    }
}

/// The helpers' arities, or why a helper is refused.
#[verifier::loop_isolation(false)]
fn helper_arities(items: &Vec<SurfaceItem>, m: &TableMaps, Ghost(t): Ghost<Tables>) -> (r: Result<KeyMap<usize>, FiniteDecisionLowerError>)
    requires
        maps_hold(*m, t),
    ensures
        match helper_table(items@, t, items@.len()) {
            Ok((_, ar)) => r matches Ok(a) && a.pairs() == ar,
            Err(f) => r matches Err(e) && fd_fault_is(e, f),
        },
{
    let mut fn_names: KeyMap<()> = KeyMap::new();
    let mut arities: KeyMap<usize> = KeyMap::new();
    proof {
        assert(names_of(fn_names) =~= Set::<Seq<char>>::empty());
    }
    let mut i: usize = 0;
    while i < items.len()
        invariant
            i <= items@.len(),
            helper_table(items@, t, i as nat) == Ok::<_, FdFault>((names_of(fn_names), arities.pairs())),
        decreases items@.len() - i,
    {
        if let SurfaceItem::Fn { name, params, ret, .. } = &items[i] {
            if m.variants_of.contains_key(name.as_str()) || same_text(name.as_str(), "true") || same_text(name.as_str(), "false") {
                proof {
                    lemma_helpers_stop(items@, t, (i + 1) as nat, items@.len());
                }
                return Err(FiniteDecisionLowerError::FunctionConstructorCollision { func: name.clone(), constructor: name.clone() });
            }
            if fn_names.contains_key(name.as_str()) {
                proof {
                    lemma_helpers_stop(items@, t, (i + 1) as nat, items@.len());
                }
                return Err(FiniteDecisionLowerError::DuplicateFunctionName(name.clone()));
            }
            if params.len() > MAX_FUNCTION_PARAMS {
                proof {
                    lemma_helpers_stop(items@, t, (i + 1) as nat, items@.len());
                }
                return Err(FiniteDecisionLowerError::TooManyFunctionParams {
                    func: name.clone(),
                    limit: MAX_FUNCTION_PARAMS,
                    count: params.len(),
                });
            }
            match signature(name, params, ret, m, Ghost(t)) {
                Err(e) => {
                    proof {
                        lemma_helpers_stop(items@, t, (i + 1) as nat, items@.len());
                    }
                    return Err(e);
                },
                Ok(_) => {},
            }
            note_name(&mut fn_names, name);
            arities.insert(name.clone(), params.len());
        }
        i = i + 1;
    }
    Ok(arities)
}

/// Check an expression against the nesting and node limits, counting its
/// nodes in pre-order after the `count` already counted.
#[verifier::loop_isolation(false)]
fn check_bounds(e: &SurfaceExpr, depth: usize, count: &mut usize) -> (r: Result<(), FiniteDecisionLowerError>)
    requires
        depth <= MAX_EXPR_DEPTH + 1,
        *old(count) <= MAX_EXPR_NODES,
    ensures
        match bounds(*e, depth as nat, *old(count) as nat) {
            Ok(n) => r is Ok && *final(count) == n,
            Err(f) => r matches Err(x) && fd_fault_is(x, f),
        },
        r is Ok ==> *final(count) <= MAX_EXPR_NODES,
    decreases e,
{
    if depth > MAX_EXPR_DEPTH {
        return Err(FiniteDecisionLowerError::ExpressionDepthExceeded { limit: MAX_EXPR_DEPTH });
    }
    if *count + 1 > MAX_EXPR_NODES {
        return Err(FiniteDecisionLowerError::ExpressionNodeLimitExceeded { limit: MAX_EXPR_NODES });
    }
    *count = *count + 1;
    let d = depth + 1;
    match e {
        SurfaceExpr::Field(b, _) => check_bounds(b, d, count),
        SurfaceExpr::Prove(b) => check_bounds(b, d, count),
        SurfaceExpr::Why(b) => check_bounds(b, d, count),
        SurfaceExpr::Audit(b) => check_bounds(b, d, count),
        SurfaceExpr::Bin { lhs, rhs, .. } => {
            check_bounds(lhs, d, count)?;
            check_bounds(rhs, d, count)
        },
        SurfaceExpr::Call { args, .. } => {
            let ghost c0 = *count;
            let mut i: usize = 0;
            while i < args.len()
                invariant
                    i <= args@.len(),
                    surface_args(*e) == args@,
                    *count <= MAX_EXPR_NODES,
                    bounds_args(*e, d as nat, c0 as nat, 0) == bounds_args(*e, d as nat, *count as nat, i as nat),
                decreases args@.len() - i,
            {
                proof {
                    assert(decreases_to!(*e => e->Call_args));
                    assert(decreases_to!(e->Call_args => e->Call_args@));
                    assert(decreases_to!(e->Call_args@ => e->Call_args@[i as int]));
                }
                check_bounds(&args[i], d, count)?;
                i = i + 1;
            }
            Ok(())
        },
        SurfaceExpr::Record { fields, .. } => {
            let ghost c0 = *count;
            let mut i: usize = 0;
            while i < fields.len()
                invariant
                    i <= fields@.len(),
                    surface_fields(*e) == fields@,
                    *count <= MAX_EXPR_NODES,
                    bounds_fields(*e, d as nat, c0 as nat, 0) == bounds_fields(*e, d as nat, *count as nat, i as nat),
                decreases fields@.len() - i,
            {
                proof {
                    assert(decreases_to!(*e => e->Record_fields));
                    assert(decreases_to!(e->Record_fields => e->Record_fields@));
                    assert(decreases_to!(e->Record_fields@ => e->Record_fields@[i as int]));
                    assert(decreases_to!(e->Record_fields@[i as int] => e->Record_fields@[i as int].1));
                }
                check_bounds(&fields[i].1, d, count)?;
                i = i + 1;
            }
            Ok(())
        },
        SurfaceExpr::Match { scrutinee, arms } => {
            check_bounds(scrutinee, d, count)?;
            let ghost c0 = *count;
            let mut i: usize = 0;
            while i < arms.len()
                invariant
                    i <= arms@.len(),
                    surface_arms(*e) == arms@,
                    *count <= MAX_EXPR_NODES,
                    bounds_arms(*e, d as nat, c0 as nat, 0) == bounds_arms(*e, d as nat, *count as nat, i as nat),
                decreases arms@.len() - i,
            {
                proof {
                    assert(decreases_to!(*e => e->Match_arms));
                    assert(decreases_to!(e->Match_arms => e->Match_arms@));
                    assert(decreases_to!(e->Match_arms@ => e->Match_arms@[i as int]));
                    assert(decreases_to!(e->Match_arms@[i as int] => e->Match_arms@[i as int].body));
                }
                check_bounds(&arms[i].body, d, count)?;
                i = i + 1;
            }
            Ok(())
        },
        _ => Ok(()),
    }
}

/// What stays fixed while items are lowered, as maps: whether the module
/// declares helpers, its tables (with `Bool` among the constructor tables
/// the exhaustiveness check reads), and the helpers' arities.
pub(crate) struct LowerCtx {
    pub has_fns: bool,
    pub maps: TableMaps,
    pub arities: KeyMap<usize>,
}

/// The maps hold context `c`.
pub(crate) open spec fn ctx_holds(cx: LowerCtx, c: FdContext) -> bool {
    &&& cx.has_fns == c.has_fns
    &&& maps_hold(cx.maps, c.t)
    &&& cx.arities.pairs() == c.arities
    &&& sum_model(cx.maps.sov.pairs()) == sums_with_bool(c.t)
    &&& variants_model(cx.maps.vos.pairs()) == variants_with_bool(c.t)
}

/// What lowering has gathered so far.
pub(crate) struct Gathering {
    pub inputs_seen: KeyMap<()>,
    pub lets_seen: KeyMap<()>,
    pub rules_seen: KeyMap<()>,
    pub proposals_seen: KeyMap<()>,
    pub top: KeyMap<()>,
    pub visible: KeyMap<()>,
    pub variants_of: KeyMap<String>,
    pub nullary: KeyMap<String>,
    pub configs: Vec<L3ConfigDeclV2>,
    pub inputs: Vec<FiniteDecisionInput>,
    pub functions: Vec<FiniteDecisionFunction>,
    pub lets: Vec<(String, L3ExprV2)>,
    pub rules: Vec<FiniteDecisionRule>,
    pub proposals: Vec<FiniteDecisionProposal>,
    pub shows: Vec<L3ExprV2>,
}

/// The state a gathering holds.
pub(crate) open spec fn state_of(g: Gathering) -> FdState {
    FdState {
        inputs: names_of(g.inputs_seen),
        lets: names_of(g.lets_seen),
        rules: names_of(g.rules_seen),
        proposals: names_of(g.proposals_seen),
        top: names_of(g.top),
        variants_of: g.variants_of.pairs(),
        nullary: g.nullary.pairs(),
        parts: parts_model(g.configs@, g.inputs@, g.functions@, g.lets@, g.rules@, g.proposals@, g.shows@),
    }
}

/// The visible names are the `let`s and inputs, and the parts are numbered.
pub(crate) open spec fn gathering_ok(g: Gathering) -> bool {
    &&& names_of(g.visible) == names_of(g.lets_seen) + names_of(g.inputs_seen)
    &&& numbered(g.inputs@, g.functions@, g.rules@, g.proposals@)
}

/// Check an expression against the limits in a module with helpers.
fn within_bounds(cx: &LowerCtx, e: &SurfaceExpr, Ghost(c): Ghost<FdContext>) -> (r: Result<(), FiniteDecisionLowerError>)
    requires
        ctx_holds(*cx, c),
    ensures
        match over_bounds(c, *e) {
            Some(f) => r matches Err(x) && fd_fault_is(x, f),
            None => r is Ok,
        },
{
    if cx.has_fns {
        let mut n: usize = 0;
        check_bounds(e, 0, &mut n)
    } else {
        Ok(())
    }
}

/// Check that every `match` of a lowered expression covers its sum.
fn covered(cx: &LowerCtx, x: &L3ExprV2, Ghost(c): Ghost<FdContext>) -> (r: Result<(), FiniteDecisionLowerError>)
    requires
        ctx_holds(*cx, c),
    ensures
        match gap_fault(x@, c.t) {
            Some(f) => r matches Err(e) && fd_fault_is(e, f),
            None => r is Ok,
        },
{
    let r = check_exhaustive_expr(x, &cx.maps.sov, &cx.maps.vos);
    proof {
        lemma_model_checks(*x, sum_model(cx.maps.sov.pairs()), variants_model(cx.maps.vos.pairs()));
    }
    match r {
        Ok(()) => Ok(()),
        Err(e) => Err(FiniteDecisionLowerError::ExprError(e)),
    }
}

/// The same check, in a module with helpers.
fn covered_if(cx: &LowerCtx, x: &L3ExprV2, Ghost(c): Ghost<FdContext>) -> (r: Result<(), FiniteDecisionLowerError>)
    requires
        ctx_holds(*cx, c),
    ensures
        match unchecked(c, x@) {
            Some(f) => r matches Err(e) && fd_fault_is(e, f),
            None => r is Ok,
        },
{
    if cx.has_fns {
        covered(cx, x, Ghost(c))
    } else {
        Ok(())
    }
}

/// A lowering error, with arity faults and duplicate binders named as such.
fn shared_err(e: L3V2LowerError, Ghost(f): Ghost<LowerFault>) -> (r: FiniteDecisionLowerError)
    requires
        lower_fault_is(e, f),
    ensures
        fd_fault_is(r, shared_fault(f)),
{
    match e {
        L3V2LowerError::FunctionArityMismatch { func, expected, found } => FiniteDecisionLowerError::FunctionArityMismatch {
            func,
            expected,
            found,
        },
        L3V2LowerError::DuplicateMatchBinder(b) => FiniteDecisionLowerError::DuplicateMatchBinder(b),
        other => FiniteDecisionLowerError::ExprError(other),
    }
}

/// A helper body's lowering error.
fn helper_err(func: &String, e: L3V2LowerError, cx: &LowerCtx, Ghost(c): Ghost<FdContext>, Ghost(f): Ghost<LowerFault>) -> (r:
    FiniteDecisionLowerError)
    requires
        lower_fault_is(e, f),
        ctx_holds(*cx, c),
    ensures
        fd_fault_is(r, helper_fault(func@, c.t, f)),
{
    match e {
        L3V2LowerError::UnresolvedReference(n) => {
            if cx.maps.inputs.contains_key(n.as_str()) {
                FiniteDecisionLowerError::InputReadInFunction { func: func.clone(), input: n }
            } else if cx.maps.rules.contains_key(n.as_str()) {
                FiniteDecisionLowerError::RuleFactReadInFunction { func: func.clone(), fact: n }
            } else if cx.maps.lets.contains_key(n.as_str()) {
                FiniteDecisionLowerError::GlobalLetReadInFunction { func: func.clone(), binding: n }
            } else {
                FiniteDecisionLowerError::ExprError(L3V2LowerError::UnresolvedReference(n))
            }
        },
        other => shared_err(other, Ghost(f)),
    }
}

/// A rule body's lowering error.
fn rule_err(rule: &String, e: L3V2LowerError, rules: &KeyMap<()>, Ghost(f): Ghost<LowerFault>) -> (r: FiniteDecisionLowerError)
    requires
        lower_fault_is(e, f),
    ensures
        fd_fault_is(r, rule_fault(rule@, names_of(*rules), f)),
{
    match e {
        L3V2LowerError::UnresolvedReference(n) => {
            if rules.contains_key(n.as_str()) {
                FiniteDecisionLowerError::RuleDependencyError(L3V2LowerError::UndeclaredFactRead { rule: rule.clone(), fact: n })
            } else {
                FiniteDecisionLowerError::ExprError(L3V2LowerError::UnresolvedReference(n))
            }
        },
        other => shared_err(other, Ghost(f)),
    }
}

/// A proposal's lowering error.
fn proposal_err(proposal: &String, e: L3V2LowerError, rules: &KeyMap<()>, Ghost(f): Ghost<LowerFault>) -> (r:
    FiniteDecisionLowerError)
    requires
        lower_fault_is(e, f),
    ensures
        fd_fault_is(r, proposal_fault(proposal@, names_of(*rules), f)),
{
    match e {
        L3V2LowerError::UnresolvedReference(n) => {
            if rules.contains_key(n.as_str()) {
                FiniteDecisionLowerError::UndeclaredFactRead { proposal: proposal.clone(), fact: n }
            } else {
                FiniteDecisionLowerError::ExprError(L3V2LowerError::UnresolvedReference(n))
            }
        },
        other => shared_err(other, Ghost(f)),
    }
}

proof fn lemma_pdeps_stop(p: Seq<char>, deps: Seq<String>, rules: Set<Seq<char>>, k: nat, n: nat)
    requires
        k <= n <= deps.len(),
        proposal_deps(p, deps, rules, k) is Err,
    ensures
        proposal_deps(p, deps, rules, n) == proposal_deps(p, deps, rules, k),
    decreases n - k,
{
    if k < n {
        lemma_pdeps_stop(p, deps, rules, k, (n - 1) as nat);
    }
}

/// A proposal's dependencies, deduplicated in first-mention order.
#[verifier::loop_isolation(false)]
fn proposal_dep_list(name: &String, deps: &Vec<String>, rules: &KeyMap<()>) -> (r: Result<Vec<String>, FiniteDecisionLowerError>)
    ensures
        match proposal_deps(name@, deps@, names_of(*rules), deps@.len()) {
            Ok(ds) => r matches Ok(v) && names(v@) == ds,
            Err(f) => r matches Err(x) && fd_fault_is(x, f),
        },
{
    let ghost rs = names_of(*rules);
    let mut out: Vec<String> = Vec::new();
    proof {
        assert(names(out@) =~= Seq::<Seq<char>>::empty());
    }
    let mut i: usize = 0;
    while i < deps.len()
        invariant
            i <= deps@.len(),
            proposal_deps(name@, deps@, rs, i as nat) == Ok::<Seq<Seq<char>>, FdFault>(names(out@)),
        decreases deps@.len() - i,
    {
        let d = &deps[i];
        if same_text(d.as_str(), name.as_str()) {
            proof {
                lemma_pdeps_stop(name@, deps@, rs, (i + 1) as nat, deps@.len());
            }
            return Err(FiniteDecisionLowerError::ForwardOrSelfDependency { proposal: name.clone(), dep: d.clone() });
        }
        if !rules.contains_key(d.as_str()) {
            proof {
                lemma_pdeps_stop(name@, deps@, rs, (i + 1) as nat, deps@.len());
            }
            return Err(FiniteDecisionLowerError::UndeclaredDependency { proposal: name.clone(), dep: d.clone() });
        }
        if !listed(&out, d.as_str()) {
            let ghost before = names(out@);
            out.push(d.clone());
            proof {
                assert(names(out@) =~= before.push(d@));
            }
        }
        i = i + 1;
    }
    Ok(out)
}

/// The config declaration of a surface config.
fn config_decl(name: &String, body: &SurfaceConfigBody) -> (d: L3ConfigDeclV2)
    ensures
        config_model(d) == (name@, shape_of(*body)),
{
    match body {
        SurfaceConfigBody::Sum(vs) => {
            let mut shape: Vec<(String, usize)> = Vec::new();
            let mut j: usize = 0;
            while j < vs.len()
                invariant
                    j <= vs@.len(),
                    shape@.len() == j,
                    forall|q: int| 0 <= q < j ==> (#[trigger] shape@[q]).0@ == vs@[q].name@ && shape@[q].1 == vs@[q].params@.len(),
                decreases vs@.len() - j,
            {
                shape.push((vs[j].name.clone(), vs[j].params.len()));
                j = j + 1;
            }
            proof {
                assert(shape@.map_values(|v: (String, usize)| (v.0@, v.1)) =~= vs@.map_values(
                    |v: crate::l3_v2::lower_plan::SurfaceVariant| (v.name@, v.params@.len() as usize),
                ));
            }
            L3ConfigDeclV2 { name: name.clone(), body: L3ConfigBodyV2::Sum(shape) }
        },
        SurfaceConfigBody::Record(fs) => {
            let list = field_name_list(fs);
            L3ConfigDeclV2 { name: name.clone(), body: L3ConfigBodyV2::Record(list) }
        },
    }
}

/// Lower a `config`.
fn add_config(cx: &LowerCtx, g: &mut Gathering, item: &SurfaceItem, Ghost(c): Ghost<FdContext>) -> (r: Result<(), FiniteDecisionLowerError>)
    requires
        ctx_holds(*cx, c),
        gathering_ok(*old(g)),
        item is Config,
    ensures
        match fd_item(c, state_of(*old(g)), *item) {
            Ok(st) => r is Ok && state_of(*final(g)) == st && gathering_ok(*final(g)),
            Err(f) => r matches Err(e) && fd_fault_is(e, f),
        },
{
    if let SurfaceItem::Config { name, body } = item {
        if g.top.contains_key(name.as_str()) {
            return Err(FiniteDecisionLowerError::DuplicateItemName(name.clone()));
        }
        note_name(&mut g.top, name);
        if !cx.has_fns {
            if let SurfaceConfigBody::Sum(vs) = body {
                register_sum(vs, name, &mut g.variants_of, &mut g.nullary);
            }
        }
        let d = config_decl(name, body);
        let ghost before = g.configs@;
        g.configs.push(d);
        proof {
            assert(g.configs@.map_values(|d: L3ConfigDeclV2| config_model(d)) =~= before.map_values(
                |d: L3ConfigDeclV2| config_model(d),
            ).push(config_model(d)));
        }
    }
    Ok(())
}

/// Lower an `input`.
fn add_input(cx: &LowerCtx, g: &mut Gathering, item: &SurfaceItem, Ghost(c): Ghost<FdContext>) -> (r: Result<(), FiniteDecisionLowerError>)
    requires
        ctx_holds(*cx, c),
        gathering_ok(*old(g)),
        item is Input,
    ensures
        match fd_item(c, state_of(*old(g)), *item) {
            Ok(st) => r is Ok && state_of(*final(g)) == st && gathering_ok(*final(g)),
            Err(f) => r matches Err(e) && fd_fault_is(e, f),
        },
{
    if let SurfaceItem::Input { name, ty, written } = item {
        if text_len(name.as_str()) > MAX_INPUT_NAME_BYTES {
            return Err(FiniteDecisionLowerError::InputNameTooLong { limit: MAX_INPUT_NAME_BYTES });
        }
        if g.inputs_seen.contains_key(name.as_str()) {
            return Err(FiniteDecisionLowerError::DuplicateInputName(name.clone()));
        }
        if g.top.contains_key(name.as_str()) {
            return Err(FiniteDecisionLowerError::DuplicateItemName(name.clone()));
        }
        let vt = match ty {
            SurfaceTy::Named(n) => {
                if same_text(n.as_str(), "Int") {
                    L3ValueType::Int
                } else if same_text(n.as_str(), "Bool") {
                    L3ValueType::Bool
                } else if same_text(n.as_str(), "Str") {
                    L3ValueType::Str
                } else {
                    return Err(FiniteDecisionLowerError::UnsupportedInputType { name: name.clone(), ty: n.clone() });
                }
            },
            _ => {
                return Err(FiniteDecisionLowerError::UnsupportedInputType { name: name.clone(), ty: written.clone() });
            },
        };
        note_name(&mut g.inputs_seen, name);
        note_name(&mut g.top, name);
        note_name(&mut g.visible, name);
        let ghost before = g.inputs@;
        let ord = g.inputs.len() as u64;
        g.inputs.push(FiniteDecisionInput { ordinal: ord, name: name.clone(), ty: vt });
        proof {
            assert(g.inputs@.map_values(|i: FiniteDecisionInput| (i.name@, i.ty)) =~= before.map_values(
                |i: FiniteDecisionInput| (i.name@, i.ty),
            ).push((name@, vt)));
            assert(names_of(g.visible) =~= names_of(g.lets_seen) + names_of(g.inputs_seen));
        }
    }
    Ok(())
}

/// The names of a helper's parameters, as a set-like map.
fn param_set(params: &Vec<SurfaceParam>) -> (m: KeyMap<()>)
    ensures
        names_of(m) == param_names(params@),
{
    let ghost d = params@.map_values(|p: SurfaceParam| p.name@);
    let mut m: KeyMap<()> = KeyMap::new();
    proof {
        assert(names_of(m) =~= d.take(0).to_set());
    }
    let mut i: usize = 0;
    while i < params.len()
        invariant
            i <= params@.len(),
            d == params@.map_values(|p: SurfaceParam| p.name@),
            names_of(m) == d.take(i as int).to_set(),
        decreases params@.len() - i,
    {
        note_name(&mut m, &params[i].name);
        proof {
            lemma_take_set(d, i as int);
        }
        i = i + 1;
    }
    proof {
        assert(d.take(params@.len() as int) =~= d);
    }
    m
}

/// Lower a helper `fn`.
fn add_fn(cx: &LowerCtx, g: &mut Gathering, item: &SurfaceItem, Ghost(c): Ghost<FdContext>) -> (r: Result<(), FiniteDecisionLowerError>)
    requires
        ctx_holds(*cx, c),
        gathering_ok(*old(g)),
        item is Fn,
    ensures
        match fd_item(c, state_of(*old(g)), *item) {
            Ok(st) => r is Ok && state_of(*final(g)) == st && gathering_ok(*final(g)),
            Err(f) => r matches Err(e) && fd_fault_is(e, f),
        },
{
    if let SurfaceItem::Fn { name, params, ret, body } = item {
        if g.top.contains_key(name.as_str()) {
            return Err(FiniteDecisionLowerError::DuplicateItemName(name.clone()));
        }
        let mut count: usize = 0;
        check_bounds(body, 0, &mut count)?;
        let ps = param_set(params);
        let no_rules: KeyMap<()> = KeyMap::new();
        proof {
            assert(names_of(no_rules) =~= Set::<Seq<char>>::empty());
        }
        let ghost sc = scope_model(ps, no_rules, g.nullary, g.variants_of, cx.arities, cx.maps.records@, false, true);
        let b = match lower_expr_v2(body, &ps, &ps, &no_rules, &g.nullary, &g.variants_of, &cx.arities, &cx.maps.records, false, true) {
            Ok(b) => b,
            Err(e) => {
                let ghost f = lower_spec(*body, sc, names_of(ps))->Err_0;
                return Err(helper_err(name, e, cx, Ghost(c), Ghost(f)));
            },
        };
        let (pm, rc) = signature(name, params, ret, &cx.maps, Ghost(c.t))?;
        note_name(&mut g.top, name);
        let ghost before = g.functions@;
        let ord = g.functions.len() as u64;
        let f = FiniteDecisionFunction { ordinal: ord, name: name.clone(), params: pm, ret_contract: rc, body: b };
        g.functions.push(f);
        proof {
            assert(g.functions@.map_values(|f: FiniteDecisionFunction| fn_model(f)) =~= before.map_values(
                |f: FiniteDecisionFunction| fn_model(f),
            ).push(fn_model(f)));
        }
    }
    Ok(())
}

/// Lower a global `let`.
fn add_let(cx: &LowerCtx, g: &mut Gathering, item: &SurfaceItem, Ghost(c): Ghost<FdContext>) -> (r: Result<(), FiniteDecisionLowerError>)
    requires
        ctx_holds(*cx, c),
        gathering_ok(*old(g)),
        item is Let,
    ensures
        match fd_item(c, state_of(*old(g)), *item) {
            Ok(st) => r is Ok && state_of(*final(g)) == st && gathering_ok(*final(g)),
            Err(f) => r matches Err(e) && fd_fault_is(e, f),
        },
{
    if let SurfaceItem::Let { name, value, .. } = item {
        if g.top.contains_key(name.as_str()) {
            return Err(FiniteDecisionLowerError::DuplicateItemName(name.clone()));
        }
        within_bounds(cx, value, Ghost(c))?;
        let none: KeyMap<()> = KeyMap::new();
        proof {
            assert(names_of(none) =~= Set::<Seq<char>>::empty());
        }
        let ghost sc = scope_model(g.visible, none, g.nullary, g.variants_of, cx.arities, cx.maps.records@, false, cx.has_fns);
        let v = match lower_expr_v2(value, &g.visible, &none, &none, &g.nullary, &g.variants_of, &cx.arities, &cx.maps.records, false, cx.has_fns) {
            Ok(v) => v,
            Err(e) => {
                let ghost f = lower_spec(*value, sc, names_of(none))->Err_0;
                return Err(shared_err(e, Ghost(f)));
            },
        };
        covered_if(cx, &v, Ghost(c))?;
        note_name(&mut g.top, name);
        note_name(&mut g.lets_seen, name);
        note_name(&mut g.visible, name);
        let ghost before = g.lets@;
        let ghost vm = v@;
        g.lets.push((name.clone(), v));
        proof {
            assert(g.lets@.map_values(|l: (String, L3ExprV2)| (l.0@, l.1@)) =~= before.map_values(
                |l: (String, L3ExprV2)| (l.0@, l.1@),
            ).push((name@, vm)));
            assert(names_of(g.visible) =~= names_of(g.lets_seen) + names_of(g.inputs_seen));
        }
    }
    Ok(())
}

/// Lower a rule.
fn add_rule(cx: &LowerCtx, g: &mut Gathering, item: &SurfaceItem, Ghost(c): Ghost<FdContext>) -> (r: Result<(), FiniteDecisionLowerError>)
    requires
        ctx_holds(*cx, c),
        gathering_ok(*old(g)),
        item is Rule,
    ensures
        match fd_item(c, state_of(*old(g)), *item) {
            Ok(st) => r is Ok && state_of(*final(g)) == st && gathering_ok(*final(g)),
            Err(f) => r matches Err(e) && fd_fault_is(e, f),
        },
{
    if let SurfaceItem::Rule { name, params, body, .. } = item {
        if g.top.contains_key(name.as_str()) {
            return Err(FiniteDecisionLowerError::DuplicateItemName(name.clone()));
        }
        within_bounds(cx, body, Ghost(c))?;
        let deps = match declared_deps(name, params, &g.rules_seen) {
            Ok(d) => d,
            Err(e) => {
                return Err(FiniteDecisionLowerError::RuleDependencyError(e));
            },
        };
        let readable = name_set(&deps);
        let none: KeyMap<()> = KeyMap::new();
        proof {
            assert(names_of(none) =~= Set::<Seq<char>>::empty());
        }
        let ghost sc = scope_model(g.visible, readable, g.nullary, g.variants_of, cx.arities, cx.maps.records@, true, cx.has_fns);
        let b = match lower_expr_v2(body, &g.visible, &none, &readable, &g.nullary, &g.variants_of, &cx.arities, &cx.maps.records, true, cx.has_fns) {
            Ok(b) => b,
            Err(e) => {
                let ghost f = lower_spec(*body, sc, names_of(none))->Err_0;
                return Err(rule_err(name, e, &g.rules_seen, Ghost(f)));
            },
        };
        covered_if(cx, &b, Ghost(c))?;
        note_name(&mut g.top, name);
        note_name(&mut g.rules_seen, name);
        let ghost before = g.rules@;
        let ord = g.rules.len() as u64;
        let rl = FiniteDecisionRule { ordinal: ord, name: name.clone(), body: b, depends_on: deps };
        g.rules.push(rl);
        proof {
            assert(g.rules@.map_values(|r: FiniteDecisionRule| rule_model(r)) =~= before.map_values(
                |r: FiniteDecisionRule| rule_model(r),
            ).push(rule_model(rl)));
        }
    }
    Ok(())
}

/// Lower a proposal.
fn add_proposal(cx: &LowerCtx, g: &mut Gathering, item: &SurfaceItem, Ghost(c): Ghost<FdContext>) -> (r: Result<(), FiniteDecisionLowerError>)
    requires
        ctx_holds(*cx, c),
        gathering_ok(*old(g)),
        item is Propose,
    ensures
        match fd_item(c, state_of(*old(g)), *item) {
            Ok(st) => r is Ok && state_of(*final(g)) == st && gathering_ok(*final(g)),
            Err(f) => r matches Err(e) && fd_fault_is(e, f),
        },
{
    if let SurfaceItem::Propose { name, deps, priority, guard, value } = item {
        if g.proposals_seen.contains_key(name.as_str()) {
            return Err(FiniteDecisionLowerError::DuplicateProposalName(name.clone()));
        }
        if g.top.contains_key(name.as_str()) {
            return Err(FiniteDecisionLowerError::DuplicateItemName(name.clone()));
        }
        within_bounds(cx, guard, Ghost(c))?;
        within_bounds(cx, value, Ghost(c))?;
        let ds = proposal_dep_list(name, deps, &g.rules_seen)?;
        let readable = name_set(&ds);
        let none: KeyMap<()> = KeyMap::new();
        proof {
            assert(names_of(none) =~= Set::<Seq<char>>::empty());
        }
        let ghost sc = scope_model(g.visible, readable, g.nullary, g.variants_of, cx.arities, cx.maps.records@, true, cx.has_fns);
        let gx = match lower_expr_v2(guard, &g.visible, &none, &readable, &g.nullary, &g.variants_of, &cx.arities, &cx.maps.records, true, cx.has_fns) {
            Ok(x) => x,
            Err(e) => {
                let ghost f = lower_spec(*guard, sc, names_of(none))->Err_0;
                return Err(proposal_err(name, e, &g.rules_seen, Ghost(f)));
            },
        };
        covered_if(cx, &gx, Ghost(c))?;
        let vx = match lower_expr_v2(value, &g.visible, &none, &readable, &g.nullary, &g.variants_of, &cx.arities, &cx.maps.records, true, cx.has_fns) {
            Ok(x) => x,
            Err(e) => {
                let ghost f = lower_spec(*value, sc, names_of(none))->Err_0;
                return Err(proposal_err(name, e, &g.rules_seen, Ghost(f)));
            },
        };
        covered_if(cx, &vx, Ghost(c))?;
        note_name(&mut g.proposals_seen, name);
        note_name(&mut g.top, name);
        let ghost before = g.proposals@;
        let ord = g.proposals.len() as u64;
        let pr = FiniteDecisionProposal { ordinal: ord, name: name.clone(), deps: ds, priority: *priority, guard: gx, value: vx };
        g.proposals.push(pr);
        proof {
            assert(g.proposals@.map_values(|p: FiniteDecisionProposal| proposal_model(p)) =~= before.map_values(
                |p: FiniteDecisionProposal| proposal_model(p),
            ).push(proposal_model(pr)));
        }
    }
    Ok(())
}

/// Lower a `show` expression.
fn add_show(cx: &LowerCtx, g: &mut Gathering, item: &SurfaceItem, Ghost(c): Ghost<FdContext>) -> (r: Result<(), FiniteDecisionLowerError>)
    requires
        ctx_holds(*cx, c),
        gathering_ok(*old(g)),
        item is Show,
    ensures
        match fd_item(c, state_of(*old(g)), *item) {
            Ok(st) => r is Ok && state_of(*final(g)) == st && gathering_ok(*final(g)),
            Err(f) => r matches Err(e) && fd_fault_is(e, f),
        },
{
    if let SurfaceItem::Show(e) = item {
        within_bounds(cx, e, Ghost(c))?;
        let none: KeyMap<()> = KeyMap::new();
        proof {
            assert(names_of(none) =~= Set::<Seq<char>>::empty());
        }
        let ghost sc = scope_model(g.visible, g.rules_seen, g.nullary, g.variants_of, cx.arities, cx.maps.records@, true, cx.has_fns);
        let x = match lower_expr_v2(e, &g.visible, &none, &g.rules_seen, &g.nullary, &g.variants_of, &cx.arities, &cx.maps.records, true, cx.has_fns) {
            Ok(x) => x,
            Err(err) => {
                let ghost f = lower_spec(*e, sc, names_of(none))->Err_0;
                return Err(shared_err(err, Ghost(f)));
            },
        };
        covered_if(cx, &x, Ghost(c))?;
        let ghost before = g.shows@;
        let ghost xm = x@;
        g.shows.push(x);
        proof {
            assert(g.shows@.map_values(|x: L3ExprV2| x@) =~= before.map_values(|x: L3ExprV2| x@).push(xm));
        }
    }
    Ok(())
}

proof fn lemma_commit_positions(items: Seq<SurfaceItem>, n: nat)
    requires
        n <= items.len(),
    ensures
        forall|k: int| 0 <= k < commit_positions(items, n).len() ==> 0 <= #[trigger] commit_positions(items, n)[k] < n
            && items[commit_positions(items, n)[k]] is Commit,
    decreases n,
{
    if n > 0 {
        lemma_commit_positions(items, (n - 1) as nat);
    }
}

proof fn lemma_gather_stop(c: FdContext, items: Seq<SurfaceItem>, k: nat, n: nat)
    requires
        k <= n <= items.len(),
        fd_gather(c, items, k) is Err,
    ensures
        fd_gather(c, items, n) == fd_gather(c, items, k),
    decreases n - k,
{
    if k < n {
        lemma_gather_stop(c, items, k, (n - 1) as nat);
    }
}

proof fn lemma_helper_body(fs: Seq<FiniteDecisionFunction>, n: Seq<char>)
    ensures
        helper_body(fs, n) is Some <==> model_body(fs.map_values(|f: FiniteDecisionFunction| fn_model(f)), n) is Some,
        helper_body(fs, n) is Some ==> (helper_body(fs, n)->0)@ == model_body(
            fs.map_values(|f: FiniteDecisionFunction| fn_model(f)),
            n,
        )->0,
    decreases fs.len(),
{
    let ms = fs.map_values(|f: FiniteDecisionFunction| fn_model(f));
    if fs.len() > 0 {
        assert(ms.drop_last() =~= fs.drop_last().map_values(|f: FiniteDecisionFunction| fn_model(f)));
        assert(ms.last() == fn_model(fs.last()));
        lemma_helper_body(fs.drop_last(), n);
    }
}

/// Recursion among lowered helpers is recursion among their models, and
/// their call graphs are those of their models.
proof fn lemma_helper_cycles(fs: Seq<FiniteDecisionFunction>)
    ensures
        has_helper_cycle(fs) <==> has_model_cycle(fs.map_values(|f: FiniteDecisionFunction| fn_model(f))),
        forall|g: Seq<(Seq<char>, KeyMap<()>)>| #[trigger] is_helper_graph(g, fs) <==> is_model_graph(
            g,
            fs.map_values(|f: FiniteDecisionFunction| fn_model(f)),
        ),
{
    let ms = fs.map_values(|f: FiniteDecisionFunction| fn_model(f));
    assert forall|a: Seq<char>| #[trigger] helper_body(fs, a) is Some ==> calls_in(helper_body(fs, a)->0) == calls_of(
        model_body(ms, a)->0,
    ) by {
        lemma_helper_body(fs, a);
        if helper_body(fs, a) is Some {
            let x = helper_body(fs, a)->0;
            lemma_model_checks(x, Seq::empty(), Seq::empty());
        }
    }
    assert forall|a: Seq<char>, b: Seq<char>| #[trigger] helper_calls(fs, a, b) <==> model_calls(ms, a, b) by {
        lemma_helper_body(fs, a);
    }
    assert forall|f: Seq<char>, c: Seq<Seq<char>>| #[trigger] is_helper_cycle(fs, f, c) <==> is_model_cycle(ms, f, c) by {
        if is_helper_cycle(fs, f, c) {
            assert forall|j: int| 0 <= j < c.len() - 1 implies #[trigger] model_linked(ms, c, j) by {
                assert(helper_linked(fs, c, j));
            }
        }
        if is_model_cycle(ms, f, c) {
            assert forall|j: int| 0 <= j < c.len() - 1 implies #[trigger] helper_linked(fs, c, j) by {
                assert(model_linked(ms, c, j));
            }
        }
    }
    if has_helper_cycle(fs) {
        let (f, c) = choose|f: Seq<char>, c: Seq<Seq<char>>| is_helper_cycle(fs, f, c);
        assert(is_model_cycle(ms, f, c));
    }
    if has_model_cycle(ms) {
        let (f, c) = choose|f: Seq<char>, c: Seq<Seq<char>>| is_model_cycle(ms, f, c);
        assert(is_helper_cycle(fs, f, c));
    }
    assert forall|g: Seq<(Seq<char>, KeyMap<()>)>| #[trigger] is_helper_graph(g, fs) <==> is_model_graph(g, ms) by {
        assert forall|n: Seq<char>| #[trigger] assoc_get(g, n) is Some ==> (helper_body(fs, n) is Some <==> model_body(ms, n) is Some) by {
            lemma_helper_body(fs, n);
        }
        assert forall|n: Seq<char>| (helper_body(fs, n) is Some <==> #[trigger] model_body(ms, n) is Some) by {
            lemma_helper_body(fs, n);
        }
    }
}

/// A copy of a list of names.
fn copy_names(v: &Vec<String>) -> (r: Vec<String>)
    ensures
        names(r@) == names(v@),
{
    let mut r: Vec<String> = Vec::new();
    let mut j: usize = 0;
    while j < v.len()
        invariant
            j <= v@.len(),
            r@.len() == j,
            forall|q: int| 0 <= q < j ==> (#[trigger] r@[q])@ == v@[q]@,
        decreases v@.len() - j,
    {
        r.push(v[j].clone());
        j = j + 1;
    }
    proof {
        assert(names(r@) =~= names(v@));
    }
    r
}

/// Lower a surface module into a finite-decision plan, or refuse it with
/// the first reason it is not one: the profile marker; a `regime`,
/// `witness` or `use` item; more than `MAX_FUNCTION_COUNT` helpers; no
/// commit, several, one without candidates or with a repeated one; a helper
/// whose name is a constructor's or an earlier helper's, with too many or
/// repeated parameters, or with a contract other than `Int`, `Bool` or
/// `Str` (graded at most `@Derived`); then each item in order; then
/// recursion among the helpers, directly or through one another; a helper
/// with an uncovered `match`; a candidate that names no proposal.
///
/// Helpers take their data as arguments: a helper body reads its
/// parameters and constructors, never an input, a rule's fact or a global
/// `let`. In a module with helpers every constructor is visible from the
/// start, every expression is held to `MAX_EXPR_DEPTH` and
/// `MAX_EXPR_NODES`, and every `match` must cover its sum.
#[verifier::loop_isolation(false)]
pub fn lower_finite_decision_plan(module: &SurfaceModule, profile: &str) -> (r: Result<FiniteDecisionPlan, FiniteDecisionLowerError>)
    ensures
        match fd_plan_spec(module.items@, profile@) {
            Ok(m) => r matches Ok(p) && plan_model(p) == m && p.profile@ == FINITE_DECISION_PROFILE@ && numbered(
                p.inputs@,
                p.functions@,
                p.rules@,
                p.proposals@,
            ),
            Err(f) => r matches Err(e) && fd_fault_is(e, f),
        },
{
    let items = &module.items;
    let ghost its = items@;
    let ghost t = tables(its, its.len());
    if !same_text(profile, FINITE_DECISION_PROFILE) {
        return Err(FiniteDecisionLowerError::ProfileMismatch {
            expected: owned(FINITE_DECISION_PROFILE),
            found: owned(profile),
        });
    }
    let (fns, commits, first) = admit_items(items)?;
    if fns > MAX_FUNCTION_COUNT {
        return Err(FiniteDecisionLowerError::TooManyFunctions { limit: MAX_FUNCTION_COUNT, count: fns });
    }
    if commits == 0 {
        return Err(FiniteDecisionLowerError::NoCommit);
    }
    if commits > 1 {
        return Err(FiniteDecisionLowerError::MultipleCommits(commits));
    }
    proof {
        lemma_commit_positions(its, its.len());
    }
    let (commit_name, cands) = match &items[first] {
        SurfaceItem::Commit { name, candidates } => (name, candidates),
        _ => {
            return Err(FiniteDecisionLowerError::NoCommit);
        },
    };
    if cands.len() == 0 {
        return Err(FiniteDecisionLowerError::EmptyCommit(commit_name.clone()));
    }
    if let Some(c) = repeated_candidate(cands) {
        return Err(FiniteDecisionLowerError::DuplicateCandidateInCommit { commit: commit_name.clone(), candidate: c });
    }
    let (mut maps, vo, nu) = read_tables(items);
    let arities = helper_arities(items, &maps, Ghost(t))?;
    add_bool(&mut maps.sov, &mut maps.vos);
    let has_fns = fns > 0;
    let ghost c = FdContext { has_fns, t, arities: arities.pairs() };
    let cx = LowerCtx { has_fns, maps, arities };
    let mut g = Gathering {
        inputs_seen: KeyMap::new(),
        lets_seen: KeyMap::new(),
        rules_seen: KeyMap::new(),
        proposals_seen: KeyMap::new(),
        top: KeyMap::new(),
        visible: KeyMap::new(),
        variants_of: if has_fns { vo } else { KeyMap::new() },
        nullary: if has_fns { nu } else { KeyMap::new() },
        configs: Vec::new(),
        inputs: Vec::new(),
        functions: Vec::new(),
        lets: Vec::new(),
        rules: Vec::new(),
        proposals: Vec::new(),
        shows: Vec::new(),
    };
    proof {
        assert(names_of(g.inputs_seen) =~= Set::<Seq<char>>::empty());
        assert(names_of(g.lets_seen) =~= Set::<Seq<char>>::empty());
        assert(names_of(g.rules_seen) =~= Set::<Seq<char>>::empty());
        assert(names_of(g.proposals_seen) =~= Set::<Seq<char>>::empty());
        assert(names_of(g.top) =~= Set::<Seq<char>>::empty());
        assert(names_of(g.visible) =~= Set::<Seq<char>>::empty());
        let pp = state_of(g).parts;
        assert(pp.configs =~= Seq::<(Seq<char>, crate::l3_v2::lower_plan::ConfigShape)>::empty());
        assert(pp.inputs =~= Seq::<(Seq<char>, L3ValueType)>::empty());
        assert(pp.functions =~= Seq::<super::lowering_spec::FnModel>::empty());
        assert(pp.lets =~= Seq::<(Seq<char>, crate::l3_v2::expr_view::ExprModel)>::empty());
        assert(pp.rules =~= Seq::<super::lowering_spec::RuleModel>::empty());
        assert(pp.proposals =~= Seq::<super::lowering_spec::ProposalModel>::empty());
        assert(pp.shows =~= Seq::<crate::l3_v2::expr_view::ExprModel>::empty());
        assert(names_of(g.lets_seen) + names_of(g.inputs_seen) =~= Set::<Seq<char>>::empty());
        assert(state_of(g) == fd_start(c));
    }
    let mut i: usize = 0;
    while i < items.len()
        invariant
            i <= its.len(),
            its == items@,
            ctx_holds(cx, c),
            gathering_ok(g),
            fd_gather(c, its, i as nat) == Ok::<FdState, FdFault>(state_of(g)),
        decreases its.len() - i,
    {
        let item = &items[i];
        let res = match item {
            SurfaceItem::Config { .. } => add_config(&cx, &mut g, item, Ghost(c)),
            SurfaceItem::Input { .. } => add_input(&cx, &mut g, item, Ghost(c)),
            SurfaceItem::Fn { .. } => add_fn(&cx, &mut g, item, Ghost(c)),
            SurfaceItem::Let { .. } => add_let(&cx, &mut g, item, Ghost(c)),
            SurfaceItem::Rule { .. } => add_rule(&cx, &mut g, item, Ghost(c)),
            SurfaceItem::Propose { .. } => add_proposal(&cx, &mut g, item, Ghost(c)),
            SurfaceItem::Show(_) => add_show(&cx, &mut g, item, Ghost(c)),
            _ => Ok(()),
        };
        if let Err(e) = res {
            proof {
                lemma_gather_stop(c, its, (i + 1) as nat, its.len());
            }
            return Err(e);
        }
        i = i + 1;
    }
    proof {
        lemma_helper_cycles(g.functions@);
        assert(g.functions@.map_values(|f: FiniteDecisionFunction| fn_model(f)) == state_of(g).parts.functions);
    }
    let rc = check_helper_recursion(&g.functions);
    proof {
        let fms0 = state_of(g).parts.functions;
        let gw = choose|x: Seq<(Seq<char>, KeyMap<()>)>| is_helper_graph(x, g.functions@);
        assert(is_model_graph(gw, fms0));
        let gc = choose|x: Seq<(Seq<char>, KeyMap<()>)>| is_model_graph(x, fms0);
        assert(is_helper_graph(gc, g.functions@));
        assert(walk_reports(rc, gc));
    }
    rc?;
    let ghost fms = state_of(g).parts.functions;
    let mut k: usize = 0;
    while k < g.functions.len()
        invariant
            k <= g.functions@.len(),
            fms == g.functions@.map_values(|f: FiniteDecisionFunction| fn_model(f)),
            ctx_holds(cx, c),
            helper_gap(fms, t, k as nat) == helper_gap(fms, t, 0),
        decreases g.functions@.len() - k,
    {
        assert(fms[k as int].body == g.functions@[k as int].body@);
        covered(&cx, &g.functions[k].body, Ghost(c))?;
        k = k + 1;
    }
    let ghost cs = names(cands@);
    let mut j: usize = 0;
    while j < cands.len()
        invariant
            j <= cands@.len(),
            cs == names(cands@),
            unknown_from(cs, names_of(g.proposals_seen), j as nat) == unknown_from(cs, names_of(g.proposals_seen), 0),
        decreases cands@.len() - j,
    {
        if !g.proposals_seen.contains_key(cands[j].as_str()) {
            return Err(FiniteDecisionLowerError::UnknownCandidateInCommit {
                commit: commit_name.clone(),
                candidate: cands[j].clone(),
            });
        }
        j = j + 1;
    }
    let commit = FiniteDecisionCommit { name: commit_name.clone(), candidates: copy_names(cands) };
    Ok(FiniteDecisionPlan {
        profile: owned(FINITE_DECISION_PROFILE),
        configs: g.configs,
        inputs: g.inputs,
        functions: g.functions,
        lets: g.lets,
        rules: g.rules,
        proposals: g.proposals,
        commit,
        shows: g.shows,
    })
}

} // verus!
