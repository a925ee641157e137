//! Exhaustiveness of `match` expressions over the sums a plan declares.
//!
//! The check is conservative about what it can see: a `match` whose sum
//! cannot be determined from its first arm is left alone, and will fault at
//! evaluation as `NoMatchingArm` if a case is missing.
use vstd::prelude::*;

use crate::keymap::{
    assoc_get, insert_pairs, lemma_get_mapped, lemma_insert_mapped, map_entries, KeyMap,
};
use crate::l3_v2::eval::{find_arm, lemma_arm_index};
use crate::l3_v2::semantics::{arg_exprs, arm_index, field_exprs};
use crate::l3_v2::{L3ConfigBodyV2, L3ExprV2, L3PatternV2, L3PlanItemV2, L3PlanV2, L3V2LowerError};
use crate::text::owned;

verus! {

/// Character sequences of a list of names.
pub open spec fn names(v: Seq<String>) -> Seq<Seq<char>> {
    v.map_values(|s: String| s@)
}

/// Model of a variant-to-sum table.
pub open spec fn sum_model(p: Seq<(Seq<char>, String)>) -> Seq<(Seq<char>, Seq<char>)> {
    map_entries(p, |s: String| s@)
}

/// Model of a sum-to-variants table.
pub open spec fn variants_model(p: Seq<(Seq<char>, Vec<String>)>) -> Seq<(Seq<char>, Seq<Seq<char>>)> {
    map_entries(p, |v: Vec<String>| names(v@))
}

/// Some arm names constructor `v`.
pub open spec fn covers(arms: Seq<(L3PatternV2, L3ExprV2)>, v: Seq<char>) -> bool {
    exists|j: int| 0 <= j < arms.len() && (#[trigger] arms[j]).0->Ctor_variant@ == v
}

/// The variants of `all` that no arm names, in order.
pub open spec fn missing_variants(all: Seq<Seq<char>>, arms: Seq<(L3PatternV2, L3ExprV2)>) -> Seq<Seq<char>>
    decreases all.len(),
{
    if all.len() == 0 {
        Seq::empty()
    } else {
        let rest = missing_variants(all.drop_last(), arms);
        if covers(arms, all.last()) {
            rest
        } else {
            rest.push(all.last())
        }
    }
}

/// The verdict on one `match`, its sum read off its first arm: the sum and
/// the variants no arm covers, or nothing when it is exhaustive or its sum
/// is unknown.
pub open spec fn match_verdict(
    arms: Seq<(L3PatternV2, L3ExprV2)>,
    sov: Seq<(Seq<char>, Seq<char>)>,
    vos: Seq<(Seq<char>, Seq<Seq<char>>)>,
) -> Option<(Seq<char>, Seq<Seq<char>>)> {
    if arms.len() == 0 {
        Some(("<empty match>"@, Seq::empty()))
    } else {
        match assoc_get(sov, arms[0].0->Ctor_variant@) {
            None => None,
            Some(sum) => match assoc_get(vos, sum) {
                None => None,
                Some(all) => {
                    let m = missing_variants(all, arms);
                    if m.len() == 0 {
                        None
                    } else {
                        Some((sum, m))
                    }
                },
            },
        }
    }
}

/// The first non-exhaustive `match` in `e`, inner expressions first and
/// operands left to right.
pub open spec fn first_gap(
    e: L3ExprV2,
    sov: Seq<(Seq<char>, Seq<char>)>,
    vos: Seq<(Seq<char>, Seq<Seq<char>>)>,
) -> Option<(Seq<char>, Seq<Seq<char>>)>
    decreases e, 1nat, 0nat,
{
    match e {
        L3ExprV2::Match { scrutinee, arms } => match first_gap(*scrutinee, sov, vos) {
            Some(g) => Some(g),
            None => match arms_gap(e, sov, vos, 0) {
                Some(g) => Some(g),
                None => match_verdict(arms@, sov, vos),
            },
        },
        L3ExprV2::Ctor { .. } => args_gap(e, sov, vos, 0),
        L3ExprV2::Call { .. } => args_gap(e, sov, vos, 0),
        L3ExprV2::Record { .. } => fields_gap(e, sov, vos, 0),
        L3ExprV2::Field(b, _) => first_gap(*b, sov, vos),
        L3ExprV2::Arith(_, a, b) => match first_gap(*a, sov, vos) {
            Some(g) => Some(g),
            None => first_gap(*b, sov, vos),
        },
        L3ExprV2::Cmp(_, a, b) => match first_gap(*a, sov, vos) {
            Some(g) => Some(g),
            None => first_gap(*b, sov, vos),
        },
        _ => None,
    }
}

/// Arm bodies of a `match` expression.
pub open spec fn arm_exprs(e: L3ExprV2) -> Seq<(L3PatternV2, L3ExprV2)> {
    match e {
        L3ExprV2::Match { arms, .. } => arms@,
        _ => Seq::empty(),
    }
}

/// First gap among the arguments of `parent` from index `i`.
pub open spec fn args_gap(
    parent: L3ExprV2,
    sov: Seq<(Seq<char>, Seq<char>)>,
    vos: Seq<(Seq<char>, Seq<Seq<char>>)>,
    i: nat,
) -> Option<(Seq<char>, Seq<Seq<char>>)>
    decreases parent, 0nat, arg_exprs(parent).len() - i,
{
    let args = arg_exprs(parent);
    if i >= args.len() {
        None
    } else {
        match first_gap(args[i as int], sov, vos) {
            Some(g) => Some(g),
            None => args_gap(parent, sov, vos, i + 1),
        }
    }
}

/// First gap among the field values of `parent` from index `i`.
pub open spec fn fields_gap(
    parent: L3ExprV2,
    sov: Seq<(Seq<char>, Seq<char>)>,
    vos: Seq<(Seq<char>, Seq<Seq<char>>)>,
    i: nat,
) -> Option<(Seq<char>, Seq<Seq<char>>)>
    decreases parent, 0nat, field_exprs(parent).len() - i,
{
    let fields = field_exprs(parent);
    if i >= fields.len() {
        None
    } else {
        match first_gap(fields[i as int].1, sov, vos) {
            Some(g) => Some(g),
            None => fields_gap(parent, sov, vos, i + 1),
        }
    }
}

/// First gap among the arm bodies of `parent` from index `i`.
pub open spec fn arms_gap(
    parent: L3ExprV2,
    sov: Seq<(Seq<char>, Seq<char>)>,
    vos: Seq<(Seq<char>, Seq<Seq<char>>)>,
    i: nat,
) -> Option<(Seq<char>, Seq<Seq<char>>)>
    decreases parent, 0nat, arm_exprs(parent).len() - i,
{
    let arms = arm_exprs(parent);
    if i >= arms.len() {
        None
    } else {
        match first_gap(arms[i as int].1, sov, vos) {
            Some(g) => Some(g),
            None => arms_gap(parent, sov, vos, i + 1),
        }
    }
}

/// The gap a check reports, if it reports one.
pub open spec fn gap_of(r: Result<(), L3V2LowerError>) -> Option<(Seq<char>, Seq<Seq<char>>)> {
    match r {
        Err(L3V2LowerError::NonExhaustiveMatch { sum, missing }) => Some((sum@, names(missing@))),
        _ => None,
    }
}

/// Whether some arm names `v`.
fn arm_covers(arms: &Vec<(L3PatternV2, L3ExprV2)>, v: &str) -> (b: bool)
    ensures
        b == covers(arms@, v@),
{
    proof {
        lemma_arm_index(arms@, v@);
    }
    let found = find_arm(arms, v);
    proof {
        if let Some(k) = found {
            assert(arms@[k as int].0->Ctor_variant@ == v@);
        }
    }
    found.is_some()
}

/// The variants of `all` that no arm of `arms` names.
fn missing_of(all: &Vec<String>, arms: &Vec<(L3PatternV2, L3ExprV2)>) -> (m: Vec<String>)
    ensures
        names(m@) == missing_variants(names(all@), arms@),
{
    let mut m: Vec<String> = Vec::new();
    let mut i: usize = 0;
    while i < all.len()
        invariant
            i <= all@.len(),
            names(m@) == missing_variants(names(all@).take(i as int), arms@),
        decreases all@.len() - i,
    {
        let c = arm_covers(arms, all[i].as_str());
        proof {
            let t = names(all@).take(i as int + 1);
            assert(t.drop_last() =~= names(all@).take(i as int));
            assert(t.last() == all@[i as int]@);
        }
        if !c {
            let s = all[i].clone();
            proof {
                assert(names(m@.push(s)) =~= names(m@).push(s@));
            }
            m.push(s);
        }
        i = i + 1;
    }
    proof {
        assert(names(all@).take(all@.len() as int) =~= names(all@));
    }
    m
}

/// Check that every `match` in `e` covers its sum, inner expressions first.
#[verifier::loop_isolation(false)]
pub fn check_exhaustive_expr(
    e: &L3ExprV2,
    sum_of_variant: &KeyMap<String>,
    variants_of_sum: &KeyMap<Vec<String>>,
) -> (r: Result<(), L3V2LowerError>)
    ensures
        gap_of(r) == first_gap(
            *e,
            sum_model(sum_of_variant.pairs()),
            variants_model(variants_of_sum.pairs()),
        ),
        r matches Err(err) ==> err is NonExhaustiveMatch,
    decreases *e,
{
    let ghost sov = sum_model(sum_of_variant.pairs());
    let ghost vos = variants_model(variants_of_sum.pairs());
    match e {
        L3ExprV2::Match { scrutinee, arms } => {
            let rs = check_exhaustive_expr(scrutinee, sum_of_variant, variants_of_sum);
            if rs.is_err() {
                return rs;
            }
            let mut i: usize = 0;
            while i < arms.len()
                invariant
                    i <= arms@.len(),
                    arm_exprs(*e) == arms@,
                    first_gap(*e, sov, vos) == (match arms_gap(*e, sov, vos, i as nat) {
                        Some(g) => Some(g),
                        None => match_verdict(arms@, sov, vos),
                    }),
                decreases arms@.len() - i,
            {
                proof {
                    assert(decreases_to!(*e => (*e)->Match_arms));
                    assert(decreases_to!((*e)->Match_arms => (*e)->Match_arms@));
                    assert(decreases_to!((*e)->Match_arms@ => (*e)->Match_arms@[i as int]));
                    assert(decreases_to!((*e)->Match_arms@[i as int] => (*e)->Match_arms@[i as int].1));
                }
                let ra = check_exhaustive_expr(&arms[i].1, sum_of_variant, variants_of_sum);
                if ra.is_err() {
                    return ra;
                }
                i = i + 1;
            }
            if arms.len() == 0 {
                return Err(
                    L3V2LowerError::NonExhaustiveMatch {
                        sum: owned("<empty match>"),
                        missing: Vec::new(),
                    },
                );
            }
            let first = match &arms[0].0 {
                L3PatternV2::Ctor { variant, .. } => variant,
            };
            proof {
                lemma_get_mapped(sum_of_variant.pairs(), first@, |s: String| s@);
            }
            let sum = match sum_of_variant.get(first.as_str()) {
                None => return Ok(()),
                Some(s) => s,
            };
            proof {
                lemma_get_mapped(variants_of_sum.pairs(), sum@, |v: Vec<String>| names(v@));
            }
            let all = match variants_of_sum.get(sum.as_str()) {
                None => return Ok(()),
                Some(a) => a,
            };
            let missing = missing_of(all, arms);
            if missing.len() == 0 {
                Ok(())
            } else {
                Err(L3V2LowerError::NonExhaustiveMatch { sum: sum.clone(), missing })
            }
        },
        L3ExprV2::Ctor { args, .. } | L3ExprV2::Call { args, .. } => {
            let mut i: usize = 0;
            while i < args.len()
                invariant
                    i <= args@.len(),
                    arg_exprs(*e) == args@,
                    first_gap(*e, sov, vos) == args_gap(*e, sov, vos, i as nat),
                decreases args@.len() - i,
            {
                proof {
                    if *e is Ctor {
                        assert(decreases_to!(*e => (*e)->Ctor_args));
                        assert(decreases_to!((*e)->Ctor_args => (*e)->Ctor_args@));
                        assert(decreases_to!((*e)->Ctor_args@ => (*e)->Ctor_args@[i as int]));
                    } else {
                        assert(decreases_to!(*e => (*e)->Call_args));
                        assert(decreases_to!((*e)->Call_args => (*e)->Call_args@));
                        assert(decreases_to!((*e)->Call_args@ => (*e)->Call_args@[i as int]));
                    }
                }
                let ra = check_exhaustive_expr(&args[i], sum_of_variant, variants_of_sum);
                if ra.is_err() {
                    return ra;
                }
                i = i + 1;
            }
            Ok(())
        },
        L3ExprV2::Record { fields, .. } => {
            let mut i: usize = 0;
            while i < fields.len()
                invariant
                    i <= fields@.len(),
                    field_exprs(*e) == fields@,
                    first_gap(*e, sov, vos) == fields_gap(*e, sov, vos, i as nat),
                decreases fields@.len() - i,
            {
                proof {
                    assert(decreases_to!(*e => (*e)->Record_fields));
                    assert(decreases_to!((*e)->Record_fields => (*e)->Record_fields@));
                    assert(decreases_to!((*e)->Record_fields@ => (*e)->Record_fields@[i as int]));
                    assert(decreases_to!((*e)->Record_fields@[i as int] => (*e)->Record_fields@[i as int].1));
                }
                let ra = check_exhaustive_expr(&fields[i].1, sum_of_variant, variants_of_sum);
                if ra.is_err() {
                    return ra;
                }
                i = i + 1;
            }
            Ok(())
        },
        L3ExprV2::Field(b, _) => check_exhaustive_expr(b, sum_of_variant, variants_of_sum),
        L3ExprV2::Arith(_, a, b) | L3ExprV2::Cmp(_, a, b) => {
            let ra = check_exhaustive_expr(a, sum_of_variant, variants_of_sum);
            if ra.is_err() {
                return ra;
            }
            check_exhaustive_expr(b, sum_of_variant, variants_of_sum)
        },
        _ => Ok(()),
    }
}

/// The table after storing `sum` under each of the first `n` variant names.
pub open spec fn with_variants(
    t: Seq<(Seq<char>, Seq<char>)>,
    vs: Seq<(String, usize)>,
    sum: Seq<char>,
    n: nat,
) -> Seq<(Seq<char>, Seq<char>)>
    decreases n,
{
    if n == 0 || n > vs.len() {
        t
    } else {
        insert_pairs(with_variants(t, vs, sum, (n - 1) as nat), vs[n - 1].0@, sum)
    }
}

/// Variant names of a sum declaration, in order.
pub open spec fn variant_names(vs: Seq<(String, usize)>) -> Seq<Seq<char>> {
    vs.map_values(|p: (String, usize)| p.0@)
}

/// Variant-to-sum table of the sums among the first `n` items; a later
/// declaration of a name replaces an earlier one.
pub open spec fn declared_variants(items: Seq<L3PlanItemV2>, n: nat) -> Seq<(Seq<char>, Seq<char>)>
    decreases n,
{
    if n == 0 || n > items.len() {
        Seq::empty()
    } else {
        let t = declared_variants(items, (n - 1) as nat);
        match items[n - 1] {
            L3PlanItemV2::Config(c) => match c.body {
                L3ConfigBodyV2::Sum(vs) => with_variants(t, vs@, c.name@, vs@.len()),
                _ => t,
            },
            _ => t,
        }
    }
}

/// Sum-to-variants table of the sums among the first `n` items.
pub open spec fn declared_sums(items: Seq<L3PlanItemV2>, n: nat) -> Seq<(Seq<char>, Seq<Seq<char>>)>
    decreases n,
{
    if n == 0 || n > items.len() {
        Seq::empty()
    } else {
        let t = declared_sums(items, (n - 1) as nat);
        match items[n - 1] {
            L3PlanItemV2::Config(c) => match c.body {
                L3ConfigBodyV2::Sum(vs) => insert_pairs(t, c.name@, variant_names(vs@)),
                _ => t,
            },
            _ => t,
        }
    }
}

/// Variant-to-sum table of a plan, with `true` and `false` naming `Bool`.
pub open spec fn variant_sums(items: Seq<L3PlanItemV2>) -> Seq<(Seq<char>, Seq<char>)> {
    insert_pairs(
        insert_pairs(declared_variants(items, items.len()), "true"@, "Bool"@),
        "false"@,
        "Bool"@,
    )
}

/// Sum-to-variants table of a plan, with `Bool` as the sum of `false` and
/// `true`.
pub open spec fn sum_variants(items: Seq<L3PlanItemV2>) -> Seq<(Seq<char>, Seq<Seq<char>>)> {
    insert_pairs(declared_sums(items, items.len()), "Bool"@, seq!["false"@, "true"@])
}

/// First gap in the `let` values and rule bodies of `items` from index `i`.
pub open spec fn plan_gap(
    items: Seq<L3PlanItemV2>,
    sov: Seq<(Seq<char>, Seq<char>)>,
    vos: Seq<(Seq<char>, Seq<Seq<char>>)>,
    i: nat,
) -> Option<(Seq<char>, Seq<Seq<char>>)>
    decreases items.len() - i,
{
    if i >= items.len() {
        None
    } else {
        let g = match items[i as int] {
            L3PlanItemV2::Let { value, .. } => first_gap(value, sov, vos),
            L3PlanItemV2::Rule { body, .. } => first_gap(body, sov, vos),
            L3PlanItemV2::Config(_) => None,
        };
        match g {
            Some(x) => Some(x),
            None => plan_gap(items, sov, vos, i + 1),
        }
    }
}

/// The item's own expressions (a `let` value, a rule body) leave no
/// `match` uncovered.
pub open spec fn item_covered(
    item: L3PlanItemV2,
    sov: Seq<(Seq<char>, Seq<char>)>,
    vos: Seq<(Seq<char>, Seq<Seq<char>>)>,
) -> bool {
    &&& item matches L3PlanItemV2::Let { value, .. } ==> first_gap(value, sov, vos) is None
    &&& item matches L3PlanItemV2::Rule { body, .. } ==> first_gap(body, sov, vos) is None
}

/// A plan has no uncovered `match` from the `i`-th item on exactly when no
/// `let` value and no rule body from there on has one.
pub proof fn lemma_plan_gap_items(
    items: Seq<L3PlanItemV2>,
    sov: Seq<(Seq<char>, Seq<char>)>,
    vos: Seq<(Seq<char>, Seq<Seq<char>>)>,
    i: nat,
)
    ensures
        plan_gap(items, sov, vos, i) is None <==> forall|k: int| i <= k < items.len() ==> #[trigger] item_covered(
            items[k],
            sov,
            vos,
        ),
    decreases items.len() - i,
{
    if i < items.len() {
        lemma_plan_gap_items(items, sov, vos, i + 1);
        if plan_gap(items, sov, vos, i) is None {
            assert forall|k: int| i <= k < items.len() implies #[trigger] item_covered(items[k], sov, vos) by {
                if k > i {
                    assert(item_covered(items[k], sov, vos));
                }
            }
        }
        if forall|k: int| i <= k < items.len() ==> #[trigger] item_covered(items[k], sov, vos) {
            assert(item_covered(items[i as int], sov, vos));
            assert forall|k: int| i + 1 <= k < items.len() implies #[trigger] item_covered(items[k], sov, vos) by {
                assert(item_covered(items[k], sov, vos));
            }
        }
    }
}

proof fn lemma_none_missing(all: Seq<Seq<char>>, arms: Seq<(L3PatternV2, L3ExprV2)>)
    requires
        missing_variants(all, arms).len() == 0,
    ensures
        forall|k: int| 0 <= k < all.len() ==> covers(arms, #[trigger] all[k]),
    decreases all.len(),
{
    if all.len() > 0 {
        if !covers(arms, all.last()) {
            assert(missing_variants(all, arms).len() > 0);
        }
        lemma_none_missing(all.drop_last(), arms);
        assert forall|k: int| 0 <= k < all.len() implies covers(arms, #[trigger] all[k]) by {
            if k < all.len() - 1 {
                assert(all.drop_last()[k] == all[k]);
            }
        }
    }
}

/// A `match` with no uncovered `match` in it covers its sum: when its first
/// arm names a variant of a known sum, every variant of that sum is named
/// by some arm; and a `match` with no arms is never covered.
pub proof fn lemma_covered_match_names_every_variant(
    e: L3ExprV2,
    sov: Seq<(Seq<char>, Seq<char>)>,
    vos: Seq<(Seq<char>, Seq<Seq<char>>)>,
)
    requires
        e is Match,
        first_gap(e, sov, vos) is None,
    ensures
        e->Match_arms@.len() > 0,
        forall|sum: Seq<char>, all: Seq<Seq<char>>|
            assoc_get(sov, e->Match_arms@[0].0->Ctor_variant@) == Some(sum) && assoc_get(vos, sum) == Some(all) ==>
            forall|k: int| 0 <= k < all.len() ==> covers(e->Match_arms@, #[trigger] all[k]),
{
    let arms = e->Match_arms@;
    assert(match_verdict(arms, sov, vos) is None);
    if arms.len() > 0 {
        if let Some(sum) = assoc_get(sov, arms[0].0->Ctor_variant@) {
            if let Some(all) = assoc_get(vos, sum) {
                lemma_none_missing(all, arms);
            }
        }
    }
}

/// Check that every `match` in `plan` is exhaustive over its scrutinee's sum.
pub fn check_exhaustive(plan: &L3PlanV2) -> (r: Result<(), L3V2LowerError>)
    ensures
        gap_of(r) == plan_gap(
            plan.items@,
            variant_sums(plan.items@),
            sum_variants(plan.items@),
            0,
        ),
        r matches Err(err) ==> err is NonExhaustiveMatch,
        r is Ok <==> forall|k: int| 0 <= k < plan.items@.len() ==> #[trigger] item_covered(
            plan.items@[k],
            variant_sums(plan.items@),
            sum_variants(plan.items@),
        ),
{
    let ghost items = plan.items@;
    proof {
        lemma_plan_gap_items(items, variant_sums(items), sum_variants(items), 0);
    }
    let mut sov: KeyMap<String> = KeyMap::new();
    let mut vos: KeyMap<Vec<String>> = KeyMap::new();
    proof {
        assert(sum_model(sov.pairs()) =~= Seq::<(Seq<char>, Seq<char>)>::empty());
        assert(variants_model(vos.pairs()) =~= Seq::<(Seq<char>, Seq<Seq<char>>)>::empty());
    }
    let mut i: usize = 0;
    while i < plan.items.len()
        invariant
            i <= items.len(),
            items == plan.items@,
            sum_model(sov.pairs()) == declared_variants(items, i as nat),
            variants_model(vos.pairs()) == declared_sums(items, i as nat),
        decreases items.len() - i,
    {
        match &plan.items[i] {
            L3PlanItemV2::Config(c) => match &c.body {
                L3ConfigBodyV2::Sum(variants) => {
                    let ghost t0 = declared_variants(items, i as nat);
                    let mut names_vec: Vec<String> = Vec::new();
                    let mut j: usize = 0;
                    while j < variants.len()
                        invariant
                            j <= variants@.len(),
                            names_vec@.len() == j,
                            sum_model(sov.pairs()) == with_variants(t0, variants@, c.name@, j as nat),
                            names(names_vec@) == variant_names(variants@).take(j as int),
                        decreases variants@.len() - j,
                    {
                        let ghost before = sov.pairs();
                        let s = c.name.clone();
                        sov.insert(variants[j].0.clone(), s);
                        proof {
                            lemma_insert_mapped(before, variants@[j as int].0@, s, |x: String| x@);
                        }
                        let v = variants[j].0.clone();
                        proof {
                            let a = names(names_vec@.push(v));
                            let b = variant_names(variants@).take(j as int + 1);
                            assert(a.len() == b.len());
                            assert forall|x: int| 0 <= x < a.len() implies a[x] == b[x] by {
                                if x < j {
                                    assert(a[x] == names(names_vec@)[x]);
                                    assert(variant_names(variants@).take(j as int)[x] == b[x]);
                                }
                            }
                            assert(a =~= b);
                        }
                        names_vec.push(v);
                        j = j + 1;
                    }
                    let ghost vbefore = vos.pairs();
                    proof {
                        assert(variant_names(variants@).take(variants@.len() as int) =~= variant_names(
                            variants@,
                        ));
                        lemma_insert_mapped(vbefore, c.name@, names_vec, |v: Vec<String>| names(v@));
                    }
                    vos.insert(c.name.clone(), names_vec);
                },
                _ => {},
            },
            _ => {},
        }
        i = i + 1;
    }
    let ghost s0 = sov.pairs();
    let t = owned("Bool");
    sov.insert(owned("true"), t);
    proof {
        lemma_insert_mapped(s0, "true"@, t, |x: String| x@);
    }
    let ghost s1 = sov.pairs();
    let t = owned("Bool");
    sov.insert(owned("false"), t);
    proof {
        lemma_insert_mapped(s1, "false"@, t, |x: String| x@);
    }
    let mut both: Vec<String> = Vec::new();
    both.push(owned("false"));
    both.push(owned("true"));
    let ghost v0 = vos.pairs();
    proof {
        assert(names(both@) =~= seq!["false"@, "true"@]);
        lemma_insert_mapped(v0, "Bool"@, both, |v: Vec<String>| names(v@));
    }
    vos.insert(owned("Bool"), both);
    let ghost sv = variant_sums(items);
    let ghost vs = sum_variants(items);
    let mut k: usize = 0;
    while k < plan.items.len()
        invariant
            k <= items.len(),
            items == plan.items@,
            sv == variant_sums(items),
            vs == sum_variants(items),
            sum_model(sov.pairs()) == sv,
            variants_model(vos.pairs()) == vs,
            plan_gap(items, sv, vs, 0) == plan_gap(items, sv, vs, k as nat),
        decreases items.len() - k,
    {
        let rc = match &plan.items[k] {
            L3PlanItemV2::Let { value, .. } => check_exhaustive_expr(value, &sov, &vos),
            L3PlanItemV2::Rule { body, .. } => check_exhaustive_expr(body, &sov, &vos),
            L3PlanItemV2::Config(_) => Ok(()),
        };
        if rc.is_err() {
            proof {
                assert(plan_gap(items, sv, vs, k as nat) == gap_of(rc));
                assert(gap_of(rc) is Some);
                assert(plan_gap(items, sv, vs, 0) is Some);
                lemma_plan_gap_items(items, sv, vs, 0);
            }
            return rc;
        }
        k = k + 1;
    }
    Ok(())
}

} // verus!
