//! What the call-graph and exhaustiveness checks read of an expression,
//! stated over its model: two expressions with one model call the same
//! helpers and leave the same `match` uncovered.
use vstd::prelude::*;

use crate::l3_v2::exhaustive::{args_gap, arm_exprs, arms_gap, covers, fields_gap, first_gap, match_verdict, missing_variants};
use crate::l3_v2::expr_view::{lemma_arms_prefix, lemma_expr_fields_prefix, lemma_exprs_prefix, ExprModel};
use crate::l3_v2::semantics::{arg_exprs, field_exprs};
use crate::l3_v2::{L3ExprV2, L3PatternV2};
use super::plan::{calls_in, calls_in_args, calls_in_arms, calls_in_fields};

verus! {

/// An expression whose model is `m`.
pub open spec fn expr_of(m: ExprModel) -> L3ExprV2 {
    choose|x: L3ExprV2| x@ == m
}

/// The helpers an expression with model `m` calls.
pub open spec fn calls_of(m: ExprModel) -> Set<Seq<char>> {
    calls_in(expr_of(m))
}

/// The first `match` an expression with model `m` leaves uncovered.
pub open spec fn gap_of_model(
    m: ExprModel,
    sov: Seq<(Seq<char>, Seq<char>)>,
    vos: Seq<(Seq<char>, Seq<Seq<char>>)>,
) -> Option<(Seq<char>, Seq<Seq<char>>)> {
    first_gap(expr_of(m), sov, vos)
}

proof fn lemma_args_view(x: L3ExprV2, y: L3ExprV2)
    requires
        x@ == y@,
    ensures
        arg_exprs(x).len() == arg_exprs(y).len(),
        forall|i: int| 0 <= i < arg_exprs(x).len() ==> (#[trigger] arg_exprs(x)[i])@ == arg_exprs(y)[i]@,
        field_exprs(x).len() == field_exprs(y).len(),
        forall|i: int| 0 <= i < field_exprs(x).len() ==> (#[trigger] field_exprs(x)[i]).1@ == field_exprs(y)[i].1@,
        arm_exprs(x).len() == arm_exprs(y).len(),
        forall|i: int| 0 <= i < arm_exprs(x).len() ==> (#[trigger] arm_exprs(x)[i]).1@ == arm_exprs(y)[i].1@,
        forall|i: int| 0 <= i < arm_exprs(x).len() ==> (#[trigger] arm_exprs(x)[i]).0->Ctor_variant@ == arm_exprs(y)[i].0->Ctor_variant@,
{
    lemma_exprs_prefix(arg_exprs(x), arg_exprs(x).len());
    lemma_exprs_prefix(arg_exprs(y), arg_exprs(y).len());
    lemma_expr_fields_prefix(field_exprs(x), field_exprs(x).len());
    lemma_expr_fields_prefix(field_exprs(y), field_exprs(y).len());
    lemma_arms_prefix(arm_exprs(x), arm_exprs(x).len());
    lemma_arms_prefix(arm_exprs(y), arm_exprs(y).len());
    match x {
        L3ExprV2::Ctor { args, .. } => {
            assert forall|i: int| 0 <= i < arg_exprs(x).len() implies (#[trigger] arg_exprs(x)[i])@ == arg_exprs(y)[i]@ by {
                assert(crate::l3_v2::expr_view::exprs_prefix(args@, args@.len())[i] == args@[i]@);
            }
        },
        L3ExprV2::Call { args, .. } => {
            assert forall|i: int| 0 <= i < arg_exprs(x).len() implies (#[trigger] arg_exprs(x)[i])@ == arg_exprs(y)[i]@ by {
                assert(crate::l3_v2::expr_view::exprs_prefix(args@, args@.len())[i] == args@[i]@);
            }
        },
        L3ExprV2::Record { fields, .. } => {
            assert forall|i: int| 0 <= i < field_exprs(x).len() implies (#[trigger] field_exprs(x)[i]).1@ == field_exprs(y)[i].1@ by {
                assert(crate::l3_v2::expr_view::expr_fields_prefix(fields@, fields@.len())[i].1 == fields@[i].1@);
            }
        },
        L3ExprV2::Match { arms, .. } => {
            assert forall|i: int| 0 <= i < arm_exprs(x).len() implies (#[trigger] arm_exprs(x)[i]).1@ == arm_exprs(y)[i].1@
                && arm_exprs(x)[i].0->Ctor_variant@ == arm_exprs(y)[i].0->Ctor_variant@ by {
                let p = crate::l3_v2::expr_view::arms_prefix(arms@, arms@.len())[i];
                assert(p.1 == arms@[i].1@);
                assert(p.0 == crate::l3_v2::expr_view::pattern_model(arms@[i].0));
            }
        },
        _ => {},
    }
}

/// Two expressions with one model call the same helpers.
pub proof fn lemma_calls_view(x: L3ExprV2, y: L3ExprV2)
    requires
        x@ == y@,
    ensures
        calls_in(x) == calls_in(y),
    decreases x, 1nat,
{
    lemma_args_view(x, y);
    match x {
        L3ExprV2::Call { .. } | L3ExprV2::Ctor { .. } => lemma_calls_args_view(x, y, 0),
        L3ExprV2::Record { .. } => lemma_calls_fields_view(x, y, 0),
        L3ExprV2::Field(b, _) => {
            lemma_calls_view(*b, *(y->Field_0));
        },
        L3ExprV2::Arith(_, a, b) => {
            lemma_calls_view(*a, *(y->Arith_1));
            lemma_calls_view(*b, *(y->Arith_2));
        },
        L3ExprV2::Cmp(_, a, b) => {
            lemma_calls_view(*a, *(y->Cmp_1));
            lemma_calls_view(*b, *(y->Cmp_2));
        },
        L3ExprV2::Match { scrutinee, .. } => {
            lemma_calls_view(*scrutinee, *(y->Match_scrutinee));
            lemma_calls_arms_view(x, y, 0);
        },
        _ => {},
    }
}

proof fn lemma_calls_args_view(x: L3ExprV2, y: L3ExprV2, i: nat)
    requires
        x@ == y@,
    ensures
        calls_in_args(x, i) == calls_in_args(y, i),
    decreases x, 0nat, arg_exprs(x).len() - i,
{
    lemma_args_view(x, y);
    if i < arg_exprs(x).len() {
        assert(decreases_to!(x => arg_exprs(x)[i as int])) by {
            match x {
                L3ExprV2::Ctor { args, .. } => {
                    assert(decreases_to!(x => args));
                    assert(decreases_to!(args => args@));
                },
                L3ExprV2::Call { args, .. } => {
                    assert(decreases_to!(x => args));
                    assert(decreases_to!(args => args@));
                },
                _ => {},
            }
        }
        lemma_calls_view(arg_exprs(x)[i as int], arg_exprs(y)[i as int]);
        lemma_calls_args_view(x, y, i + 1);
    }
}

proof fn lemma_calls_fields_view(x: L3ExprV2, y: L3ExprV2, i: nat)
    requires
        x@ == y@,
    ensures
        calls_in_fields(x, i) == calls_in_fields(y, i),
    decreases x, 0nat, field_exprs(x).len() - i,
{
    lemma_args_view(x, y);
    if i < field_exprs(x).len() {
        assert(decreases_to!(x => field_exprs(x)[i as int].1)) by {
            if let L3ExprV2::Record { fields, .. } = x {
                assert(decreases_to!(x => fields));
                assert(decreases_to!(fields => fields@));
                assert(decreases_to!(fields@ => fields@[i as int]));
            }
        }
        lemma_calls_view(field_exprs(x)[i as int].1, field_exprs(y)[i as int].1);
        lemma_calls_fields_view(x, y, i + 1);
    }
}

proof fn lemma_calls_arms_view(x: L3ExprV2, y: L3ExprV2, i: nat)
    requires
        x@ == y@,
    ensures
        calls_in_arms(x, i) == calls_in_arms(y, i),
    decreases x, 0nat, arm_exprs(x).len() - i,
{
    lemma_args_view(x, y);
    if i < arm_exprs(x).len() {
        assert(decreases_to!(x => arm_exprs(x)[i as int].1)) by {
            if let L3ExprV2::Match { arms, .. } = x {
                assert(decreases_to!(x => arms));
                assert(decreases_to!(arms => arms@));
                assert(decreases_to!(arms@ => arms@[i as int]));
            }
        }
        lemma_calls_view(arm_exprs(x)[i as int].1, arm_exprs(y)[i as int].1);
        lemma_calls_arms_view(x, y, i + 1);
    }
}

proof fn lemma_missing_view(all: Seq<Seq<char>>, ax: Seq<(L3PatternV2, L3ExprV2)>, ay: Seq<(L3PatternV2, L3ExprV2)>)
    requires
        ax.len() == ay.len(),
        forall|i: int| 0 <= i < ax.len() ==> (#[trigger] ax[i]).0->Ctor_variant@ == ay[i].0->Ctor_variant@,
    ensures
        missing_variants(all, ax) == missing_variants(all, ay),
    decreases all.len(),
{
    if all.len() > 0 {
        lemma_missing_view(all.drop_last(), ax, ay);
        let v = all.last();
        if covers(ax, v) {
            let j = choose|j: int| 0 <= j < ax.len() && (#[trigger] ax[j]).0->Ctor_variant@ == v;
            assert(ay[j].0->Ctor_variant@ == v);
        }
        if covers(ay, v) {
            let j = choose|j: int| 0 <= j < ay.len() && (#[trigger] ay[j]).0->Ctor_variant@ == v;
            assert(ax[j].0->Ctor_variant@ == v);
        }
    }
}

/// Two expressions with one model leave the same `match` uncovered.
pub proof fn lemma_gap_view(
    x: L3ExprV2,
    y: L3ExprV2,
    sov: Seq<(Seq<char>, Seq<char>)>,
    vos: Seq<(Seq<char>, Seq<Seq<char>>)>,
)
    requires
        x@ == y@,
    ensures
        first_gap(x, sov, vos) == first_gap(y, sov, vos),
    decreases x, 1nat,
{
    lemma_args_view(x, y);
    match x {
        L3ExprV2::Call { .. } | L3ExprV2::Ctor { .. } => lemma_gap_args_view(x, y, sov, vos, 0),
        L3ExprV2::Record { .. } => lemma_gap_fields_view(x, y, sov, vos, 0),
        L3ExprV2::Field(b, _) => {
            lemma_gap_view(*b, *(y->Field_0), sov, vos);
        },
        L3ExprV2::Arith(_, a, b) => {
            lemma_gap_view(*a, *(y->Arith_1), sov, vos);
            lemma_gap_view(*b, *(y->Arith_2), sov, vos);
        },
        L3ExprV2::Cmp(_, a, b) => {
            lemma_gap_view(*a, *(y->Cmp_1), sov, vos);
            lemma_gap_view(*b, *(y->Cmp_2), sov, vos);
        },
        L3ExprV2::Match { scrutinee, arms } => {
            lemma_gap_view(*scrutinee, *(y->Match_scrutinee), sov, vos);
            lemma_gap_arms_view(x, y, sov, vos, 0);
            lemma_missing_view_all(arms@, y->Match_arms@, vos);
            assert(match_verdict(arms@, sov, vos) == match_verdict(y->Match_arms@, sov, vos));
        },
        _ => {},
    }
}

proof fn lemma_missing_view_all(ax: Seq<(L3PatternV2, L3ExprV2)>, ay: Seq<(L3PatternV2, L3ExprV2)>, vos: Seq<(Seq<char>, Seq<Seq<char>>)>)
    requires
        ax.len() == ay.len(),
        forall|i: int| 0 <= i < ax.len() ==> (#[trigger] ax[i]).0->Ctor_variant@ == ay[i].0->Ctor_variant@,
    ensures
        forall|all: Seq<Seq<char>>| #[trigger] missing_variants(all, ax) == missing_variants(all, ay),
{
    assert forall|all: Seq<Seq<char>>| #[trigger] missing_variants(all, ax) == missing_variants(all, ay) by {
        lemma_missing_view(all, ax, ay);
    }
}

proof fn lemma_gap_args_view(
    x: L3ExprV2,
    y: L3ExprV2,
    sov: Seq<(Seq<char>, Seq<char>)>,
    vos: Seq<(Seq<char>, Seq<Seq<char>>)>,
    i: nat,
)
    requires
        x@ == y@,
    ensures
        args_gap(x, sov, vos, i) == args_gap(y, sov, vos, i),
    decreases x, 0nat, arg_exprs(x).len() - i,
{
    lemma_args_view(x, y);
    if i < arg_exprs(x).len() {
        assert(decreases_to!(x => arg_exprs(x)[i as int])) by {
            match x {
                L3ExprV2::Ctor { args, .. } => {
                    assert(decreases_to!(x => args));
                    assert(decreases_to!(args => args@));
                },
                L3ExprV2::Call { args, .. } => {
                    assert(decreases_to!(x => args));
                    assert(decreases_to!(args => args@));
                },
                _ => {},
            }
        }
        lemma_gap_view(arg_exprs(x)[i as int], arg_exprs(y)[i as int], sov, vos);
        lemma_gap_args_view(x, y, sov, vos, i + 1);
    }
}

proof fn lemma_gap_fields_view(
    x: L3ExprV2,
    y: L3ExprV2,
    sov: Seq<(Seq<char>, Seq<char>)>,
    vos: Seq<(Seq<char>, Seq<Seq<char>>)>,
    i: nat,
)
    requires
        x@ == y@,
    ensures
        fields_gap(x, sov, vos, i) == fields_gap(y, sov, vos, i),
    decreases x, 0nat, field_exprs(x).len() - i,
{
    lemma_args_view(x, y);
    if i < field_exprs(x).len() {
        assert(decreases_to!(x => field_exprs(x)[i as int].1)) by {
            if let L3ExprV2::Record { fields, .. } = x {
                assert(decreases_to!(x => fields));
                assert(decreases_to!(fields => fields@));
                assert(decreases_to!(fields@ => fields@[i as int]));
            }
        }
        lemma_gap_view(field_exprs(x)[i as int].1, field_exprs(y)[i as int].1, sov, vos);
        lemma_gap_fields_view(x, y, sov, vos, i + 1);
    }
}

proof fn lemma_gap_arms_view(
    x: L3ExprV2,
    y: L3ExprV2,
    sov: Seq<(Seq<char>, Seq<char>)>,
    vos: Seq<(Seq<char>, Seq<Seq<char>>)>,
    i: nat,
)
    requires
        x@ == y@,
    ensures
        arms_gap(x, sov, vos, i) == arms_gap(y, sov, vos, i),
    decreases x, 0nat, arm_exprs(x).len() - i,
{
    lemma_args_view(x, y);
    if i < arm_exprs(x).len() {
        assert(decreases_to!(x => arm_exprs(x)[i as int].1)) by {
            if let L3ExprV2::Match { arms, .. } = x {
                assert(decreases_to!(x => arms));
                assert(decreases_to!(arms => arms@));
                assert(decreases_to!(arms@ => arms@[i as int]));
            }
        }
        lemma_gap_view(arm_exprs(x)[i as int].1, arm_exprs(y)[i as int].1, sov, vos);
        lemma_gap_arms_view(x, y, sov, vos, i + 1);
    }
}

/// What the checks read of an expression is what they read of its model.
pub proof fn lemma_model_checks(x: L3ExprV2, sov: Seq<(Seq<char>, Seq<char>)>, vos: Seq<(Seq<char>, Seq<Seq<char>>)>)
    ensures
        calls_of(x@) == calls_in(x),
        gap_of_model(x@, sov, vos) == first_gap(x, sov, vos),
{
    let y = expr_of(x@);
    assert(y@ == x@);
    lemma_calls_view(y, x);
    lemma_gap_view(y, x, sov, vos);
}

} // verus!
