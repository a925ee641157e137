//! Which rule facts a lowered expression reads, and that lowering reads
//! only the facts its scope allows.
use vstd::prelude::*;

use crate::l3_v2::expr_view::{ExprModel, PatternModel};
use crate::l3_v2::lower::{
    bound_names, field_order, insert_ranked, lower_args_spec, lower_arms_spec, lower_fields_spec, lower_spec, pattern_spec,
    order_fields, rank, surface_args, surface_arms, surface_fields, ScopeModel, SurfaceExpr,
};

verus! {

/// The rule facts an expression reads.
pub open spec fn reads(m: ExprModel) -> Set<Seq<char>>
    decreases m,
{
    match m {
        ExprModel::RuleFact(n) => set![n],
        ExprModel::Field(b, _) => reads(*b),
        ExprModel::Arith(_, a, b) => reads(*a) + reads(*b),
        ExprModel::Cmp(_, a, b) => reads(*a) + reads(*b),
        ExprModel::Ctor { args, .. } => reads_seq(args),
        ExprModel::Call { args, .. } => reads_seq(args),
        ExprModel::Record { fields, .. } => reads_field_seq(fields),
        ExprModel::Match { scrutinee, arms } => reads(*scrutinee) + reads_arm_seq(arms),
        _ => Set::empty(),
    }
}

/// The rule facts a sequence of expressions reads.
pub open spec fn reads_seq(s: Seq<ExprModel>) -> Set<Seq<char>>
    decreases s,
{
    if s.len() == 0 {
        Set::empty()
    } else {
        reads_seq(s.drop_last()) + reads(s.last())
    }
}

/// The rule facts a sequence of named expressions reads.
pub open spec fn reads_field_seq(s: Seq<(Seq<char>, ExprModel)>) -> Set<Seq<char>>
    decreases s,
{
    if s.len() == 0 {
        Set::empty()
    } else {
        reads_field_seq(s.drop_last()) + reads(s.last().1)
    }
}

/// The rule facts the bodies of a sequence of arms read.
pub open spec fn reads_arm_seq(s: Seq<(PatternModel, ExprModel)>) -> Set<Seq<char>>
    decreases s,
{
    if s.len() == 0 {
        Set::empty()
    } else {
        reads_arm_seq(s.drop_last()) + reads(s.last().1)
    }
}


/// The facts a scope lets an expression read: the scope's rules in a rule
/// body, none elsewhere.
pub open spec fn readable(sc: ScopeModel) -> Set<Seq<char>> {
    if sc.in_rule {
        sc.rules
    } else {
        Set::empty()
    }
}

proof fn lemma_insert_ranked_reads(s: Seq<(Seq<char>, ExprModel)>, x: (Seq<char>, ExprModel), d: Seq<Seq<char>>)
    ensures
        reads_field_seq(insert_ranked(s, x, d)) == reads_field_seq(s) + reads(x.1),
    decreases s.len(),
{
    if s.len() == 0 {
        let one = seq![x];
        assert(one.drop_last() =~= s);
        assert(one.last() == x);
        assert(reads_field_seq(one) =~= reads_field_seq(s) + reads(x.1));
    } else if rank(d, x.0) < rank(d, s.last().0) {
        lemma_insert_ranked_reads(s.drop_last(), x, d);
        let t = insert_ranked(s.drop_last(), x, d).push(s.last());
        assert(t.drop_last() =~= insert_ranked(s.drop_last(), x, d));
        assert(reads_field_seq(t) =~= reads_field_seq(s) + reads(x.1));
    } else {
        assert(s.push(x).drop_last() =~= s);
    }
}

proof fn lemma_order_reads(s: Seq<(Seq<char>, ExprModel)>, n: nat, d: Seq<Seq<char>>)
    requires
        n <= s.len(),
    ensures
        reads_field_seq(order_fields(s, n, d)) == reads_field_seq(s.take(n as int)),
    decreases n,
{
    if n == 0 {
        assert(s.take(0) =~= Seq::<(Seq<char>, ExprModel)>::empty());
    } else {
        lemma_order_reads(s, (n - 1) as nat, d);
        lemma_insert_ranked_reads(order_fields(s, (n - 1) as nat, d), s[n - 1], d);
        assert(s.take(n as int).drop_last() =~= s.take(n - 1));
    }
}

/// Lowering reads only the facts its scope allows: a rule body the rules
/// in scope, a `let` value none.
pub proof fn lemma_lower_reads(e: SurfaceExpr, sc: ScopeModel, locals: Set<Seq<char>>)
    ensures
        lower_spec(e, sc, locals) matches Ok(m) ==> reads(m).subset_of(readable(sc)),
    decreases e, 1nat,
{
    match e {
        SurfaceExpr::Var(name) => {},
        SurfaceExpr::Field(base, _) => {
            lemma_lower_reads(*base, sc, locals);
        },
        SurfaceExpr::Record { fields, .. } => {
            lemma_fields_reads(e, sc, locals, fields@.len());
            if let Ok(fs) = lower_fields_spec(e, sc, locals, fields@.len()) {
                lemma_fields_len(e, sc, locals, fields@.len());
                lemma_order_reads(fs, fs.len(), field_order(sc, e->Record_config@));
                assert(fs.take(fs.len() as int) =~= fs);
            }
        },
        SurfaceExpr::Call { args, .. } => {
            lemma_args_reads(e, sc, locals, args@.len());
        },
        SurfaceExpr::Bin { lhs, rhs, .. } => {
            lemma_lower_reads(*lhs, sc, locals);
            lemma_lower_reads(*rhs, sc, locals);
        },
        SurfaceExpr::Match { scrutinee, arms } => {
            lemma_lower_reads(*scrutinee, sc, locals);
            lemma_arms_reads(e, sc, locals, arms@.len());
        },
        _ => {},
    }
}

proof fn lemma_fields_len(parent: SurfaceExpr, sc: ScopeModel, locals: Set<Seq<char>>, n: nat)
    ensures
        lower_fields_spec(parent, sc, locals, n) matches Ok(fs) ==> fs.len() == (if n <= surface_fields(parent).len() {
            n
        } else {
            0
        }),
    decreases n,
{
    if n > 0 && n <= surface_fields(parent).len() {
        lemma_fields_len(parent, sc, locals, (n - 1) as nat);
    }
}

proof fn lemma_args_reads(parent: SurfaceExpr, sc: ScopeModel, locals: Set<Seq<char>>, n: nat)
    ensures
        lower_args_spec(parent, sc, locals, n) matches Ok(xs) ==> reads_seq(xs).subset_of(readable(sc)),
    decreases parent, 0nat, n,
{
    if n > 0 && n <= surface_args(parent).len() {
        lemma_args_reads(parent, sc, locals, (n - 1) as nat);
        lemma_lower_reads(surface_args(parent)[n - 1], sc, locals);
        if let Ok(xs) = lower_args_spec(parent, sc, locals, n) {
            let prev = lower_args_spec(parent, sc, locals, (n - 1) as nat)->Ok_0;
            assert(xs.drop_last() =~= prev);
        }
    }
}

proof fn lemma_fields_reads(parent: SurfaceExpr, sc: ScopeModel, locals: Set<Seq<char>>, n: nat)
    ensures
        lower_fields_spec(parent, sc, locals, n) matches Ok(fs) ==> reads_field_seq(fs).subset_of(readable(sc)),
    decreases parent, 0nat, n,
{
    if n > 0 && n <= surface_fields(parent).len() {
        lemma_fields_reads(parent, sc, locals, (n - 1) as nat);
        lemma_lower_reads(surface_fields(parent)[n - 1].1, sc, locals);
        if let Ok(fs) = lower_fields_spec(parent, sc, locals, n) {
            let prev = lower_fields_spec(parent, sc, locals, (n - 1) as nat)->Ok_0;
            assert(fs.drop_last() =~= prev);
        }
    }
}

proof fn lemma_arms_reads(parent: SurfaceExpr, sc: ScopeModel, locals: Set<Seq<char>>, n: nat)
    ensures
        lower_arms_spec(parent, sc, locals, n) matches Ok(xs) ==> reads_arm_seq(xs).subset_of(readable(sc)),
    decreases parent, 0nat, n,
{
    if n > 0 && n <= surface_arms(parent).len() {
        lemma_arms_reads(parent, sc, locals, (n - 1) as nat);
        let arm = surface_arms(parent)[n - 1];
        if let Ok(p) = pattern_spec(arm.pattern, sc.helper_enabled) {
            lemma_lower_reads(arm.body, sc, locals + bound_names(p.binders));
        }
        if let Ok(xs) = lower_arms_spec(parent, sc, locals, n) {
            let prev = lower_arms_spec(parent, sc, locals, (n - 1) as nat)->Ok_0;
            assert(xs.drop_last() =~= prev);
        }
    }
}

} // verus!
