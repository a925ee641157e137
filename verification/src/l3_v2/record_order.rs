//! The order of a lowered record literal: its fields in the order the
//! config declares them, whatever order the source lists them in.
use vstd::multiset::Multiset;
use vstd::prelude::*;

use crate::l3_v2::expr_view::ExprModel;
use crate::l3_v2::lower::{field_order, insert_ranked, lower_spec, order_fields, rank, rank_from, ScopeModel, SurfaceExpr};

verus! {

broadcast use vstd::seq_lib::to_multiset_build, vstd::seq_lib::to_multiset_contains, vstd::seq_lib::to_multiset_remove,
    vstd::multiset::group_multiset_axioms;

/// Fields whose names never fall back in the declared order `d`.
pub open spec fn ranked(t: Seq<(Seq<char>, ExprModel)>, d: Seq<Seq<char>>) -> bool {
    forall|i: int, j: int| 0 <= i < j < t.len() ==> rank(d, (#[trigger] t[i]).0) <= rank(d, (#[trigger] t[j]).0)
}

/// No two different fields share a name.
pub open spec fn names_unique(m: Multiset<(Seq<char>, ExprModel)>) -> bool {
    forall|a: (Seq<char>, ExprModel), b: (Seq<char>, ExprModel)|
        #[trigger] m.count(a) > 0 && #[trigger] m.count(b) > 0 && a.0 == b.0 ==> a == b
}

/// Every field's name is declared in `d`.
pub open spec fn all_declared(m: Multiset<(Seq<char>, ExprModel)>, d: Seq<Seq<char>>) -> bool {
    forall|a: (Seq<char>, ExprModel)| #[trigger] m.count(a) > 0 ==> d.contains(a.0)
}

proof fn lemma_rank_from(d: Seq<Seq<char>>, n: Seq<char>, i: nat)
    ensures
        rank_from(d, n, i) <= d.len(),
        (exists|j: int| i <= j < d.len() && d[j] == n) ==> rank_from(d, n, i) < d.len() && d[rank_from(
            d,
            n,
            i,
        ) as int] == n,
    decreases d.len() - i,
{
    if i < d.len() && d[i as int] != n {
        lemma_rank_from(d, n, i + 1);
        if exists|j: int| i <= j < d.len() && d[j] == n {
            let j = choose|j: int| i <= j < d.len() && d[j] == n;
            assert(j != i);
        }
    }
}

proof fn lemma_insert_ranked_fields(s: Seq<(Seq<char>, ExprModel)>, x: (Seq<char>, ExprModel), d: Seq<Seq<char>>)
    ensures
        insert_ranked(s, x, d).to_multiset() =~= s.to_multiset().insert(x),
        ranked(s, d) ==> ranked(insert_ranked(s, x, d), d),
    decreases s.len(),
{
    if s.len() == 0 {
        assert(seq![x] =~= s.push(x));
    } else if rank(d, x.0) < rank(d, s.last().0) {
        let p = s.drop_last();
        lemma_insert_ranked_fields(p, x, d);
        let r = insert_ranked(p, x, d);
        assert(p.push(s.last()) =~= s);
        if ranked(s, d) {
            assert forall|k: int| 0 <= k < r.len() implies rank(d, (#[trigger] r[k]).0) <= rank(d, s.last().0) by {
                assert(r.to_multiset().count(r[k]) > 0);
                if r[k] != x {
                    assert(p.to_multiset().count(r[k]) > 0);
                    let i = choose|i: int| 0 <= i < p.len() && p[i] == r[k];
                    assert(s[i] == p[i]);
                    assert(rank(d, s[i].0) <= rank(d, s[s.len() - 1].0));
                }
            }
            let t = r.push(s.last());
            assert forall|i: int, j: int| 0 <= i < j < t.len() implies rank(d, (#[trigger] t[i]).0) <= rank(
                d,
                (#[trigger] t[j]).0,
            ) by {
                if j < r.len() {
                    assert(t[i] == r[i] && t[j] == r[j]);
                } else {
                    assert(t[i] == r[i]);
                }
            }
        }
    } else {
        let t = s.push(x);
        if ranked(s, d) {
            assert forall|i: int, j: int| 0 <= i < j < t.len() implies rank(d, (#[trigger] t[i]).0) <= rank(
                d,
                (#[trigger] t[j]).0,
            ) by {
                if j < s.len() {
                    assert(t[i] == s[i] && t[j] == s[j]);
                } else {
                    assert(t[i] == s[i]);
                    if i < s.len() - 1 {
                        assert(rank(d, s[i].0) <= rank(d, s[s.len() - 1].0));
                    }
                }
            }
        }
    }
}

proof fn lemma_order_fields(s: Seq<(Seq<char>, ExprModel)>, n: nat, d: Seq<Seq<char>>)
    requires
        n <= s.len(),
    ensures
        order_fields(s, n, d).to_multiset() =~= s.take(n as int).to_multiset(),
        ranked(order_fields(s, n, d), d),
    decreases n,
{
    if n == 0 {
        assert(s.take(0) =~= Seq::<(Seq<char>, ExprModel)>::empty());
    } else {
        lemma_order_fields(s, (n - 1) as nat, d);
        lemma_insert_ranked_fields(order_fields(s, (n - 1) as nat, d), s[n - 1], d);
        assert(s.take(n as int) =~= s.take(n - 1).push(s[n - 1]));
    }
}

proof fn lemma_ranked_unique(t1: Seq<(Seq<char>, ExprModel)>, t2: Seq<(Seq<char>, ExprModel)>, d: Seq<Seq<char>>)
    requires
        t1.to_multiset() =~= t2.to_multiset(),
        ranked(t1, d),
        ranked(t2, d),
        names_unique(t1.to_multiset()),
        all_declared(t1.to_multiset(), d),
    ensures
        t1 == t2,
    decreases t1.len(),
{
    vstd::seq_lib::to_multiset_len(t1);
    vstd::seq_lib::to_multiset_len(t2);
    if t1.len() == 0 {
        assert(t1 =~= t2);
    } else {
        let n = t1.len() - 1;
        let a = t1[n];
        let b = t2[n];
        assert(t1.to_multiset().count(a) > 0);
        assert(t2.to_multiset().count(b) > 0);
        let i = choose|i: int| 0 <= i < t1.len() && t1[i] == b;
        let j = choose|j: int| 0 <= j < t2.len() && t2[j] == a;
        if i < n {
            assert(rank(d, t1[i].0) <= rank(d, t1[n].0));
        }
        if j < n {
            assert(rank(d, t2[j].0) <= rank(d, t2[n].0));
        }
        lemma_rank_from(d, a.0, 0);
        lemma_rank_from(d, b.0, 0);
        assert(d.contains(a.0));
        assert(d.contains(b.0));
        let ka = choose|k: int| 0 <= k < d.len() && d[k] == a.0;
        let kb = choose|k: int| 0 <= k < d.len() && d[k] == b.0;
        assert(a.0 == b.0);
        assert(a == b);
        let p1 = t1.drop_last();
        let p2 = t2.drop_last();
        assert(p1 =~= t1.remove(n));
        assert(p2 =~= t2.remove(n));
        assert(p1.to_multiset() =~= t1.to_multiset().remove(a));
        assert(p2.to_multiset() =~= t2.to_multiset().remove(a));
        assert forall|x: (Seq<char>, ExprModel)| #[trigger] p1.to_multiset().count(x) > 0 implies t1.to_multiset().count(
            x,
        ) > 0 by {}
        assert forall|u: int, v: int| 0 <= u < v < p1.len() implies rank(d, (#[trigger] p1[u]).0) <= rank(
            d,
            (#[trigger] p1[v]).0,
        ) by {
            assert(p1[u] == t1[u] && p1[v] == t1[v]);
        }
        assert forall|u: int, v: int| 0 <= u < v < p2.len() implies rank(d, (#[trigger] p2[u]).0) <= rank(
            d,
            (#[trigger] p2[v]).0,
        ) by {
            assert(p2[u] == t2[u] && p2[v] == t2[v]);
        }
        lemma_ranked_unique(p1, p2, d);
        assert(t1 =~= p1.push(a));
        assert(t2 =~= p2.push(b));
    }
}

/// A record literal's fields come out in the order the config declares
/// them, whatever order the source lists them in: two literals whose fields
/// are the same declared fields, each named once, give the same fields in
/// the same order.
pub proof fn lemma_record_order_ignores_source_order(
    s1: Seq<(Seq<char>, ExprModel)>,
    s2: Seq<(Seq<char>, ExprModel)>,
    d: Seq<Seq<char>>,
)
    requires
        s1.to_multiset() == s2.to_multiset(),
        names_unique(s1.to_multiset()),
        all_declared(s1.to_multiset(), d),
    ensures
        order_fields(s1, s1.len(), d) == order_fields(s2, s2.len(), d),
        ranked(order_fields(s1, s1.len(), d), d),
{
    lemma_order_fields(s1, s1.len(), d);
    lemma_order_fields(s2, s2.len(), d);
    assert(s1.take(s1.len() as int) =~= s1);
    assert(s2.take(s2.len() as int) =~= s2);
    lemma_ranked_unique(order_fields(s1, s1.len(), d), order_fields(s2, s2.len(), d), d);
}

/// A lowered record literal lists its fields in the order its config
/// declares them, declared fields first.
pub proof fn lemma_lowered_record_follows_declaration(e: SurfaceExpr, sc: ScopeModel, locals: Set<Seq<char>>)
    requires
        e is Record,
    ensures
        lower_spec(e, sc, locals) matches Ok(m) ==> m matches ExprModel::Record { fields, .. } && ranked(
            fields,
            field_order(sc, e->Record_config@),
        ),
{
    if let Ok(m) = lower_spec(e, sc, locals) {
        if let Ok(fs) = crate::l3_v2::lower::lower_fields_spec(e, sc, locals, e->Record_fields@.len()) {
            lemma_order_fields(fs, fs.len(), field_order(sc, e->Record_config@));
        }
    }
}

} // verus!
