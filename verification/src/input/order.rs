//! Why the order of shards never matters: whether shards combine depends
//! only on how many there are, their byte total, their entry total and
//! whether two of them share a name, and each of these is the same in every
//! order.
use vstd::prelude::*;

use crate::input::grammar::ShardModel;
use crate::input::shards::{
    canonical_spec, lemma_canonical_order_free, lemma_merge_entries, merge_entries, merge_shards,
};
use crate::input::shards::shards_model;
use crate::input::{lemma_input_shard_valid, InputLimits, InputShard, ScalarModel};
use crate::keymap::{
    assoc_get, insert_pairs, keys_ascending, lemma_ascending_get, lemma_assoc_index, lemma_insert_get,
    lemma_key_lt_facts,
};

verus! {

/// A shard as decoding makes one: names ascending, a byte count.
pub open spec fn shard_valid(s: ShardModel) -> bool {
    keys_ascending(s.values) && s.byte_count >= 0
}

/// Shard `s` supplies a value named `x`.
pub open spec fn supplies(s: ShardModel, x: Seq<char>) -> bool {
    assoc_get(s.values, x) is Some
}

/// The bytes of all shards.
pub open spec fn bytes_total(s: Seq<ShardModel>) -> int
    decreases s.len(),
{
    if s.len() == 0 {
        0
    } else {
        s[0].byte_count + bytes_total(s.drop_first())
    }
}

/// The entries of all shards.
pub open spec fn entries_total(s: Seq<ShardModel>) -> int
    decreases s.len(),
{
    if s.len() == 0 {
        0
    } else {
        s[0].values.len() + entries_total(s.drop_first())
    }
}

/// No two shards supply the same name.
pub open spec fn pairwise_disjoint(s: Seq<ShardModel>) -> bool {
    forall|a: int, b: int, x: Seq<char>|
        0 <= a < b < s.len() ==> !(#[trigger] supplies(s[a], x) && #[trigger] supplies(s[b], x))
}

/// Shard `y` shares no name with any of `t`.
pub open spec fn apart(y: ShardModel, t: Seq<ShardModel>) -> bool {
    forall|j: int, x: Seq<char>| 0 <= j < t.len() ==> !(#[trigger] supplies(y, x) && #[trigger] supplies(t[j], x))
}

/// When shards combine: few enough of them, few enough bytes and entries,
/// and no name supplied twice.
pub open spec fn combinable(s: Seq<ShardModel>, lim: InputLimits) -> bool {
    &&& s.len() <= lim.max_files
    &&& bytes_total(s) <= usize::MAX
    &&& bytes_total(s) <= lim.max_aggregate_bytes
    &&& entries_total(s) <= lim.max_input_count
    &&& pairwise_disjoint(s)
}

proof fn lemma_totals_nonneg(s: Seq<ShardModel>)
    requires
        forall|i: int| 0 <= i < s.len() ==> shard_valid(#[trigger] s[i]),
    ensures
        bytes_total(s) >= 0,
        entries_total(s) >= 0,
    decreases s.len(),
{
    if s.len() > 0 {
        assert forall|i: int| 0 <= i < s.drop_first().len() implies shard_valid(#[trigger] s.drop_first()[i]) by {
            assert(s.drop_first()[i] == s[i + 1]);
        }
        assert(shard_valid(s[0]));
        lemma_totals_nonneg(s.drop_first());
    }
}

proof fn lemma_merge_entries_ok(
    entries: Seq<(Seq<char>, ScalarModel)>,
    j: nat,
    map: Seq<(Seq<char>, ScalarModel)>,
    lim: InputLimits,
)
    requires
        keys_ascending(map),
        keys_ascending(entries),
        j <= entries.len(),
        map.len() <= lim.max_input_count,
    ensures
        merge_entries(entries, j, map, lim) is Ok <==> ((forall|k: int|
            j <= k < entries.len() ==> assoc_get(map, (#[trigger] entries[k]).0) is None) && map.len() + (
        entries.len() - j) <= lim.max_input_count),
        merge_entries(entries, j, map, lim) matches Ok(m) ==> m.len() == map.len() + (entries.len() - j),
    decreases entries.len() - j,
{
    if j < entries.len() {
        let k = entries[j as int].0;
        let v = entries[j as int].1;
        if assoc_get(map, k) is None {
            lemma_assoc_index(map, k);
            let m2 = insert_pairs(map, k, v);
            crate::keymap::lemma_insert_point_facts(map, k);
            let ip = crate::keymap::insert_point(map, k);
            if ip < map.len() {
                assert(map[ip].0 != k);
            }
            assert(m2.len() == map.len() + 1);
            assert forall|y: Seq<char>| #[trigger] assoc_get(m2, y) == (if y == k {
                Some(v)
            } else {
                assoc_get(map, y)
            }) by {
                lemma_insert_get(map, k, v, y);
            }
            lemma_insert_get(map, k, v, k);
            if m2.len() <= lim.max_input_count {
                lemma_merge_entries_ok(entries, j + 1, m2, lim);
                assert forall|q: int| j + 1 <= q < entries.len() implies (#[trigger] entries[q]).0 != k by {
                    lemma_key_lt_facts(k, entries[q].0, k);
                    assert(crate::keymap::key_lt(entries[j as int].0, entries[q].0));
                }
            }
        }
    }
}

/// Shards whose names stay clear of `map`'s.
pub open spec fn clear_of(map: Seq<(Seq<char>, ScalarModel)>, t: Seq<ShardModel>) -> bool {
    forall|j: int, x: Seq<char>| 0 <= j < t.len() ==> !(assoc_get(map, x) is Some && #[trigger] supplies(t[j], x))
}

proof fn lemma_disjoint_split(t: Seq<ShardModel>)
    requires
        t.len() > 0,
    ensures
        pairwise_disjoint(t) <==> (pairwise_disjoint(t.drop_first()) && apart(t[0], t.drop_first())),
{
    let r = t.drop_first();
    if pairwise_disjoint(t) {
        assert forall|a: int, b: int, x: Seq<char>| 0 <= a < b < r.len() implies !(#[trigger] supplies(r[a], x)
            && #[trigger] supplies(r[b], x)) by {
            assert(r[a] == t[a + 1] && r[b] == t[b + 1]);
            assert(!(supplies(t[a + 1], x) && supplies(t[b + 1], x)));
        }
        assert forall|j: int, x: Seq<char>| 0 <= j < r.len() implies !(#[trigger] supplies(t[0], x)
            && #[trigger] supplies(r[j], x)) by {
            assert(r[j] == t[j + 1]);
            assert(!(supplies(t[0], x) && supplies(t[j + 1], x)));
        }
    }
    if pairwise_disjoint(r) && apart(t[0], r) {
        assert forall|a: int, b: int, x: Seq<char>| 0 <= a < b < t.len() implies !(#[trigger] supplies(t[a], x)
            && #[trigger] supplies(t[b], x)) by {
            assert(t[b] == r[b - 1]);
            if a == 0 {
                assert(!(supplies(t[0], x) && supplies(r[b - 1], x)));
            } else {
                assert(t[a] == r[a - 1]);
                assert(!(supplies(r[a - 1], x) && supplies(r[b - 1], x)));
            }
        }
    }
}

proof fn lemma_merge_shards_ok(
    s: Seq<ShardModel>,
    i: nat,
    total: int,
    map: Seq<(Seq<char>, ScalarModel)>,
    lim: InputLimits,
)
    requires
        i <= s.len(),
        forall|a: int| 0 <= a < s.len() ==> shard_valid(#[trigger] s[a]),
        keys_ascending(map),
        map.len() <= lim.max_input_count,
        0 <= total <= usize::MAX,
        total <= lim.max_aggregate_bytes,
    ensures
        ({
            let rest = s.subrange(i as int, s.len() as int);
            &&& merge_shards(s, i, total, map, lim) is Ok <==> {
                &&& total + bytes_total(rest) <= usize::MAX
                &&& total + bytes_total(rest) <= lim.max_aggregate_bytes
                &&& map.len() + entries_total(rest) <= lim.max_input_count
                &&& pairwise_disjoint(rest)
                &&& clear_of(map, rest)
            }
            &&& merge_shards(s, i, total, map, lim) matches Ok((t, m)) ==> t == total + bytes_total(rest)
        }),
    decreases s.len() - i,
{
    let rest = s.subrange(i as int, s.len() as int);
    if i < s.len() {
        let rest1 = s.subrange(i as int + 1, s.len() as int);
        assert(rest.drop_first() =~= rest1);
        assert(rest[0] == s[i as int]);
        assert forall|a: int| 0 <= a < rest1.len() implies shard_valid(#[trigger] rest1[a]) by {
            assert(rest1[a] == s[a + i + 1]);
        }
        lemma_totals_nonneg(rest1);
        lemma_disjoint_split(rest);
        let sh = s[i as int];
        assert(shard_valid(sh));
        let t = total + sh.byte_count;
        if t <= usize::MAX && t <= lim.max_aggregate_bytes {
            let e = sh.values;
            lemma_merge_entries_ok(e, 0, map, lim);
            lemma_merge_entries(e, 0, map, lim);
            assert(e.subrange(0, e.len() as int) =~= e);
            match merge_entries(e, 0, map, lim) {
                Err(_) => {
                    if !(forall|k: int| 0 <= k < e.len() ==> assoc_get(map, (#[trigger] e[k]).0) is None) {
                        let k = choose|k: int| 0 <= k < e.len() && !(assoc_get(map, (#[trigger] e[k]).0) is None);
                        lemma_ascending_get(e, e[k].0);
                        assert(assoc_get(e, e[k].0) == Some(e[k].1));
                        assert(supplies(rest[0], e[k].0));
                    }
                },
                Ok(m1) => {
                    lemma_merge_shards_ok(s, i + 1, t, m1, lim);
                    assert forall|x: Seq<char>| #[trigger] assoc_get(m1, x) is Some <==> (assoc_get(map, x) is Some
                        || supplies(sh, x)) by {}
                    assert forall|x: Seq<char>| supplies(sh, x) implies assoc_get(map, x) is None by {
                        lemma_assoc_index(e, x);
                        let k = crate::keymap::assoc_index(e, x)->0;
                        assert(e[k].0 == x);
                    }
                    if clear_of(map, rest) && pairwise_disjoint(rest) {
                        assert forall|j: int, x: Seq<char>| 0 <= j < rest1.len() implies !(assoc_get(m1, x) is Some
                            && #[trigger] supplies(rest1[j], x)) by {
                            assert(rest1[j] == rest[j + 1]);
                            assert(!(assoc_get(map, x) is Some && supplies(rest[j + 1], x)));
                            assert(!(supplies(rest[0], x) && supplies(rest1[j], x)));
                        }
                    }
                    if clear_of(m1, rest1) && pairwise_disjoint(rest1) {
                        assert forall|j: int, x: Seq<char>| 0 <= j < rest1.len() implies !(#[trigger] supplies(
                            rest[0],
                            x,
                        ) && #[trigger] supplies(rest1[j], x)) by {
                            assert(!(assoc_get(m1, x) is Some && supplies(rest1[j], x)));
                        }
                        assert forall|j: int, x: Seq<char>| 0 <= j < rest.len() implies !(assoc_get(map, x) is Some
                            && #[trigger] supplies(rest[j], x)) by {
                            if j > 0 {
                                assert(rest[j] == rest1[j - 1]);
                                assert(!(assoc_get(m1, x) is Some && supplies(rest1[j - 1], x)));
                            }
                        }
                    }
                },
            }
        }
    } else {
        assert(rest.len() == 0);
    }
}

/// Shards combine exactly when they are combinable, and then the snapshot
/// counts their bytes and the shards themselves.
pub proof fn lemma_combines_exactly_when(s: Seq<ShardModel>, lim: InputLimits)
    requires
        forall|i: int| 0 <= i < s.len() ==> shard_valid(#[trigger] s[i]),
    ensures
        canonical_spec(s, lim) is Ok <==> combinable(s, lim),
        canonical_spec(s, lim) matches Ok(m) ==> m.total_bytes == bytes_total(s) && m.shard_count == s.len(),
{
    let e: Seq<(Seq<char>, ScalarModel)> = Seq::empty();
    lemma_merge_shards_ok(s, 0, 0, e, lim);
    assert(s.subrange(0, s.len() as int) =~= s);
}

proof fn lemma_remove_totals(s: Seq<ShardModel>, k: int)
    requires
        0 <= k < s.len(),
    ensures
        bytes_total(s) == s[k].byte_count + bytes_total(s.remove(k)),
        entries_total(s) == s[k].values.len() + entries_total(s.remove(k)),
    decreases k,
{
    if k == 0 {
        assert(s.remove(0) =~= s.drop_first());
    } else {
        lemma_remove_totals(s.drop_first(), k - 1);
        assert(s.remove(k).drop_first() =~= s.drop_first().remove(k - 1));
        assert(s.remove(k)[0] == s[0]);
    }
}

proof fn lemma_remove_disjoint(s: Seq<ShardModel>, k: int)
    requires
        0 <= k < s.len(),
    ensures
        pairwise_disjoint(s) <==> (pairwise_disjoint(s.remove(k)) && apart(s[k], s.remove(k))),
{
    let t = s.remove(k);
    assert forall|j: int| 0 <= j < t.len() implies #[trigger] t[j] == (if j < k {
        s[j]
    } else {
        s[j + 1]
    }) by {}
    if pairwise_disjoint(s) {
        assert forall|a: int, b: int, x: Seq<char>| 0 <= a < b < t.len() implies !(#[trigger] supplies(t[a], x)
            && #[trigger] supplies(t[b], x)) by {
            let a1 = if a < k { a } else { a + 1 };
            let b1 = if b < k { b } else { b + 1 };
            assert(!(supplies(s[a1], x) && supplies(s[b1], x)));
        }
        assert forall|j: int, x: Seq<char>| 0 <= j < t.len() implies !(#[trigger] supplies(s[k], x)
            && #[trigger] supplies(t[j], x)) by {
            let j1 = if j < k { j } else { j + 1 };
            if j1 < k {
                assert(!(supplies(s[j1], x) && supplies(s[k], x)));
            } else {
                assert(!(supplies(s[k], x) && supplies(s[j1], x)));
            }
        }
    }
    if pairwise_disjoint(t) && apart(s[k], t) {
        assert forall|a: int, b: int, x: Seq<char>| 0 <= a < b < s.len() implies !(#[trigger] supplies(s[a], x)
            && #[trigger] supplies(s[b], x)) by {
            if a == k {
                assert(!(supplies(s[k], x) && supplies(t[b - 1], x)));
            } else if b == k {
                assert(!(supplies(s[k], x) && supplies(t[a], x)));
            } else {
                let a1 = if a < k { a } else { a - 1 };
                let b1 = if b < k { b } else { b - 1 };
                assert(!(supplies(t[a1], x) && supplies(t[b1], x)));
            }
        }
    }
}

proof fn lemma_apart_perm(y: ShardModel, t1: Seq<ShardModel>, t2: Seq<ShardModel>)
    requires
        t1.to_multiset() == t2.to_multiset(),
        apart(y, t1),
    ensures
        apart(y, t2),
{
    broadcast use vstd::seq_lib::to_multiset_contains;
    assert forall|j: int, x: Seq<char>| 0 <= j < t2.len() implies !(#[trigger] supplies(y, x) && #[trigger] supplies(
        t2[j],
        x,
    )) by {
        assert(t2.contains(t2[j]));
        assert(t2.to_multiset().count(t2[j]) > 0);
        assert(t1.contains(t2[j]));
        let i = choose|i: int| 0 <= i < t1.len() && t1[i] == t2[j];
        assert(!(supplies(y, x) && supplies(t1[i], x)));
    }
}

proof fn lemma_perm_totals(s1: Seq<ShardModel>, s2: Seq<ShardModel>)
    requires
        s1.to_multiset() == s2.to_multiset(),
    ensures
        s1.len() == s2.len(),
        bytes_total(s1) == bytes_total(s2),
        entries_total(s1) == entries_total(s2),
        pairwise_disjoint(s1) <==> pairwise_disjoint(s2),
    decreases s1.len(),
{
    broadcast use vstd::seq_lib::to_multiset_contains, vstd::seq_lib::to_multiset_len, vstd::seq_lib::to_multiset_remove;
    if s1.len() == 0 {
        assert(s1.to_multiset().len() == s1.len());
        assert(s2.to_multiset().len() == s2.len());
        assert(s1 =~= s2);
    } else {
        let y = s1[0];
        assert(s1.contains(y));
        assert(s1.to_multiset().count(y) > 0);
        assert(s2.contains(y));
        let k = choose|k: int| 0 <= k < s2.len() && s2[k] == y;
        let t1 = s1.remove(0);
        let t2 = s2.remove(k);
        assert(t1.to_multiset() == s1.to_multiset().remove(y));
        assert(t2.to_multiset() == s2.to_multiset().remove(y));
        lemma_perm_totals(t1, t2);
        lemma_remove_totals(s1, 0);
        lemma_remove_totals(s2, k);
        lemma_remove_disjoint(s1, 0);
        lemma_remove_disjoint(s2, k);
        if apart(y, t1) {
            lemma_apart_perm(y, t1, t2);
        }
        if apart(y, t2) {
            lemma_apart_perm(y, t2, t1);
        }
    }
}

/// The order of the shards never matters: any reordering of the same
/// shards combines exactly when the given order does, and into the same
/// snapshot: the same values in the same order, byte total and shard count.
pub proof fn lemma_shard_order_never_matters(s1: Seq<ShardModel>, s2: Seq<ShardModel>, lim: InputLimits)
    requires
        s1.to_multiset() == s2.to_multiset(),
        forall|i: int| 0 <= i < s1.len() ==> shard_valid(#[trigger] s1[i]),
    ensures
        canonical_spec(s1, lim) is Ok <==> canonical_spec(s2, lim) is Ok,
        canonical_spec(s1, lim) is Ok ==> canonical_spec(s1, lim) == canonical_spec(s2, lim),
{
    broadcast use vstd::seq_lib::to_multiset_contains;
    lemma_perm_totals(s1, s2);
    assert forall|j: int| 0 <= j < s2.len() implies shard_valid(#[trigger] s2[j]) by {
        assert(s2.contains(s2[j]));
        assert(s2.to_multiset().count(s2[j]) > 0);
        assert(s1.contains(s2[j]));
    }
    lemma_combines_exactly_when(s1, lim);
    lemma_combines_exactly_when(s2, lim);
    if canonical_spec(s1, lim) is Ok {
        lemma_canonical_order_free(s1, s2, lim);
    }
}

proof fn lemma_models_permuted(v1: Seq<InputShard>, v2: Seq<InputShard>)
    requires
        v1.to_multiset() == v2.to_multiset(),
    ensures
        shards_model(v1).to_multiset() == shards_model(v2).to_multiset(),
    decreases v1.len(),
{
    broadcast use vstd::seq_lib::to_multiset_contains, vstd::seq_lib::to_multiset_len, vstd::seq_lib::to_multiset_remove,
        vstd::multiset::group_multiset_axioms;
    let m1 = shards_model(v1);
    let m2 = shards_model(v2);
    if v1.len() == 0 {
        assert(v1.to_multiset().len() == v1.len());
        assert(v2.to_multiset().len() == v2.len());
        assert(m1 =~= m2);
    } else {
        let y = v1[0];
        assert(v1.to_multiset().count(y) > 0);
        assert(v2.contains(y));
        let k = choose|k: int| 0 <= k < v2.len() && v2[k] == y;
        let t1 = v1.remove(0);
        let t2 = v2.remove(k);
        assert(t1.to_multiset() == v1.to_multiset().remove(y));
        assert(t2.to_multiset() == v2.to_multiset().remove(y));
        lemma_models_permuted(t1, t2);
        assert(shards_model(t1) =~= m1.remove(0));
        assert(shards_model(t2) =~= m2.remove(k));
        assert(m1.remove(0).to_multiset() == m1.to_multiset().remove(m1[0]));
        assert(m2.remove(k).to_multiset() == m2.to_multiset().remove(m2[k]));
        assert(m1[0] == m2[k]);
        assert(m1.to_multiset().count(m1[0]) > 0);
        assert(m2.to_multiset().count(m2[k]) > 0);
        let a = m1[0];
        let ms1 = m1.to_multiset();
        let ms2 = m2.to_multiset();
        assert(ms1.remove(a) == ms2.remove(a));
        assert forall|x| #[trigger] ms1.count(x) == ms2.count(x) by {
            assert(ms1.remove(a).count(x) == ms2.remove(a).count(x));
        }
        assert(ms1 =~= ms2);
    }
}

/// The order of the shards never matters: any reordering of the same
/// shards combines exactly when the given order does, and into the same
/// snapshot: the same values in the same order, byte total and shard count.
pub proof fn lemma_input_shard_order_never_matters(v1: Seq<InputShard>, v2: Seq<InputShard>, lim: InputLimits)
    requires
        v1.to_multiset() == v2.to_multiset(),
    ensures
        canonical_spec(shards_model(v1), lim) is Ok <==> canonical_spec(shards_model(v2), lim) is Ok,
        canonical_spec(shards_model(v1), lim) is Ok ==> canonical_spec(shards_model(v1), lim) == canonical_spec(
            shards_model(v2),
            lim,
        ),
{
    lemma_models_permuted(v1, v2);
    let m1 = shards_model(v1);
    assert forall|i: int| 0 <= i < m1.len() implies shard_valid(#[trigger] m1[i]) by {
        lemma_input_shard_valid(v1[i]);
    }
    lemma_shard_order_never_matters(m1, shards_model(v2), lim);
}

} // verus!
