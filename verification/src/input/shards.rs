//! Combining decoded shards into one canonical snapshot: shards must be
//! disjoint, and together stay within the file, byte and input-count limits.
use vstd::prelude::*;
use crate::input::decode_error_text;
use crate::text::{decimal, owned, usize_text};

use crate::input::grammar::{DecodeFault, ShardModel};
use crate::input::{scalars_model, InputDecodeError, InputLimits, InputScalarValue, InputShard, ScalarModel};
use crate::keymap::{
    assoc_get, insert_pairs, keys_ascending, lemma_ascending_ext, lemma_get_mapped, lemma_insert_get,
    lemma_insert_mapped, KeyMap,
};

verus! {

/// A canonical input snapshot: values sorted by name, with the number of
/// bytes and shards it was combined from.
#[derive(Clone, Debug, PartialEq, Eq)]
pub struct InputSnapshot {
    values: KeyMap<InputScalarValue>,
    total_bytes: usize,
    shard_count: usize,
}

/// Model of a snapshot.
pub struct SnapshotModel {
    pub values: Seq<(Seq<char>, ScalarModel)>,
    pub total_bytes: int,
    pub shard_count: int,
}

impl View for InputSnapshot {
    type V = SnapshotModel;

    closed spec fn view(&self) -> SnapshotModel {
        SnapshotModel {
            values: scalars_model(self.values.pairs()),
            total_bytes: self.total_bytes as int,
            shard_count: self.shard_count as int,
        }
    }
}

impl InputScalarValue {
    /// A copy of this value.
    pub fn copy(&self) -> (r: InputScalarValue)
        ensures
            r@ == self@,
    {
        match self {
            InputScalarValue::Int(n) => InputScalarValue::Int(*n),
            InputScalarValue::Bool(b) => InputScalarValue::Bool(*b),
            InputScalarValue::Str(s) => InputScalarValue::Str(s.clone()),
        }
    }
}

impl InputSnapshot {
    /// The empty snapshot.
    pub fn empty() -> (s: InputSnapshot)
        ensures
            s@.values.len() == 0,
            s@.total_bytes == 0,
            s@.shard_count == 0,
    {
        InputSnapshot { values: KeyMap::new(), total_bytes: 0, shard_count: 0 }
    }

    /// The values, sorted by name.
    pub fn values(&self) -> (m: &KeyMap<InputScalarValue>)
        ensures
            scalars_model(m.pairs()) == self@.values,
    {
        &self.values
    }

    /// Number of supplied inputs.
    pub fn len(&self) -> (n: usize)
        ensures
            n == self@.values.len(),
    {
        self.values.len()
    }

    /// Whether no input is supplied.
    pub fn is_empty(&self) -> (b: bool)
        ensures
            b == (self@.values.len() == 0),
    {
        self.values.is_empty()
    }

    /// The value of input `name`, if supplied.
    pub fn get(&self, name: &str) -> (r: Option<&InputScalarValue>)
        ensures
            match r {
                Some(v) => assoc_get(self@.values, name@) == Some(v@),
                None => assoc_get(self@.values, name@) is None,
            },
    {
        proof {
            lemma_get_mapped(self.values.pairs(), name@, |v: InputScalarValue| v@);
        }
        self.values.get(name)
    }

    /// Total bytes of the shards combined.
    pub fn total_bytes(&self) -> (n: usize)
        ensures
            n == self@.total_bytes,
    {
        self.total_bytes
    }

    /// Number of shards combined.
    pub fn shard_count(&self) -> (n: usize)
        ensures
            n == self@.shard_count,
    {
        self.shard_count
    }
}

/// Why shards could not be combined.
#[derive(Clone, Debug, PartialEq, Eq)]
pub enum InputError {
    Decode(InputDecodeError),
    DuplicateAcrossShards { name: String },
    TooManyFiles { limit: usize, found: usize },
    AggregateBytesExceeded { limit: usize, found: usize },
    TotalInputCountExceeded { limit: usize, found: usize },
}

impl From<InputDecodeError> for InputError {
    fn from(err: InputDecodeError) -> (r: Self) {
        InputError::Decode(err)
    }
}

impl vstd::std_specs::convert::FromSpecImpl<InputDecodeError> for InputError {
    open spec fn obeys_from_spec() -> bool {
        true
    }

    open spec fn from_spec(err: InputDecodeError) -> Self {
        InputError::Decode(err)
    }
}

/// Model of a combination error.
pub enum InputFault {
    Decode(DecodeFault),
    DuplicateAcrossShards { name: Seq<char> },
    TooManyFiles { limit: usize, found: int },
    AggregateBytesExceeded { limit: usize, found: int },
    TotalInputCountExceeded { limit: usize, found: int },
}

impl View for InputError {
    type V = InputFault;

    open spec fn view(&self) -> InputFault {
        match self {
            InputError::Decode(e) => InputFault::Decode(e@),
            InputError::DuplicateAcrossShards { name } => InputFault::DuplicateAcrossShards { name: name@ },
            InputError::TooManyFiles { limit, found } => InputFault::TooManyFiles {
                limit: *limit,
                found: *found as int,
            },
            InputError::AggregateBytesExceeded { limit, found } => InputFault::AggregateBytesExceeded {
                limit: *limit,
                found: *found as int,
            },
            InputError::TotalInputCountExceeded { limit, found } => InputFault::TotalInputCountExceeded {
                limit: *limit,
                found: *found as int,
            },
        }
    }
}

/// Add the entries of one shard from index `j` on to `map`: a name already
/// present is refused, and the map may not outgrow the input-count limit.
pub open spec fn merge_entries(
    entries: Seq<(Seq<char>, ScalarModel)>,
    j: nat,
    map: Seq<(Seq<char>, ScalarModel)>,
    lim: InputLimits,
) -> Result<Seq<(Seq<char>, ScalarModel)>, InputFault>
    decreases entries.len() - j,
{
    if j >= entries.len() {
        Ok(map)
    } else {
        let k = entries[j as int].0;
        if assoc_get(map, k) is Some {
            Err(InputFault::DuplicateAcrossShards { name: k })
        } else {
            let m2 = insert_pairs(map, k, entries[j as int].1);
            if m2.len() > lim.max_input_count {
                Err(InputFault::TotalInputCountExceeded { limit: lim.max_input_count, found: m2.len() as int })
            } else {
                merge_entries(entries, j + 1, m2, lim)
            }
        }
    }
}

/// Combine the shards from index `i` on into the running byte total and map.
pub open spec fn merge_shards(
    shards: Seq<ShardModel>,
    i: nat,
    total: int,
    map: Seq<(Seq<char>, ScalarModel)>,
    lim: InputLimits,
) -> Result<(int, Seq<(Seq<char>, ScalarModel)>), InputFault>
    decreases shards.len() - i,
{
    if i >= shards.len() {
        Ok((total, map))
    } else {
        let t = total + shards[i as int].byte_count;
        if t > usize::MAX {
            Err(InputFault::AggregateBytesExceeded { limit: lim.max_aggregate_bytes, found: usize::MAX as int })
        } else if t > lim.max_aggregate_bytes {
            Err(InputFault::AggregateBytesExceeded { limit: lim.max_aggregate_bytes, found: t })
        } else {
            match merge_entries(shards[i as int].values, 0, map, lim) {
                Err(e) => Err(e),
                Ok(m) => merge_shards(shards, i + 1, t, m, lim),
            }
        }
    }
}

/// The snapshot a sequence of shards combines into, or why it does not.
pub open spec fn canonical_spec(shards: Seq<ShardModel>, lim: InputLimits) -> Result<SnapshotModel, InputFault> {
    if shards.len() > lim.max_files {
        Err(InputFault::TooManyFiles { limit: lim.max_files, found: shards.len() as int })
    } else {
        match merge_shards(shards, 0, 0, Seq::empty(), lim) {
            Err(e) => Err(e),
            Ok((t, m)) => Ok(SnapshotModel { values: m, total_bytes: t, shard_count: shards.len() as int }),
        }
    }
}

/// Models of a sequence of shards.
pub open spec fn shards_model(s: Seq<InputShard>) -> Seq<ShardModel> {
    s.map_values(|x: InputShard| x@)
}

/// Combine shards into a canonical snapshot, enforcing disjointness and
/// the aggregate limits.
#[verifier::loop_isolation(false)]
pub fn canonicalize_input_shards(shards: Vec<InputShard>, limits: &InputLimits) -> (r: Result<InputSnapshot, InputError>)
    ensures
        match canonical_spec(shards_model(shards@), *limits) {
            Ok(m) => r matches Ok(s) && s@ == m,
            Err(f) => r matches Err(e) && e@ == f,
        },
        r matches Ok(s) ==> s@.shard_count <= limits.max_files && s@.total_bytes <= limits.max_aggregate_bytes
            && s@.values.len() <= limits.max_input_count,
{
    let ghost sm = shards_model(shards@);
    proof {
        crate::input::bounds::lemma_snapshot_bounded(sm, *limits);
    }
    if shards.len() > limits.max_files {
        return Err(InputError::TooManyFiles { limit: limits.max_files, found: shards.len() });
    }
    let shard_count = shards.len();
    let mut total_bytes: usize = 0;
    let mut values: KeyMap<InputScalarValue> = KeyMap::new();
    proof {
        assert(scalars_model(values.pairs()) =~= Seq::<(Seq<char>, ScalarModel)>::empty());
    }
    let mut i: usize = 0;
    while i < shards.len()
        invariant
            i <= shards@.len(),
            sm == shards_model(shards@),
            sm.len() == shards@.len(),
            shards@.len() <= limits.max_files,
            merge_shards(sm, 0, 0, Seq::empty(), *limits) == merge_shards(
                sm,
                i as nat,
                total_bytes as int,
                scalars_model(values.pairs()),
                *limits,
            ),
        decreases shards@.len() - i,
    {
        let shard = &shards[i];
        assert(sm[i as int] == shard@);
        let bc = shard.byte_count();
        let ghost t0 = total_bytes;
        total_bytes = match total_bytes.checked_add(bc) {
            Some(t) => t,
            None => {
                return Err(
                    InputError::AggregateBytesExceeded {
                        limit: limits.max_aggregate_bytes,
                        found: usize::MAX,
                    },
                );
            },
        };
        if total_bytes > limits.max_aggregate_bytes {
            return Err(
                InputError::AggregateBytesExceeded {
                    limit: limits.max_aggregate_bytes,
                    found: total_bytes,
                },
            );
        }
        let entries = shard.values();
        let ghost em = scalars_model(entries.pairs());
        let ghost m0 = scalars_model(values.pairs());
        let mut j: usize = 0;
        while j < entries.len()
            invariant
                j <= entries.pairs().len(),
                em == scalars_model(entries.pairs()),
                em.len() == entries.pairs().len(),
                merge_entries(em, 0, m0, *limits) == merge_entries(
                    em,
                    j as nat,
                    scalars_model(values.pairs()),
                    *limits,
                ),
            decreases entries.pairs().len() - j,
        {
            let k = entries.key_at(j);
            let v = entries.value_at(j);
            assert(em[j as int] == (k@, v@));
            proof {
                lemma_get_mapped(values.pairs(), k@, |x: InputScalarValue| x@);
            }
            if values.contains_key(k.as_str()) {
                return Err(InputError::DuplicateAcrossShards { name: k.clone() });
            }
            let ghost before = values.pairs();
            let c = v.copy();
            proof {
                lemma_insert_mapped(before, k@, c, |x: InputScalarValue| x@);
            }
            values.insert(k.clone(), c);
            if values.len() > limits.max_input_count {
                return Err(
                    InputError::TotalInputCountExceeded {
                        limit: limits.max_input_count,
                        found: values.len(),
                    },
                );
            }
            j = j + 1;
        }
        i = i + 1;
    }
    Ok(InputSnapshot { values, total_bytes, shard_count })
}

pub(crate) proof fn lemma_merge_entries(
    entries: Seq<(Seq<char>, ScalarModel)>,
    j: nat,
    map: Seq<(Seq<char>, ScalarModel)>,
    lim: InputLimits,
)
    requires
        keys_ascending(map),
        j <= entries.len(),
    ensures
        merge_entries(entries, j, map, lim) matches Ok(m2) ==> {
            &&& keys_ascending(m2)
            &&& forall|x: Seq<char>| #[trigger] assoc_get(m2, x) == (if assoc_get(map, x) is Some {
                assoc_get(map, x)
            } else {
                assoc_get(entries.subrange(j as int, entries.len() as int), x)
            })
            &&& forall|x: Seq<char>|
                !(#[trigger] assoc_get(map, x) is Some && assoc_get(
                    entries.subrange(j as int, entries.len() as int),
                    x,
                ) is Some)
        },
    decreases entries.len() - j,
{
    let sub = entries.subrange(j as int, entries.len() as int);
    if j < entries.len() {
        let k = entries[j as int].0;
        let v = entries[j as int].1;
        if assoc_get(map, k) is None {
            let m1 = insert_pairs(map, k, v);
            lemma_insert_get(map, k, v, k);
            if m1.len() <= lim.max_input_count {
                lemma_merge_entries(entries, j + 1, m1, lim);
                let sub1 = entries.subrange(j as int + 1, entries.len() as int);
                assert(sub.drop_first() =~= sub1);
                assert(sub[0] == entries[j as int]);
                assert forall|x: Seq<char>| #[trigger] assoc_get(m1, x) == (if x == k {
                    Some(v)
                } else {
                    assoc_get(map, x)
                }) by {
                    lemma_insert_get(map, k, v, x);
                }
                assert forall|x: Seq<char>| #[trigger] assoc_get(sub, x) == (if x == k {
                    Some(v)
                } else {
                    assoc_get(sub1, x)
                }) by {}
                if let Ok(m2) = merge_entries(entries, j, map, lim) {
                    assert(merge_entries(entries, j + 1, m1, lim) == Ok::<Seq<(Seq<char>, ScalarModel)>, InputFault>(m2));
                    assert forall|x: Seq<char>| #[trigger] assoc_get(m2, x) == (if assoc_get(map, x) is Some {
                        assoc_get(map, x)
                    } else {
                        assoc_get(sub, x)
                    }) by {
                        assert(assoc_get(m1, x) == (if x == k { Some(v) } else { assoc_get(map, x) }));
                    }
                    assert forall|x: Seq<char>|
                        !(#[trigger] assoc_get(map, x) is Some && assoc_get(sub, x) is Some) by {
                        assert(assoc_get(m1, x) == (if x == k { Some(v) } else { assoc_get(map, x) }));
                    }
                }
            }
        }
    } else {
        assert(sub.len() == 0);
    }
}

/// The value the first of the shards from index `i` on holds under `x`.
pub open spec fn shards_get(shards: Seq<ShardModel>, i: nat, x: Seq<char>) -> Option<ScalarModel>
    decreases shards.len() - i,
{
    if i >= shards.len() {
        None
    } else {
        match assoc_get(shards[i as int].values, x) {
            Some(v) => Some(v),
            None => shards_get(shards, i + 1, x),
        }
    }
}

proof fn lemma_shards_get(shards: Seq<ShardModel>, i: nat, x: Seq<char>)
    ensures
        shards_get(shards, i, x) matches Some(v) ==> exists|a: int|
            i <= a < shards.len() && assoc_get(#[trigger] shards[a].values, x) == Some(v),
        (exists|a: int| i <= a < shards.len() && assoc_get(#[trigger] shards[a].values, x) is Some)
            ==> shards_get(shards, i, x) is Some,
    decreases shards.len() - i,
{
    if i < shards.len() {
        lemma_shards_get(shards, i + 1, x);
        if exists|a: int| i <= a < shards.len() && assoc_get(#[trigger] shards[a].values, x) is Some {
            let a = choose|a: int| i <= a < shards.len() && assoc_get(#[trigger] shards[a].values, x) is Some;
            if a > i {
                assert(i + 1 <= a);
            }
        }
    }
}

proof fn lemma_merge_shards(
    shards: Seq<ShardModel>,
    i: nat,
    total: int,
    map: Seq<(Seq<char>, ScalarModel)>,
    lim: InputLimits,
)
    requires
        keys_ascending(map),
        i <= shards.len(),
    ensures
        merge_shards(shards, i, total, map, lim) matches Ok((t, m)) ==> {
            &&& keys_ascending(m)
            &&& forall|x: Seq<char>| #[trigger] assoc_get(m, x) == (if assoc_get(map, x) is Some {
                assoc_get(map, x)
            } else {
                shards_get(shards, i, x)
            })
            &&& forall|x: Seq<char>, a: int|
                i <= a < shards.len() ==> !(assoc_get(map, x) is Some && #[trigger] assoc_get(
                    shards[a].values,
                    x,
                ) is Some)
            &&& forall|x: Seq<char>, a: int, b: int|
                i <= a < b < shards.len() ==> !(#[trigger] assoc_get(shards[a].values, x) is Some
                    && #[trigger] assoc_get(shards[b].values, x) is Some)
        },
    decreases shards.len() - i,
{
    if i < shards.len() {
        let t = total + shards[i as int].byte_count;
        let e = shards[i as int].values;
        lemma_merge_entries(e, 0, map, lim);
        assert(e.subrange(0, e.len() as int) =~= e);
        if t <= usize::MAX && t <= lim.max_aggregate_bytes {
            match merge_entries(e, 0, map, lim) {
                Err(_) => {},
                Ok(m1) => {
                    lemma_merge_shards(shards, i + 1, t, m1, lim);
                    if merge_shards(shards, i, total, map, lim) is Ok {
                        assert forall|x: Seq<char>, a: int|
                            i <= a < shards.len() implies !(assoc_get(map, x) is Some && #[trigger] assoc_get(
                                shards[a].values,
                                x,
                            ) is Some) by {
                            if a > i && assoc_get(map, x) is Some {
                                assert(assoc_get(m1, x) is Some);
                            }
                        }
                        assert forall|x: Seq<char>, a: int, b: int|
                            i <= a < b < shards.len() implies !(#[trigger] assoc_get(shards[a].values, x) is Some
                                && #[trigger] assoc_get(shards[b].values, x) is Some) by {
                            if a == i && assoc_get(shards[a].values, x) is Some {
                                assert(assoc_get(m1, x) is Some);
                            }
                        }
                    }
                },
            }
        }
    }
}

/// What a successful combination holds: no input name is supplied by two
/// shards, every supplied value is in the snapshot under its name, and
/// every value in the snapshot comes from a shard.
pub proof fn lemma_canonical_union(shards: Seq<ShardModel>, lim: InputLimits)
    ensures
        canonical_spec(shards, lim) matches Ok(snap) ==> {
            &&& keys_ascending(snap.values)
            &&& forall|x: Seq<char>, a: int, b: int|
                0 <= a < b < shards.len() ==> !(#[trigger] assoc_get(shards[a].values, x) is Some
                    && #[trigger] assoc_get(shards[b].values, x) is Some)
            &&& forall|x: Seq<char>, a: int|
                0 <= a < shards.len() && #[trigger] assoc_get(shards[a].values, x) is Some
                    ==> assoc_get(snap.values, x) == assoc_get(shards[a].values, x)
            &&& forall|x: Seq<char>|
                #[trigger] assoc_get(snap.values, x) is Some ==> exists|a: int|
                    0 <= a < shards.len() && assoc_get(#[trigger] shards[a].values, x) == assoc_get(
                        snap.values,
                        x,
                    )
        },
{
    if shards.len() <= lim.max_files {
        let e: Seq<(Seq<char>, ScalarModel)> = Seq::empty();
        lemma_merge_shards(shards, 0, 0, e, lim);
        if let Ok((t, m)) = merge_shards(shards, 0, 0, e, lim) {
            assert forall|x: Seq<char>, a: int|
                0 <= a < shards.len() && #[trigger] assoc_get(shards[a].values, x) is Some
                    implies assoc_get(m, x) == assoc_get(shards[a].values, x) by {
                lemma_shards_get(shards, 0, x);
                let v = shards_get(shards, 0, x)->0;
                let b = choose|b: int| 0 <= b < shards.len() && assoc_get(#[trigger] shards[b].values, x) == Some(v);
                if b != a {
                    if a < b {
                        assert(!(assoc_get(shards[a].values, x) is Some && assoc_get(shards[b].values, x) is Some));
                    } else {
                        assert(!(assoc_get(shards[b].values, x) is Some && assoc_get(shards[a].values, x) is Some));
                    }
                }
            }
            assert forall|x: Seq<char>| #[trigger] assoc_get(m, x) is Some implies exists|a: int|
                0 <= a < shards.len() && assoc_get(#[trigger] shards[a].values, x) == assoc_get(m, x) by {
                lemma_shards_get(shards, 0, x);
            }
        }
    }
}

/// The order of the shards does not matter: any two orders of the same
/// shards that both combine give the same values, in the same order.
pub proof fn lemma_canonical_order_free(s1: Seq<ShardModel>, s2: Seq<ShardModel>, lim: InputLimits)
    requires
        s1.to_multiset() == s2.to_multiset(),
        canonical_spec(s1, lim) is Ok,
        canonical_spec(s2, lim) is Ok,
    ensures
        canonical_spec(s1, lim)->Ok_0.values == canonical_spec(s2, lim)->Ok_0.values,
{
    broadcast use vstd::seq_lib::to_multiset_contains;
    lemma_canonical_union(s1, lim);
    lemma_canonical_union(s2, lim);
    let m1 = canonical_spec(s1, lim)->Ok_0.values;
    let m2 = canonical_spec(s2, lim)->Ok_0.values;
    assert forall|x: Seq<char>| #[trigger] assoc_get(m1, x) == assoc_get(m2, x) by {
        if assoc_get(m1, x) is Some {
            let a = choose|a: int| 0 <= a < s1.len() && assoc_get(#[trigger] s1[a].values, x) == assoc_get(m1, x);
            assert(s1.contains(s1[a]));
            assert(s1.to_multiset().count(s1[a]) > 0);
            assert(s2.contains(s1[a]));
            let b = choose|b: int| 0 <= b < s2.len() && s2[b] == s1[a];
            assert(assoc_get(s2[b].values, x) is Some);
        } else if assoc_get(m2, x) is Some {
            let b = choose|b: int| 0 <= b < s2.len() && assoc_get(#[trigger] s2[b].values, x) == assoc_get(m2, x);
            assert(s2.contains(s2[b]));
            assert(s2.to_multiset().count(s2[b]) > 0);
            assert(s1.contains(s2[b]));
            let a = choose|a: int| 0 <= a < s1.len() && s1[a] == s2[b];
            assert(assoc_get(s1[a].values, x) is Some);
        }
    }
    lemma_ascending_ext(m1, m2);
}

/// The diagnostic text of a combination error.
pub open spec fn input_error_text(e: InputError) -> Seq<char> {
    match e {
        InputError::Decode(e) => "decode error: "@ + decode_error_text(e),
        InputError::DuplicateAcrossShards { name } => "duplicate input '"@ + name@ + "' supplied across multiple disjoint shards"@,
        InputError::TooManyFiles { limit, found } => "number of input files ("@ + decimal(found as nat) + ") exceeds limit ("@ + decimal(limit as nat) + ")"@,
        InputError::AggregateBytesExceeded { limit, found } => "aggregate input size ("@ + decimal(found as nat) + " bytes) exceeds limit ("@ + decimal(limit as nat) + " bytes)"@,
        InputError::TotalInputCountExceeded { limit, found } => "total input count ("@ + decimal(found as nat) + ") exceeds limit ("@ + decimal(limit as nat) + ")"@,
    }
}

impl InputError {
    /// The diagnostic text of a combination error.
    pub fn to_display_string(&self) -> (s: String)
        ensures
            s@ == input_error_text(*self),
    {
        match self {
            InputError::Decode(e) => {
                let mut s = owned("decode error: ");
                let t0 = e.to_display_string();
                s.append(t0.as_str());
                s
            },
            InputError::DuplicateAcrossShards { name } => {
                let mut s = owned("duplicate input '");
                s.append(name.as_str());
                s.append("' supplied across multiple disjoint shards");
                s
            },
            InputError::TooManyFiles { limit, found } => {
                let mut s = owned("number of input files (");
                let t0 = usize_text(*found);
                s.append(t0.as_str());
                s.append(") exceeds limit (");
                let t2 = usize_text(*limit);
                s.append(t2.as_str());
                s.append(")");
                s
            },
            InputError::AggregateBytesExceeded { limit, found } => {
                let mut s = owned("aggregate input size (");
                let t0 = usize_text(*found);
                s.append(t0.as_str());
                s.append(" bytes) exceeds limit (");
                let t2 = usize_text(*limit);
                s.append(t2.as_str());
                s.append(" bytes)");
                s
            },
            InputError::TotalInputCountExceeded { limit, found } => {
                let mut s = owned("total input count (");
                let t0 = usize_text(*found);
                s.append(t0.as_str());
                s.append(") exceeds limit (");
                let t2 = usize_text(*limit);
                s.append(t2.as_str());
                s.append(")");
                s
            },
        }
    }
}

} // verus!
