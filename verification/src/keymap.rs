//! Ordered string-keyed maps.
//!
//! Keys are kept strictly ascending in the byte order of their UTF-8
//! encoding, which is the order in which the standard ordered map walks
//! `String` keys. Lookups therefore agree with an ordered map, and a walk over
//! the entries visits keys in ascending order.
use vstd::prelude::*;
use vstd::utf8::*;

verus! {

/// Lexicographic order on byte strings (a proper prefix comes first).
pub open spec fn bytes_lt(a: Seq<u8>, b: Seq<u8>) -> bool
    decreases a.len(),
{
    if a.len() == 0 {
        b.len() > 0
    } else if b.len() == 0 {
        false
    } else if a[0] < b[0] {
        true
    } else if a[0] > b[0] {
        false
    } else {
        bytes_lt(a.drop_first(), b.drop_first())
    }
}

/// Order on keys: the byte order of their UTF-8 encodings.
pub open spec fn key_lt(a: Seq<char>, b: Seq<char>) -> bool {
    bytes_lt(encode_utf8(a), encode_utf8(b))
}

pub proof fn lemma_bytes_lt_irreflexive(a: Seq<u8>)
    ensures
        !bytes_lt(a, a),
    decreases a.len(),
{
    if a.len() > 0 {
        lemma_bytes_lt_irreflexive(a.drop_first());
    }
}

pub proof fn lemma_bytes_lt_asymmetric(a: Seq<u8>, b: Seq<u8>)
    ensures
        bytes_lt(a, b) ==> !bytes_lt(b, a),
    decreases a.len(),
{
    if a.len() > 0 && b.len() > 0 && a[0] == b[0] {
        lemma_bytes_lt_asymmetric(a.drop_first(), b.drop_first());
    }
}

pub proof fn lemma_bytes_lt_transitive(a: Seq<u8>, b: Seq<u8>, c: Seq<u8>)
    requires
        bytes_lt(a, b),
        bytes_lt(b, c),
    ensures
        bytes_lt(a, c),
    decreases a.len(),
{
    if a.len() > 0 && b.len() > 0 && c.len() > 0 && a[0] == b[0] && b[0] == c[0] {
        lemma_bytes_lt_transitive(a.drop_first(), b.drop_first(), c.drop_first());
    }
}

pub proof fn lemma_bytes_lt_total(a: Seq<u8>, b: Seq<u8>)
    ensures
        a == b || bytes_lt(a, b) || bytes_lt(b, a),
    decreases a.len(),
{
    if a.len() > 0 && b.len() > 0 && a[0] == b[0] {
        lemma_bytes_lt_total(a.drop_first(), b.drop_first());
        if a.drop_first() == b.drop_first() {
            assert(a =~= seq![a[0]] + a.drop_first());
            assert(b =~= seq![b[0]] + b.drop_first());
        }
    } else if a.len() == 0 && b.len() == 0 {
        assert(a =~= b);
    }
}

pub proof fn lemma_key_lt_facts(a: Seq<char>, b: Seq<char>, c: Seq<char>)
    ensures
        !key_lt(a, a),
        key_lt(a, b) ==> !key_lt(b, a),
        key_lt(a, b) && key_lt(b, c) ==> key_lt(a, c),
        a == b || key_lt(a, b) || key_lt(b, a),
{
    lemma_bytes_lt_irreflexive(encode_utf8(a));
    lemma_bytes_lt_asymmetric(encode_utf8(a), encode_utf8(b));
    if key_lt(a, b) && key_lt(b, c) {
        lemma_bytes_lt_transitive(encode_utf8(a), encode_utf8(b), encode_utf8(c));
    }
    lemma_bytes_lt_total(encode_utf8(a), encode_utf8(b));
    if encode_utf8(a) == encode_utf8(b) {
        encode_utf8_decode_utf8(a);
        encode_utf8_decode_utf8(b);
    }
}

/// Three-way outcome of comparing two keys.
#[derive(PartialEq, Eq, Structural, Clone, Copy, Debug)]
pub enum KeyOrder {
    Before,
    Same,
    After,
}

/// Compare two byte strings lexicographically.
pub fn order_bytes(a: &[u8], b: &[u8]) -> (r: KeyOrder)
    ensures
        r == KeyOrder::Before <==> bytes_lt(a@, b@),
        r == KeyOrder::Same <==> a@ == b@,
        r == KeyOrder::After <==> bytes_lt(b@, a@),
{
    let mut i: usize = 0;
    proof {
        assert(a@.skip(0) =~= a@);
        assert(b@.skip(0) =~= b@);
    }
    while i < a.len() && i < b.len()
        invariant
            i <= a@.len(),
            i <= b@.len(),
            a@.take(i as int) =~= b@.take(i as int),
            bytes_lt(a@, b@) == bytes_lt(a@.skip(i as int), b@.skip(i as int)),
            bytes_lt(b@, a@) == bytes_lt(b@.skip(i as int), a@.skip(i as int)),
        decreases a@.len() - i,
    {
        if a[i] < b[i] {
            proof {
                lemma_bytes_lt_asymmetric(a@, b@);
                assert(a@.skip(i as int)[0] == a@[i as int]);
                assert(b@.skip(i as int)[0] == b@[i as int]);
            }
            return KeyOrder::Before;
        }
        if a[i] > b[i] {
            proof {
                lemma_bytes_lt_asymmetric(b@, a@);
                assert(a@.skip(i as int)[0] == a@[i as int]);
                assert(b@.skip(i as int)[0] == b@[i as int]);
            }
            return KeyOrder::After;
        }
        proof {
            assert(a@.skip(i as int).drop_first() =~= a@.skip(i + 1));
            assert(b@.skip(i as int).drop_first() =~= b@.skip(i + 1));
            assert(a@.skip(i as int)[0] == a@[i as int]);
            assert(b@.skip(i as int)[0] == b@[i as int]);
            assert(a@.take(i + 1) =~= a@.take(i as int).push(a@[i as int]));
            assert(b@.take(i + 1) =~= b@.take(i as int).push(b@[i as int]));
        }
        i = i + 1;
    }
    if a.len() == b.len() {
        proof {
            assert(a@ =~= a@.take(i as int));
            assert(b@ =~= b@.take(i as int));
            lemma_bytes_lt_irreflexive(a@);
        }
        KeyOrder::Same
    } else if a.len() < b.len() {
        proof {
            assert(a@.skip(i as int).len() == 0);
        }
        KeyOrder::Before
    } else {
        proof {
            assert(b@.skip(i as int).len() == 0);
        }
        KeyOrder::After
    }
}

/// Compare two keys in the map's order.
pub fn order_keys(a: &str, b: &str) -> (r: KeyOrder)
    ensures
        r == KeyOrder::Before <==> key_lt(a@, b@),
        r == KeyOrder::Same <==> a@ == b@,
        r == KeyOrder::After <==> key_lt(b@, a@),
{
    let r = order_bytes(a.as_bytes(), b.as_bytes());
    proof {
        if encode_utf8(a@) == encode_utf8(b@) {
            encode_utf8_decode_utf8(a@);
            encode_utf8_decode_utf8(b@);
        }
    }
    r
}

/// Key equality of two strings.
pub fn same_text(a: &str, b: &str) -> (r: bool)
    ensures
        r == (a@ == b@),
{
    order_keys(a, b) == KeyOrder::Same
}

/// Sequence of keys is strictly ascending.
pub open spec fn keys_ascending<V>(s: Seq<(Seq<char>, V)>) -> bool {
    forall|i: int, j: int| 0 <= i < j < s.len() ==> key_lt(#[trigger] s[i].0, #[trigger] s[j].0)
}

/// The first value stored under `k` in an association sequence.
pub open spec fn assoc_get<V>(s: Seq<(Seq<char>, V)>, k: Seq<char>) -> Option<V>
    decreases s.len(),
{
    if s.len() == 0 {
        None
    } else if s[0].0 == k {
        Some(s[0].1)
    } else {
        assoc_get(s.drop_first(), k)
    }
}

/// Index of the first entry stored under `k`.
pub open spec fn assoc_index<V>(s: Seq<(Seq<char>, V)>, k: Seq<char>) -> Option<int>
    decreases s.len(),
{
    if s.len() == 0 {
        None
    } else if s[0].0 == k {
        Some(0)
    } else {
        match assoc_index(s.drop_first(), k) {
            Some(i) => Some(i + 1),
            None => None,
        }
    }
}

pub proof fn lemma_assoc_index<V>(s: Seq<(Seq<char>, V)>, k: Seq<char>)
    ensures
        assoc_index(s, k) matches Some(i) ==> {
            &&& 0 <= i < s.len()
            &&& s[i].0 == k
            &&& assoc_get(s, k) == Some(s[i].1)
            &&& forall|j: int| 0 <= j < i ==> s[j].0 != k
        },
        assoc_index(s, k) is None <==> assoc_get(s, k) is None,
        assoc_index(s, k) is None <==> (forall|j: int| 0 <= j < s.len() ==> s[j].0 != k),
    decreases s.len(),
{
    if s.len() > 0 {
        lemma_assoc_index(s.drop_first(), k);
        if s[0].0 != k {
            assert forall|j: int| 0 <= j < s.len() && s[j].0 == k implies j > 0 by {}
            if assoc_index(s.drop_first(), k) is None {
                assert forall|j: int| 0 <= j < s.len() implies s[j].0 != k by {
                    if j > 0 {
                        assert(s.drop_first()[j - 1] == s[j]);
                    }
                }
            } else {
                let i = assoc_index(s.drop_first(), k)->0;
                assert(s.drop_first()[i] == s[i + 1]);
                assert forall|j: int| 0 <= j < i + 1 implies s[j].0 != k by {
                    if j > 0 {
                        assert(s.drop_first()[j - 1] == s[j]);
                    }
                }
            }
            if assoc_index(s.drop_first(), k) is None {
                assert forall|j: int| 0 <= j < s.drop_first().len() implies s.drop_first()[j].0 != k by {
                    assert(s.drop_first()[j] == s[j + 1]);
                }
            }
        }
    }
}

/// A map from strings to values with strictly ascending keys.
#[derive(Debug, PartialEq, Eq)]
pub struct KeyMap<V> {
    entries: Vec<(String, V)>,
}

/// Key of an entry, as a character sequence.
pub open spec fn entry_model<V>(p: (String, V)) -> (Seq<char>, V) {
    (p.0@, p.1)
}

impl<V> KeyMap<V> {
    #[verifier::type_invariant]
    spec fn ascending(&self) -> bool {
        keys_ascending(self.stored())
    }

    /// The stored entries, as they are kept.
    spec fn stored(&self) -> Seq<(Seq<char>, V)> {
        self.entries@.map_values(|p: (String, V)| entry_model(p))
    }

    /// The entries in ascending key@ order (every map keeps them so).
    pub closed spec fn pairs(&self) -> Seq<(Seq<char>, V)> {
        if keys_ascending(self.stored()) {
            self.stored()
        } else {
            Seq::empty()
        }
    }

    /// The value stored under `k`, if any.
    pub open spec fn lookup(&self, k: Seq<char>) -> Option<V> {
        assoc_get(self.pairs(), k)
    }

    pub open spec fn has(&self, k: Seq<char>) -> bool {
        self.lookup(k) is Some
    }

    /// An empty map.
    pub fn new() -> (m: Self)
        ensures
            m.pairs() == Seq::<(Seq<char>, V)>::empty(),
    {
        let m = KeyMap { entries: Vec::new() };
        assert(m.pairs() =~= Seq::<(Seq<char>, V)>::empty());
        m
    }

    /// Number of entries.
    pub fn len(&self) -> (n: usize)
        ensures
            n == self.pairs().len(),
    {
        proof {
            use_type_invariant(self);
        }
        self.entries.len()
    }

    /// Whether the map has no entries.
    pub fn is_empty(&self) -> (b: bool)
        ensures
            b == (self.pairs().len() == 0),
    {
        proof {
            use_type_invariant(self);
        }
        self.entries.len() == 0
    }

    /// The key@ of the `i`-th entry in ascending order.
    pub fn key_at(&self, i: usize) -> (k: &String)
        requires
            i < self.pairs().len(),
        ensures
            k@ == self.pairs()[i as int].0,
    {
        proof {
            use_type_invariant(self);
        }
        &self.entries[i].0
    }

    /// The value of the `i`-th entry in ascending order.
    pub fn value_at(&self, i: usize) -> (v: &V)
        requires
            i < self.pairs().len(),
        ensures
            *v == self.pairs()[i as int].1,
    {
        proof {
            use_type_invariant(self);
        }
        &self.entries[i].1
    }

    /// Position of `key`, if present.
    pub fn find(&self, key: &str) -> (r: Option<usize>)
        ensures
            r matches Some(i) ==> assoc_index(self.pairs(), key@) == Some(i as int),
            r is None ==> assoc_index(self.pairs(), key@) is None,
    {
        proof {
            use_type_invariant(self);
        }
        let mut i: usize = 0;
        while i < self.entries.len()
            invariant
                keys_ascending(self.stored()),
                i <= self.pairs().len(),
                forall|j: int| 0 <= j < i ==> self.pairs()[j].0 != key@,
            decreases self.pairs().len() - i,
        {
            if same_text(self.entries[i].0.as_str(), key) {
                proof {
                    lemma_index_of_first(self.pairs(), key@, i as int);
                }
                return Some(i);
            }
            i = i + 1;
        }
        proof {
            lemma_assoc_index(self.pairs(), key@);
        }
        None
    }

    /// The value stored under `key`, if any.
    pub fn get(&self, key: &str) -> (r: Option<&V>)
        ensures
            r matches Some(v) ==> self.lookup(key@) == Some(*v),
            r is None ==> self.lookup(key@) is None,
    {
        proof {
            use_type_invariant(self);
        }
        proof {
            lemma_assoc_index(self.pairs(), key@);
        }
        match self.find(key) {
            Some(i) => Some(&self.entries[i].1),
            None => None,
        }
    }

    /// Whether `key` is present.
    pub fn contains_key(&self, key: &str) -> (b: bool)
        ensures
            b == self.has(key@),
    {
        proof {
            use_type_invariant(self);
        }
        proof {
            lemma_assoc_index(self.pairs(), key@);
        }
        self.find(key).is_some()
    }

    /// Store `value` under `key`, replacing any earlier value.
    pub fn insert(&mut self, key: String, value: V)
        ensures
            final(self).pairs() == insert_pairs(old(self).pairs(), key@, value),
    {
        proof {
            use_type_invariant(&*self);
        }
        let mut i: usize = 0;
        while i < self.entries.len()
            invariant
                keys_ascending(self.stored()),
                i <= self.pairs().len(),
                keys_ascending(self.pairs()),
                forall|j: int| 0 <= j < i ==> key_lt(#[trigger] self.pairs()[j].0, key@),
            ensures
                i <= self.pairs().len(),
                forall|j: int| 0 <= j < i ==> key_lt(#[trigger] self.pairs()[j].0, key@),
                i < self.pairs().len() ==> !key_lt(self.pairs()[i as int].0, key@),
            decreases self.pairs().len() - i,
        {
            let o = order_keys(self.entries[i].0.as_str(), key.as_str());
            if o != KeyOrder::Before {
                break;
            }
            i = i + 1;
        }
        let ghost before = self.pairs();
        proof {
            lemma_insert_position(before, key@, value, i as int);
        }
        let mut entries: Vec<(String, V)> = Vec::new();
        std::mem::swap(&mut entries, &mut self.entries);
        let ghost key_model = key@;
        if i < entries.len() && same_text(entries[i].0.as_str(), key.as_str()) {
            entries.remove(i);
            entries.insert(i, (key, value));
        } else {
            entries.insert(i, (key, value));
        }
        proof {
            assert(entries@.map_values(|p: (String, V)| entry_model(p)) =~= insert_pairs(before, key_model, value));
        }
        self.entries = entries;
    }
}

impl<V: Clone> Clone for KeyMap<V> {
    fn clone(&self) -> (r: Self)
        ensures
            r.pairs().len() == self.pairs().len(),
            forall|i: int| 0 <= i < self.pairs().len() ==> #[trigger] r.pairs()[i].0 == self.pairs()[i].0,
            forall|i: int| 0 <= i < self.pairs().len() ==> cloned::<V>(self.pairs()[i].1, #[trigger] r.pairs()[i].1),
    {
        proof {
            use_type_invariant(self);
        }
        let mut out: Vec<(String, V)> = Vec::new();
        let mut i: usize = 0;
        while i < self.entries.len()
            invariant
                i <= self.entries@.len(),
                out@.len() == i,
                keys_ascending(self.pairs()),
                forall|j: int| 0 <= j < i ==> #[trigger] out@[j].0@ == self.entries@[j].0@,
                forall|j: int| 0 <= j < i ==> cloned::<V>(self.entries@[j].1, #[trigger] out@[j].1),
            decreases self.entries@.len() - i,
        {
            let k = self.entries[i].0.clone();
            let v = self.entries[i].1.clone();
            out.push((k, v));
            i = i + 1;
        }
        proof {
            let rp = out@.map_values(|p: (String, V)| entry_model(p));
            assert forall|a: int, b: int| 0 <= a < b < rp.len() implies key_lt(#[trigger] rp[a].0, #[trigger] rp[b].0) by {
                assert(self.pairs()[a].0 == self.entries@[a].0@);
                assert(self.pairs()[b].0 == self.entries@[b].0@);
            }
        }
        KeyMap { entries: out }
    }
}

/// Every map's entries are in strictly ascending key order.
pub proof fn lemma_pairs_ascending<V>(m: KeyMap<V>)
    ensures
        keys_ascending(m.pairs()),
{
}

impl<V> KeyMap<V> {
    /// The entries are in strictly ascending key order.
    pub fn ascending_now(&self)
        ensures
            keys_ascending(self.pairs()),
    {
        proof {
            use_type_invariant(self);
        }
    }

    /// Append an entry whose key comes after every key present.
    pub fn push_last(&mut self, key: String, value: V)
        requires
            old(self).pairs().len() == 0 || key_lt(old(self).pairs().last().0, key@),
        ensures
            final(self).pairs() == old(self).pairs().push((key@, value)),
    {
        proof {
            use_type_invariant(&*self);
        }
        let ghost before = self.pairs();
        let ghost km = key@;
        let mut entries: Vec<(String, V)> = Vec::new();
        std::mem::swap(&mut entries, &mut self.entries);
        entries.push((key, value));
        proof {
            let np = entries@.map_values(|p: (String, V)| entry_model(p));
            assert(np =~= before.push((km, value)));
            assert forall|a: int, b: int| 0 <= a < b < np.len() implies key_lt(#[trigger] np[a].0, #[trigger] np[b].0) by {
                if b == np.len() - 1 && a < before.len() - 1 {
                    lemma_key_lt_facts(np[a].0, before.last().0, km);
                }
            }
        }
        self.entries = entries;
    }
}

/// A copy of a map of shared values; the values are shared, not copied.
pub fn share_all<T>(m: &KeyMap<std::sync::Arc<T>>) -> (r: KeyMap<std::sync::Arc<T>>)
    ensures
        r.pairs() == m.pairs(),
{
    m.ascending_now();
    let mut r: KeyMap<std::sync::Arc<T>> = KeyMap::new();
    let mut i: usize = 0;
    while i < m.len()
        invariant
            i <= m.pairs().len(),
            keys_ascending(m.pairs()),
            r.pairs() =~= m.pairs().take(i as int),
        decreases m.pairs().len() - i,
    {
        let k = m.key_at(i).clone();
        let v = m.value_at(i).clone();
        proof {
            if i > 0 {
                assert(r.pairs().last() == m.pairs()[i - 1]);
            }
        }
        r.push_last(k, v);
        proof {
            assert(m.pairs().take(i + 1) =~= m.pairs().take(i as int).push(m.pairs()[i as int]));
        }
        i = i + 1;
    }
    proof {
        assert(m.pairs().take(m.pairs().len() as int) =~= m.pairs());
    }
    r
}

/// Entries after storing `value` under `key` in an ascending sequence.
pub open spec fn insert_pairs<V>(s: Seq<(Seq<char>, V)>, key: Seq<char>, value: V) -> Seq<(Seq<char>, V)> {
    let i = insert_point(s, key);
    if i < s.len() && s[i].0 == key {
        s.update(i, (key, value))
    } else {
        s.insert(i, (key, value))
    }
}

/// Number of leading entries whose key comes before `k`.
pub open spec fn insert_point<V>(s: Seq<(Seq<char>, V)>, k: Seq<char>) -> int
    decreases s.len(),
{
    if s.len() == 0 {
        0
    } else if key_lt(s[0].0, k) {
        1 + insert_point(s.drop_first(), k)
    } else {
        0
    }
}

proof fn lemma_index_of_first<V>(s: Seq<(Seq<char>, V)>, k: Seq<char>, i: int)
    requires
        0 <= i < s.len(),
        s[i].0 == k,
        forall|j: int| 0 <= j < i ==> s[j].0 != k,
    ensures
        assoc_index(s, k) == Some(i),
    decreases i,
{
    if i > 0 {
        assert forall|j: int| 0 <= j < i - 1 implies s.drop_first()[j].0 != k by {
            assert(s.drop_first()[j] == s[j + 1]);
        }
        lemma_index_of_first(s.drop_first(), k, i - 1);
    }
}

proof fn lemma_insert_point<V>(s: Seq<(Seq<char>, V)>, k: Seq<char>, i: int)
    requires
        0 <= i <= s.len(),
        forall|j: int| 0 <= j < i ==> key_lt(#[trigger] s[j].0, k),
        i < s.len() ==> !key_lt(s[i].0, k),
    ensures
        insert_point(s, k) == i,
    decreases i,
{
    if i > 0 {
        assert(key_lt(s[0].0, k));
        assert forall|j: int| 0 <= j < i - 1 implies key_lt(#[trigger] s.drop_first()[j].0, k) by {
            assert(s.drop_first()[j] == s[j + 1]);
        }
        lemma_insert_point(s.drop_first(), k, i - 1);
    }
}

proof fn lemma_insert_position<V>(s: Seq<(Seq<char>, V)>, key: Seq<char>, value: V, i: int)
    requires
        0 <= i <= s.len(),
        keys_ascending(s),
        forall|j: int| 0 <= j < i ==> key_lt(#[trigger] s[j].0, key),
        i < s.len() ==> !key_lt(s[i].0, key),
    ensures
        insert_point(s, key) == i,
        keys_ascending(insert_pairs(s, key, value)),
{
    lemma_insert_point(s, key, i);
    let r = insert_pairs(s, key, value);
    if i < s.len() {
        lemma_key_lt_facts(s[i].0, key, key);
    }
    assert forall|a: int, b: int| 0 <= a < b < r.len() implies key_lt(#[trigger] r[a].0, #[trigger] r[b].0) by {
        if i < s.len() && s[i].0 == key {
            assert(r[a].0 == s[a].0);
            assert(r[b].0 == s[b].0);
        } else {
            if b < i {
                assert(r[a] == s[a] && r[b] == s[b]);
            } else if b == i {
                assert(r[a] == s[a]);
            } else if a == i {
                assert(r[b] == s[b - 1]);
                if b - 1 > i {
                    lemma_key_lt_facts(key, s[i].0, s[b - 1].0);
                }
                lemma_key_lt_facts(s[i].0, key, s[b - 1].0);
            } else if a < i {
                assert(r[a] == s[a]);
                assert(r[b] == s[b - 1]);
                if a < b - 1 {
                } else {
                }
            } else {
                assert(r[a] == s[a - 1]);
                assert(r[b] == s[b - 1]);
            }
        }
    }
}

/// The entries of `s` with each value sent through `f`.
pub open spec fn map_entries<V, W>(s: Seq<(Seq<char>, V)>, f: spec_fn(V) -> W) -> Seq<(Seq<char>, W)> {
    s.map_values(|p: (Seq<char>, V)| (p.0, f(p.1)))
}

proof fn lemma_insert_point_mapped<V, W>(s: Seq<(Seq<char>, V)>, k: Seq<char>, f: spec_fn(V) -> W)
    ensures
        insert_point(map_entries(s, f), k) == insert_point(s, k),
        0 <= insert_point(s, k) <= s.len(),
    decreases s.len(),
{
    if s.len() > 0 {
        assert(map_entries(s, f).drop_first() =~= map_entries(s.drop_first(), f));
        lemma_insert_point_mapped(s.drop_first(), k, f);
    }
}

/// Mapping values commutes with storing a value.
pub proof fn lemma_insert_mapped<V, W>(s: Seq<(Seq<char>, V)>, k: Seq<char>, v: V, f: spec_fn(V) -> W)
    ensures
        map_entries(insert_pairs(s, k, v), f) == insert_pairs(map_entries(s, f), k, f(v)),
{
    lemma_insert_point_mapped(s, k, f);
    let i = insert_point(s, k);
    let em = map_entries(s, f);
    let lhs = map_entries(insert_pairs(s, k, v), f);
    let rhs = insert_pairs(em, k, f(v));
    if 0 <= i < s.len() {
        assert(em[i].0 == s[i].0);
    }
    if i < s.len() && s[i].0 == k {
        assert forall|j: int| 0 <= j < lhs.len() implies lhs[j] == rhs[j] by {
            if j == i {
                assert(s.update(i, (k, v))[j] == (k, v));
            } else {
                assert(s.update(i, (k, v))[j] == s[j]);
            }
        }
        assert(lhs =~= rhs);
    } else {
        let ins = s.insert(i, (k, v));
        assert forall|j: int| 0 <= j < lhs.len() implies lhs[j] == rhs[j] by {
            if j < i {
                assert(ins[j] == s[j]);
            } else if j == i {
                assert(ins[j] == (k, v));
            } else {
                assert(ins[j] == s[j - 1]);
            }
        }
        assert(lhs =~= rhs);
    }
}

/// Mapping values commutes with lookup.
pub proof fn lemma_get_mapped<V, W>(s: Seq<(Seq<char>, V)>, k: Seq<char>, f: spec_fn(V) -> W)
    ensures
        assoc_get(map_entries(s, f), k) == (match assoc_get(s, k) {
            Some(v) => Some(f(v)),
            None => None,
        }),
    decreases s.len(),
{
    if s.len() > 0 {
        assert(map_entries(s, f).drop_first() =~= map_entries(s.drop_first(), f));
        lemma_get_mapped(s.drop_first(), k, f);
    }
}

pub(crate) proof fn lemma_insert_point_facts<V>(s: Seq<(Seq<char>, V)>, k: Seq<char>)
    ensures
        0 <= insert_point(s, k) <= s.len(),
        forall|j: int| 0 <= j < insert_point(s, k) ==> key_lt(#[trigger] s[j].0, k),
        insert_point(s, k) < s.len() ==> !key_lt(s[insert_point(s, k)].0, k),
    decreases s.len(),
{
    if s.len() > 0 && key_lt(s[0].0, k) {
        let r = s.drop_first();
        lemma_insert_point_facts(r, k);
        assert forall|j: int| 0 <= j < insert_point(s, k) implies key_lt(#[trigger] s[j].0, k) by {
            if j > 0 {
                assert(s[j] == r[j - 1]);
            }
        }
        if insert_point(s, k) < s.len() {
            assert(s[insert_point(s, k)] == r[insert_point(r, k)]);
        }
    }
}

/// A lookup right after storing a value under `k` finds that value.
pub proof fn lemma_insert_get_own<V>(s: Seq<(Seq<char>, V)>, k: Seq<char>, v: V)
    ensures
        assoc_get(insert_pairs(s, k, v), k) == Some(v),
{
    lemma_insert_point_facts(s, k);
    lemma_key_lt_facts(k, k, k);
    let i = insert_point(s, k);
    let t = insert_pairs(s, k, v);
    assert(t[i] == (k, v));
    assert forall|j: int| 0 <= j < i implies t[j].0 != k by {
        assert(t[j] == s[j]);
        assert(key_lt(s[j].0, k));
    }
    lemma_assoc_index(t, k);
    lemma_index_of_first(t, k, i);
}

/// In an ascending sequence the first entry under a key is its only one.
pub proof fn lemma_ascending_get<V>(s: Seq<(Seq<char>, V)>, x: Seq<char>)
    requires
        keys_ascending(s),
    ensures
        forall|j: int| 0 <= j < s.len() && s[j].0 == x ==> assoc_get(s, x) == Some(#[trigger] s[j].1),
        (forall|j: int| 0 <= j < s.len() ==> #[trigger] s[j].0 != x) ==> assoc_get(s, x) is None,
{
    lemma_assoc_index(s, x);
    assert forall|j: int| 0 <= j < s.len() && s[j].0 == x implies assoc_get(s, x) == Some(#[trigger] s[j].1) by {
        let i = assoc_index(s, x)->0;
        if i != j {
            lemma_key_lt_facts(x, x, x);
            if i < j {
                assert(key_lt(s[i].0, s[j].0));
            } else {
                assert(key_lt(s[j].0, s[i].0));
            }
        }
    }
}

/// Storing a value keeps the keys ascending, and a lookup afterwards finds
/// the stored value under its key and what was there before under others.
pub proof fn lemma_insert_get<V>(s: Seq<(Seq<char>, V)>, k: Seq<char>, v: V, x: Seq<char>)
    requires
        keys_ascending(s),
    ensures
        keys_ascending(insert_pairs(s, k, v)),
        assoc_get(insert_pairs(s, k, v), x) == (if x == k {
            Some(v)
        } else {
            assoc_get(s, x)
        }),
{
    lemma_insert_point_facts(s, k);
    let i = insert_point(s, k);
    lemma_insert_position(s, k, v, i);
    let t = insert_pairs(s, k, v);
    lemma_ascending_get(s, x);
    lemma_ascending_get(t, x);
    if i < s.len() && s[i].0 == k {
        assert(t[i] == (k, v));
        if x == k {
            assert(assoc_get(t, x) == Some(t[i].1));
        } else {
            if exists|j: int| 0 <= j < s.len() && s[j].0 == x {
                let j = choose|j: int| 0 <= j < s.len() && s[j].0 == x;
                assert(t[j] == s[j]);
                assert(assoc_get(s, x) == Some(s[j].1));
                assert(assoc_get(t, x) == Some(t[j].1));
            } else {
                assert forall|j: int| 0 <= j < t.len() implies #[trigger] t[j].0 != x by {
                    if j != i {
                        assert(t[j] == s[j]);
                    }
                }
                assert forall|j: int| 0 <= j < s.len() implies #[trigger] s[j].0 != x by {}
            }
        }
    } else {
        assert(t[i] == (k, v));
        if x == k {
            assert(assoc_get(t, x) == Some(t[i].1));
        } else {
            if exists|j: int| 0 <= j < s.len() && s[j].0 == x {
                let j = choose|j: int| 0 <= j < s.len() && s[j].0 == x;
                assert(assoc_get(s, x) == Some(s[j].1));
                if j < i {
                    assert(t[j] == s[j]);
                    assert(assoc_get(t, x) == Some(t[j].1));
                } else {
                    assert(t[j + 1] == s[j]);
                    assert(assoc_get(t, x) == Some(t[j + 1].1));
                }
            } else {
                assert forall|j: int| 0 <= j < t.len() implies #[trigger] t[j].0 != x by {
                    if j < i {
                        assert(t[j] == s[j]);
                    } else if j > i {
                        assert(t[j] == s[j - 1]);
                    }
                }
                assert forall|j: int| 0 <= j < s.len() implies #[trigger] s[j].0 != x by {}
            }
        }
    }
}

/// Storing a value adds at most one entry, and every entry afterwards is the
/// stored one or an entry from before.
pub proof fn lemma_insert_pairs_shape<V>(s: Seq<(Seq<char>, V)>, k: Seq<char>, v: V)
    ensures
        insert_pairs(s, k, v).len() <= s.len() + 1,
        forall|j: int| 0 <= j < insert_pairs(s, k, v).len() ==> #[trigger] insert_pairs(s, k, v)[j] == (k, v)
            || s.contains(insert_pairs(s, k, v)[j]),
{
    lemma_insert_point_facts(s, k);
    let i = insert_point(s, k);
    let r = insert_pairs(s, k, v);
    assert forall|j: int| 0 <= j < r.len() implies #[trigger] r[j] == (k, v) || s.contains(r[j]) by {
        if i < s.len() && s[i].0 == k {
            if j != i {
                assert(r[j] == s[j]);
            }
        } else {
            if j < i {
                assert(r[j] == s[j]);
            } else if j > i {
                assert(r[j] == s[j - 1]);
            }
        }
    }
}

/// Two ascending sequences with the same lookups are the same.
pub proof fn lemma_ascending_ext<V>(s1: Seq<(Seq<char>, V)>, s2: Seq<(Seq<char>, V)>)
    requires
        keys_ascending(s1),
        keys_ascending(s2),
        forall|x: Seq<char>| #[trigger] assoc_get(s1, x) == assoc_get(s2, x),
    ensures
        s1 == s2,
    decreases s1.len(),
{
    if s1.len() == 0 {
        if s2.len() > 0 {
            lemma_ascending_get(s2, s2[0].0);
            assert(assoc_get(s1, s2[0].0) is None);
        }
        assert(s1 =~= s2);
    } else {
        if s2.len() == 0 {
            lemma_ascending_get(s1, s1[0].0);
            assert(assoc_get(s2, s1[0].0) is None);
        }
        let a = s1[0].0;
        let b = s2[0].0;
        lemma_ascending_get(s1, a);
        lemma_ascending_get(s2, a);
        lemma_ascending_get(s1, b);
        lemma_ascending_get(s2, b);
        lemma_key_lt_facts(a, b, a);
        if a != b {
            assert(assoc_get(s2, a) is Some);
            let j = choose|j: int| 0 <= j < s2.len() && #[trigger] s2[j].0 == a;
            assert(j > 0);
            assert(key_lt(b, a));
            assert(assoc_get(s1, b) is Some);
            let i = choose|i: int| 0 <= i < s1.len() && #[trigger] s1[i].0 == b;
            assert(i > 0);
            assert(key_lt(a, b));
        }
        assert(s1[0] == s2[0]);
        let r1 = s1.drop_first();
        let r2 = s2.drop_first();
        assert(keys_ascending(r1)) by {
            assert forall|p: int, q: int| 0 <= p < q < r1.len() implies key_lt(#[trigger] r1[p].0, #[trigger] r1[q].0) by {
                assert(r1[p] == s1[p + 1] && r1[q] == s1[q + 1]);
            }
        }
        assert(keys_ascending(r2)) by {
            assert forall|p: int, q: int| 0 <= p < q < r2.len() implies key_lt(#[trigger] r2[p].0, #[trigger] r2[q].0) by {
                assert(r2[p] == s2[p + 1] && r2[q] == s2[q + 1]);
            }
        }
        assert forall|x: Seq<char>| #[trigger] assoc_get(r1, x) == assoc_get(r2, x) by {
            lemma_ascending_get(r1, x);
            lemma_ascending_get(r2, x);
            lemma_ascending_get(s1, x);
            lemma_ascending_get(s2, x);
            if x == a {
                assert forall|j: int| 0 <= j < r1.len() implies #[trigger] r1[j].0 != x by {
                    assert(r1[j] == s1[j + 1]);
                    lemma_key_lt_facts(a, a, a);
                }
                assert forall|j: int| 0 <= j < r2.len() implies #[trigger] r2[j].0 != x by {
                    assert(r2[j] == s2[j + 1]);
                    lemma_key_lt_facts(a, a, a);
                }
            } else {
                if exists|j: int| 0 <= j < r1.len() && r1[j].0 == x {
                    let j = choose|j: int| 0 <= j < r1.len() && r1[j].0 == x;
                    assert(r1[j] == s1[j + 1]);
                }
                if exists|j: int| 0 <= j < r2.len() && r2[j].0 == x {
                    let j = choose|j: int| 0 <= j < r2.len() && r2[j].0 == x;
                    assert(r2[j] == s2[j + 1]);
                }
                if assoc_get(s1, x) is Some {
                    lemma_assoc_index(s1, x);
                    let i = assoc_index(s1, x)->0;
                    assert(i > 0);
                    assert(r1[i - 1] == s1[i]);
                }
                if assoc_get(s2, x) is Some {
                    lemma_assoc_index(s2, x);
                    let i = assoc_index(s2, x)->0;
                    assert(i > 0);
                    assert(r2[i - 1] == s2[i]);
                }
            }
        }
        lemma_ascending_ext(r1, r2);
        assert(s1 =~= s2) by {
            assert forall|j: int| 0 <= j < s1.len() implies s1[j] == s2[j] by {
                if j > 0 {
                    assert(s1[j] == r1[j - 1]);
                    assert(s2[j] == r2[j - 1]);
                }
            }
        }
    }
}

} // verus!
