//! The resource bounds a decoded shard and a combined snapshot respect.
use vstd::prelude::*;

use crate::input::grammar::{
    envelope, envelope_fields, identifier_fault, quoted_text, raw_scalar, scan_next, shard_spec, tagged_fields,
    tagged_value, text_scan, value_entries, values_object, RawModel, ShardModel,
};
use crate::input::parser::decode_spec;
use crate::input::shards::{canonical_spec, merge_entries, merge_shards};
use crate::input::{InputLimits, ScalarModel};
use crate::keymap::{insert_pairs, keys_ascending, lemma_insert_get, lemma_insert_pairs_shape};
use crate::text::byte_len;

verus! {

/// An admitted input: its name is an identifier within the name limit, and a
/// string value is within the string limit.
pub open spec fn entry_admitted(e: (Seq<char>, ScalarModel), lim: InputLimits) -> bool {
    &&& identifier_fault(e.0, lim.max_name_bytes) is None
    &&& e.1 matches ScalarModel::Str(s) ==> byte_len(s) <= lim.max_string_value_bytes
}

/// Every entry is admitted.
pub open spec fn entries_admitted(m: Seq<(Seq<char>, ScalarModel)>, lim: InputLimits) -> bool {
    forall|i: int| 0 <= i < m.len() ==> entry_admitted(#[trigger] m[i], lim)
}

/// What a shard holds stays within the limits it was decoded under.
pub open spec fn shard_bounded(s: ShardModel, lim: InputLimits) -> bool {
    &&& s.byte_count <= lim.max_file_bytes
    &&& s.values.len() <= lim.max_input_count
    &&& keys_ascending(s.values)
    &&& entries_admitted(s.values, lim)
}

proof fn lemma_scan_bounded(b: Seq<u8>, p: int, start: int, acc: Seq<char>, max_len: usize, name: bool)
    requires
        byte_len(acc) <= max_len,
    ensures
        text_scan(b, p, start, acc, max_len, name) matches Ok((s, _)) ==> byte_len(s) <= max_len,
    decreases b.len() - p, 1nat,
{
    if 0 <= p < b.len() {
        let c = b[p];
        if c == 0x5c && p + 1 < b.len() {
            let e = b[p + 1];
            match crate::input::grammar::escape_char(e) {
                Some(ch) => lemma_scan_next_bounded(b, p, p + 2, start, acc.push(ch), max_len, name),
                None => {
                    if let Ok((ch, q)) = crate::input::grammar::unicode_escape(b, p + 2) {
                        lemma_scan_next_bounded(b, p, q, start, acc.push(ch), max_len, name);
                    }
                },
            }
        } else if c != 0x22 && c >= 0x20 && c != 0x5c {
            let rest = b.subrange(p, b.len() as int);
            lemma_scan_next_bounded(
                b,
                p,
                p + vstd::utf8::length_of_first_scalar(rest),
                start,
                acc.push(vstd::utf8::decode_first_scalar(rest) as char),
                max_len,
                name,
            );
        }
    }
}

proof fn lemma_scan_next_bounded(b: Seq<u8>, p: int, q: int, start: int, acc: Seq<char>, max_len: usize, name: bool)
    ensures
        scan_next(b, p, q, start, acc, max_len, name) matches Ok((s, _)) ==> byte_len(s) <= max_len,
    decreases b.len() - p, 0nat,
{
    if !(byte_len(acc) > max_len) && !(q <= p || q > b.len()) {
        lemma_scan_bounded(b, q, start, acc, max_len, name);
    }
}

proof fn lemma_quoted_bounded(b: Seq<u8>, p: int, max_len: usize)
    ensures
        quoted_text(b, p, max_len) matches Ok((s, _)) ==> byte_len(s) <= max_len,
{
    reveal(quoted_text);
    let q = crate::input::grammar::ws(b, p);
    assert(byte_len(Seq::<char>::empty()) == 0);
    lemma_scan_bounded(b, q + 1, q + 1, Seq::empty(), max_len, false);
}

/// A raw string value is within the string limit.
pub open spec fn raw_admitted(r: RawModel, lim: InputLimits) -> bool {
    r matches RawModel::Str(s) ==> byte_len(s) <= lim.max_string_value_bytes
}

proof fn lemma_raw_bounded(b: Seq<u8>, lim: InputLimits, p: int, depth: int)
    ensures
        raw_scalar(b, lim, p, depth) matches Ok((r, _)) ==> raw_admitted(r, lim),
{
    reveal(raw_scalar);
    let q = crate::input::grammar::ws(b, p);
    lemma_quoted_bounded(b, q, lim.max_string_value_bytes);
}

#[verifier::rlimit(100)]
proof fn lemma_fields_bounded(
    b: Seq<u8>,
    lim: InputLimits,
    p: int,
    depth: int,
    seen: Seq<Seq<char>>,
    ty: Option<(Seq<char>, int)>,
    val: Option<RawModel>,
)
    requires
        val matches Some(v) ==> raw_admitted(v, lim),
    ensures
        tagged_fields(b, lim, p, depth, seen, ty, val) matches Ok((_, val2, _)) ==> (val2 matches Some(v)
            ==> raw_admitted(v, lim)),
    decreases b.len() - p,
{
    let q = crate::input::grammar::ws(b, p);
    if let Ok((field, r1)) = quoted_text(b, q, 64) {
        if !seen.contains(field) {
            if let Ok(r2) = crate::input::grammar::expect(b, r1, 0x3a, "tagged value field separator"@) {
                lemma_raw_bounded(b, lim, r2, depth);
                if let Ok((_, r3)) = quoted_text(b, r2, 32) {
                    let s = crate::input::grammar::ws(b, r3);
                    if p <= s < b.len() {
                        lemma_fields_bounded(b, lim, s + 1, depth, seen.push(field), Some((quoted_text(b, r2, 32)->Ok_0.0, r2)), val);
                    }
                }
                if let Ok((v, r3)) = raw_scalar(b, lim, r2, depth) {
                    let s = crate::input::grammar::ws(b, r3);
                    if p <= s < b.len() {
                        lemma_fields_bounded(b, lim, s + 1, depth, seen.push(field), ty, Some(v));
                    }
                }
            }
        }
    }
}

proof fn lemma_tagged_bounded(b: Seq<u8>, lim: InputLimits, p: int, depth: int)
    ensures
        tagged_value(b, lim, p, depth) matches Ok((sv, _)) ==> (sv matches ScalarModel::Str(s) ==> byte_len(s)
            <= lim.max_string_value_bytes),
{
    if let Ok(r) = crate::input::grammar::expect(b, p, 0x7b, "tagged value object"@) {
        let q = crate::input::grammar::ws(b, r);
        lemma_fields_bounded(b, lim, q, depth + 1, Seq::empty(), None, None);
    }
}

#[verifier::rlimit(100)]
proof fn lemma_entries_bounded(
    b: Seq<u8>,
    lim: InputLimits,
    p: int,
    depth: int,
    seen: Seq<Seq<char>>,
    map: Seq<(Seq<char>, ScalarModel)>,
)
    requires
        entries_admitted(map, lim),
        keys_ascending(map),
        map.len() <= seen.len(),
    ensures
        value_entries(b, lim, p, depth, seen, map) matches Ok((m, _)) ==> {
            &&& entries_admitted(m, lim)
            &&& keys_ascending(m)
            &&& m.len() <= lim.max_input_count
        },
    decreases b.len() - p,
{
    let q = crate::input::grammar::ws(b, p);
    reveal(crate::input::grammar::input_name);
    if let Ok((name, r1)) = crate::input::grammar::input_name(b, lim, q) {
        if !seen.contains(name) && !(seen.len() + 1 > lim.max_input_count) {
            if let Ok(r2) = crate::input::grammar::expect(b, r1, 0x3a, "input value separator"@) {
                lemma_tagged_bounded(b, lim, r2, depth);
                if let Ok((v, r3)) = tagged_value(b, lim, r2, depth) {
                    let map2 = insert_pairs(map, name, v);
                    lemma_insert_pairs_shape(map, name, v);
                    lemma_insert_get(map, name, v, name);
                    assert forall|i: int| 0 <= i < map2.len() implies entry_admitted(#[trigger] map2[i], lim) by {
                        if map2[i] != (name, v) {
                            let j = choose|j: int| 0 <= j < map.len() && map[j] == map2[i];
                            assert(entry_admitted(map[j], lim));
                        }
                    }
                    let s = crate::input::grammar::ws(b, r3);
                    if p <= s < b.len() {
                        lemma_entries_bounded(b, lim, s + 1, depth, seen.push(name), map2);
                    }
                }
            }
        }
    }
}

#[verifier::rlimit(100)]
proof fn lemma_envelope_fields_bounded(
    b: Seq<u8>,
    lim: InputLimits,
    p: int,
    depth: int,
    seen: Seq<Seq<char>>,
    schema: Option<Seq<char>>,
    values: Option<Seq<(Seq<char>, ScalarModel)>>,
)
    requires
        values matches Some(m) ==> entries_admitted(m, lim) && keys_ascending(m) && m.len() <= lim.max_input_count,
    ensures
        envelope_fields(b, lim, p, depth, seen, schema, values) matches Ok((_, values2, _)) ==> (values2 matches Some(
            m,
        ) ==> entries_admitted(m, lim) && keys_ascending(m) && m.len() <= lim.max_input_count),
    decreases b.len() - p,
{
    let q = crate::input::grammar::ws(b, p);
    if let Ok((key, r1)) = quoted_text(b, q, lim.max_name_bytes) {
        if !seen.contains(key) {
            if let Ok(r2) = crate::input::grammar::expect(b, r1, 0x3a, "envelope field separator"@) {
                if let Ok((sv, r3)) = quoted_text(b, r2, 64) {
                    let s = crate::input::grammar::ws(b, r3);
                    if p <= s < b.len() {
                        lemma_envelope_fields_bounded(b, lim, s + 1, depth, seen.push(key), Some(sv), values);
                    }
                }
                if let Ok((vals, r3)) = values_object(b, lim, r2, depth) {
                    if !(depth >= lim.max_depth) {
                        if let Ok(r) = crate::input::grammar::expect(b, r2, 0x7b, "values object"@) {
                            let qq = crate::input::grammar::ws(b, r);
                            lemma_entries_bounded(b, lim, qq, depth + 1, Seq::empty(), Seq::empty());
                        }
                    }
                    let s = crate::input::grammar::ws(b, r3);
                    if p <= s < b.len() {
                        lemma_envelope_fields_bounded(b, lim, s + 1, depth, seen.push(key), schema, Some(vals));
                    }
                }
            }
        }
    }
}

/// A decoded shard respects the limits it was decoded under: the document
/// fits the per-file limit, the inputs fit the per-shard count, names are
/// identifiers within the name limit, string values are within the string
/// limit, and names are in strictly ascending order.
pub proof fn lemma_decoded_shard_bounded(bytes: Seq<u8>, lim: InputLimits)
    ensures
        decode_spec(bytes, lim) matches Ok(s) ==> shard_bounded(s, lim) && s.byte_count == bytes.len(),
{
    let p = crate::input::grammar::ws(bytes, 0);
    if let Ok(r) = crate::input::grammar::expect(bytes, p, 0x7b, "root envelope object"@) {
        let q = crate::input::grammar::ws(bytes, r);
        lemma_envelope_fields_bounded(bytes, lim, q, 1, Seq::empty(), None, None);
    }
}

proof fn lemma_merge_entries_bounded(
    entries: Seq<(Seq<char>, ScalarModel)>,
    j: nat,
    map: Seq<(Seq<char>, ScalarModel)>,
    lim: InputLimits,
)
    requires
        map.len() <= lim.max_input_count,
    ensures
        merge_entries(entries, j, map, lim) matches Ok(m) ==> m.len() <= lim.max_input_count,
    decreases entries.len() - j,
{
    if j < entries.len() {
        let m2 = insert_pairs(map, entries[j as int].0, entries[j as int].1);
        if m2.len() <= lim.max_input_count {
            lemma_merge_entries_bounded(entries, j + 1, m2, lim);
        }
    }
}

proof fn lemma_merge_shards_bounded(
    shards: Seq<ShardModel>,
    i: nat,
    total: int,
    map: Seq<(Seq<char>, ScalarModel)>,
    lim: InputLimits,
)
    requires
        map.len() <= lim.max_input_count,
        total <= lim.max_aggregate_bytes,
    ensures
        merge_shards(shards, i, total, map, lim) matches Ok((t, m)) ==> t <= lim.max_aggregate_bytes && m.len()
            <= lim.max_input_count,
    decreases shards.len() - i,
{
    if i < shards.len() {
        let t = total + shards[i as int].byte_count;
        lemma_merge_entries_bounded(shards[i as int].values, 0, map, lim);
        if let Ok(m) = merge_entries(shards[i as int].values, 0, map, lim) {
            if t <= lim.max_aggregate_bytes {
                lemma_merge_shards_bounded(shards, i + 1, t, m, lim);
            }
        }
    }
}

/// A combined snapshot respects the limits: at most the file limit of
/// shards, at most the aggregate limit of bytes, and at most the total
/// input-count limit of inputs.
pub proof fn lemma_snapshot_bounded(shards: Seq<ShardModel>, lim: InputLimits)
    ensures
        canonical_spec(shards, lim) matches Ok(snap) ==> {
            &&& snap.shard_count <= lim.max_files
            &&& snap.total_bytes <= lim.max_aggregate_bytes
            &&& snap.values.len() <= lim.max_input_count
        },
{
    lemma_merge_shards_bounded(shards, 0, 0, Seq::empty(), lim);
}

} // verus!
