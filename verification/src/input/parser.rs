//! The strict, bounded, duplicate-refusing JSON reader for input artifacts,
//! proved to read exactly what the grammar says.
use vstd::prelude::*;
use vstd::string::{StrSliceExecFns, StringSliceAdditionalSpecFns};
use vstd::utf8::*;

use crate::input::grammar::{
    at, escape_char, exact, expect, hex4, hex4_text, hex_char, hex_digit, hex_value,
    identifier_fault, input_name, quoted_text, shown, syntax, text_scan, too_deep,
    unicode_escape, ws, ascii_alpha, ascii_digit, digit_byte, digits_end, number_end,
    number_exponent, number_tail, skip_value, skip_array, skip_object, array_rest, object_rest,
    word_true, word_false, word_null, lemma_ws_ge, raw_scalar, raw_kind, RawModel,
    decimal_ok, decimal_value, digits_value, decimal_digits, raw_word, raw_container, tagged_scalar, tagged_fields, tagged_value,
    value_entries, values_object, envelope_fields, envelope, shard_spec, DecodeFault,
    tagged_finish, envelope_finish, ShardModel,
};
use crate::input::{scalars_model, InputDecodeError, InputLimits, InputScalarValue, InputShard};
use crate::keymap::{lemma_insert_mapped, KeyMap};
use crate::l3_v2::exhaustive::names;
use crate::text::{char_from_scalar, owned, push_char, text_len};

verus! {

/// UTF-8 validity is kept past one ASCII byte.
proof fn lemma_ascii_step(b: Seq<u8>, p: int)
    requires
        0 <= p < b.len(),
        b[p] < 0x80,
        valid_utf8(b.subrange(p, b.len() as int)),
    ensures
        valid_utf8(b.subrange(p + 1, b.len() as int)),
{
    let s = b.subrange(p, b.len() as int);
    assert(s[0] == b[p]);
    assert(pop_first_scalar(s) =~= b.subrange(p + 1, b.len() as int));
}

/// UTF-8 validity is kept past one whole character.
proof fn lemma_scalar_step(b: Seq<u8>, p: int)
    requires
        0 <= p < b.len(),
        valid_utf8(b.subrange(p, b.len() as int)),
    ensures
        valid_first_scalar(b.subrange(p, b.len() as int)),
        1 <= length_of_first_scalar(b.subrange(p, b.len() as int)) <= 4,
        p + length_of_first_scalar(b.subrange(p, b.len() as int)) <= b.len(),
        valid_utf8(b.subrange(p + length_of_first_scalar(b.subrange(p, b.len() as int)), b.len() as int)),
{
    let s = b.subrange(p, b.len() as int);
    let n = length_of_first_scalar(s);
    assert(pop_first_scalar(s) =~= b.subrange(p + n, b.len() as int));
}

/// The first scalar of a valid encoding is a Unicode scalar value.
proof fn lemma_first_scalar(s: Seq<u8>)
    requires
        valid_first_scalar(s),
    ensures
        is_scalar(decode_first_scalar(s)),
{
    let b0 = s[0];
    if is_leading_byte_width_1(b0) {
        assert((b0 & 0x7f) as u32 <= 0x7f) by (bit_vector);
    } else if is_leading_byte_width_2(b0) {
        let b1 = s[1];
        assert((((b0 & 0x1f) as u32) << 6u32) | ((b1 & 0x3f) as u32) <= 0x7ff) by (bit_vector);
    } else if is_leading_byte_width_3(b0) {
        let b1 = s[1];
        let b2 = s[2];
        assert((((b0 & 0x0f) as u32) << 12u32) | (((b1 & 0x3f) as u32) << 6u32) | ((b2 & 0x3f) as u32)
            <= 0xffff) by (bit_vector);
    }
}

/// The byte shown as the character of the same code.
fn byte_char(c: u8) -> (r: char)
    ensures
        r == c as char,
{
    c as char
}

/// `a`, the character of byte `c`, then `z`.
fn byte_message(a: &str, c: u8, z: &str) -> (s: String)
    ensures
        s@ == a@ + shown(c) + z@,
{
    let mut s = owned(a);
    push_char(&mut s, byte_char(c));
    s.append(z);
    s
}


/// The character a one-letter escape stands for.
fn escape_of(e: u8) -> (r: Option<char>)
    ensures
        r == escape_char(e),
{
    if e == 0x22 {
        Some('"')
    } else if e == 0x5c {
        Some('\\')
    } else if e == 0x2f {
        Some('/')
    } else if e == 0x62 {
        Some('\x08')
    } else if e == 0x66 {
        Some('\x0c')
    } else if e == 0x6e {
        Some('\n')
    } else if e == 0x72 {
        Some('\r')
    } else if e == 0x74 {
        Some('\t')
    } else {
        None
    }
}

proof fn lemma_hex_ascii(s: Seq<u8>, n: nat)
    requires
        n <= s.len(),
        hex_value(s, n) is Some,
    ensures
        forall|i: int| 0 <= i < n ==> #[trigger] s[i] < 0x80,
    decreases n,
{
    if n > 0 {
        lemma_hex_ascii(s, (n - 1) as nat);
    }
}

/// The bytes read as hexadecimal digits, kept to 16 bits; `None` when
/// fewer than four bytes are given or one is not a hexadecimal digit.
fn parse_hex_4(bytes: &[u8]) -> (r: Option<u16>)
    ensures
        match hex4(bytes@) {
            Some(v) => r == Some(v as u16),
            None => r is None,
        },
{
    if bytes.len() < 4 {
        return None;
    }
    let mut val: u32 = 0;
    let mut i: usize = 0;
    while i < bytes.len()
        invariant
            i <= bytes@.len(),
            val < 65536,
            hex_value(bytes@, i as nat) == Some(val as int),
        decreases bytes@.len() - i,
    {
        let b = bytes[i];
        let digit: u32 = if 0x30 <= b && b <= 0x39 {
            (b - 0x30) as u32
        } else if 0x61 <= b && b <= 0x66 {
            (b - 0x61 + 10) as u32
        } else if 0x41 <= b && b <= 0x46 {
            (b - 0x41 + 10) as u32
        } else {
            proof {
                assert(hex_value(bytes@, (i + 1) as nat) is None);
                lemma_hex_none_stays(bytes@, (i + 1) as nat, bytes@.len());
            }
            return None;
        };
        val = (val * 16 + digit) % 65536;
        i = i + 1;
    }
    Some(val as u16)
}

proof fn lemma_hex_none_stays(s: Seq<u8>, n: nat, m: nat)
    requires
        n <= m <= s.len(),
        hex_value(s, n) is None,
    ensures
        hex_value(s, m) is None,
    decreases m - n,
{
    if n < m {
        lemma_hex_none_stays(s, n, (m - 1) as nat);
    }
}

/// Upper-case hexadecimal digit of `d < 16`.
fn hex_digit_char(d: u32) -> (c: char)
    requires
        d < 16,
    ensures
        c == hex_char(d as int),
{
    if d < 10 {
        ((d + 48) as u8) as char
    } else {
        ((d + 55) as u8) as char
    }
}

/// Four upper-case hexadecimal digits of `v`.
fn hex4_upper(v: u16) -> (s: String)
    ensures
        s@ == hex4_text(v as int),
{
    let w = v as u32;
    let mut s = String::new();
    push_char(&mut s, hex_digit_char((w / 4096) % 16));
    push_char(&mut s, hex_digit_char((w / 256) % 16));
    push_char(&mut s, hex_digit_char((w / 16) % 16));
    push_char(&mut s, hex_digit_char(w % 16));
    proof {
        assert(s@ =~= hex4_text(v as int));
    }
    s
}

/// Check that `name` is an input identifier: an ASCII letter or
/// underscore, then ASCII letters, digits and underscores, at most
/// `max_len` bytes.
#[verifier::loop_isolation(false)]
fn validate_identifier(name: &str, max_len: usize) -> (r: Result<(), InputDecodeError>)
    ensures
        match identifier_fault(name@, max_len) {
            None => r is Ok,
            Some(f) => r matches Err(e) && e@ == f,
        },
{
    let n = name.unicode_len();
    if n == 0 {
        return Err(
            InputDecodeError::InvalidIdentifier {
                name: owned(name),
                reason: "identifier cannot be empty",
            },
        );
    }
    if text_len(name) > max_len {
        return Err(InputDecodeError::NameTooLong { limit: max_len });
    }
    let first = name.get_char(0);
    if !(('a' <= first && first <= 'z') || ('A' <= first && first <= 'Z') || first == '_') {
        return Err(
            InputDecodeError::InvalidIdentifier {
                name: owned(name),
                reason: "identifier must start with ASCII letter or underscore",
            },
        );
    }
    let mut i: usize = 1;
    while i < n
        invariant
            1 <= i <= n,
            n == name@.len(),
            forall|j: int|
                1 <= j < i ==> (ascii_alpha(#[trigger] name@[j]) || ascii_digit(name@[j]) || name@[j]
                    == '_'),
        decreases n - i,
    {
        let c = name.get_char(i);
        if !(('a' <= c && c <= 'z') || ('A' <= c && c <= 'Z') || ('0' <= c && c <= '9') || c == '_') {
            proof {
                assert(!(ascii_alpha(name@[i as int]) || ascii_digit(name@[i as int]) || name@[i as int]
                    == '_'));
            }
            return Err(
                InputDecodeError::InvalidIdentifier {
                    name: owned(name),
                    reason: "identifier may only contain ASCII alphanumeric characters and underscores",
                },
            );
        }
        i = i + 1;
    }
    Ok(())
}


/// What a tagged value's `value` field held.
enum RawValue {
    String(String),
    Bool(bool),
    Number,
    Null,
    Array,
    Object,
}

impl View for RawValue {
    type V = RawModel;

    closed spec fn view(&self) -> RawModel {
        match self {
            RawValue::String(s) => RawModel::Str(s@),
            RawValue::Bool(b) => RawModel::Bool(*b),
            RawValue::Number => RawModel::Number,
            RawValue::Null => RawModel::Null,
            RawValue::Array => RawModel::Array,
            RawValue::Object => RawModel::Object,
        }
    }
}

impl RawValue {
    /// JSON type name of the field.
    fn type_label(&self) -> (s: &'static str)
        ensures
            s@ == raw_kind(self@),
    {
        match self {
            RawValue::String(_) => "string",
            RawValue::Bool(_) => "bool",
            RawValue::Number => "number",
            RawValue::Null => "null",
            RawValue::Array => "array",
            RawValue::Object => "object",
        }
    }
}

/// Check that `raw` is a base-10 integer literal.
#[verifier::loop_isolation(false)]
fn validate_decimal_int(raw: &str) -> (r: Result<(), InputDecodeError>)
    ensures
        decimal_ok(raw@) ==> r is Ok,
        !decimal_ok(raw@) ==> (r matches Err(e) && e@ == DecodeFault::InvalidIntegerFormat { raw: raw@ }),
{
    let n = raw.unicode_len();
    if n == 0 {
        return Err(InputDecodeError::InvalidIntegerFormat { raw: owned(raw) });
    }
    let neg = raw.get_char(0) == '-';
    let start: usize = if neg {
        1
    } else {
        0
    };
    let ghost digits = decimal_digits(raw@);
    proof {
        assert(digits.len() == n - start);
        assert forall|i: int| 0 <= i < digits.len() implies digits[i] == raw@[i + start] by {}
    }
    if n == start {
        return Err(InputDecodeError::InvalidIntegerFormat { raw: owned(raw) });
    }
    let d0 = raw.get_char(start);
    if d0 == '0' && (neg || n - start > 1) {
        return Err(InputDecodeError::InvalidIntegerFormat { raw: owned(raw) });
    }
    let mut i: usize = start;
    while i < n
        invariant
            start <= i <= n,
            forall|j: int| 0 <= j < i - start ==> ascii_digit(#[trigger] digits[j]),
        decreases n - i,
    {
        let c = raw.get_char(i);
        if !('0' <= c && c <= '9') {
            proof {
                assert(digits[i - start] == c);
            }
            return Err(InputDecodeError::InvalidIntegerFormat { raw: owned(raw) });
        }
        proof {
            assert(digits[i - start] == c);
        }
        i = i + 1;
    }
    Ok(())
}

proof fn lemma_digits_value_nonneg(d: Seq<char>, n: nat)
    requires
        n <= d.len(),
        forall|i: int| 0 <= i < d.len() ==> ascii_digit(#[trigger] d[i]),
    ensures
        digits_value(d, n) >= 0,
    decreases n,
{
    if n > 0 {
        lemma_digits_value_nonneg(d, (n - 1) as nat);
        assert(ascii_digit(d[n - 1]));
    }
}

pub(crate) proof fn lemma_digits_value_mono(d: Seq<char>, k: nat, n: nat)
    requires
        k <= n <= d.len(),
        forall|i: int| 0 <= i < d.len() ==> ascii_digit(#[trigger] d[i]),
    ensures
        0 <= digits_value(d, k) <= digits_value(d, n),
    decreases n - k,
{
    lemma_digits_value_nonneg(d, k);
    if k < n {
        lemma_digits_value_mono(d, k, (n - 1) as nat);
        lemma_digits_value_nonneg(d, (n - 1) as nat);
        assert(ascii_digit(d[n - 1]));
    }
}

/// The value of a base-10 integer literal, when it fits in 64 bits.
#[verifier::loop_isolation(false)]
fn parse_decimal(raw: &str) -> (r: Option<i64>)
    requires
        decimal_ok(raw@),
    ensures
        match r {
            Some(v) => v == decimal_value(raw@),
            None => !(i64::MIN <= decimal_value(raw@) <= i64::MAX),
        },
{
    let n = raw.unicode_len();
    let neg = raw.get_char(0) == '-';
    let start: usize = if neg {
        1
    } else {
        0
    };
    let ghost digits = decimal_digits(raw@);
    let ghost total = (n - start) as nat;
    proof {
        assert(digits.len() == total);
        assert forall|i: int| 0 <= i < digits.len() implies digits[i] == raw@[i + start] by {}
        lemma_digits_value_mono(digits, 0, total);
    }
    let mut acc: i64 = 0;
    let mut i: usize = start;
    while i < n
        invariant
            start <= i <= n,
            acc == (if neg {
                -digits_value(digits, (i - start) as nat)
            } else {
                digits_value(digits, (i - start) as nat)
            }),
        decreases n - i,
    {
        let c = raw.get_char(i);
        proof {
            assert(digits[i - start] == c);
            assert(ascii_digit(digits[i - start]));
            lemma_digits_value_mono(digits, (i - start + 1) as nat, total);
        }
        let d = (c as u32 - 48) as i64;
        let m = match acc.checked_mul(10) {
            Some(m) => m,
            None => {
                return None;
            },
        };
        let next = if neg {
            m.checked_sub(d)
        } else {
            m.checked_add(d)
        };
        match next {
            Some(v) => {
                acc = v;
            },
            None => {
                return None;
            },
        }
        i = i + 1;
    }
    Some(acc)
}

/// Whether `k` is among `v`.
fn contains_text(v: &Vec<String>, k: &str) -> (b: bool)
    ensures
        b == crate::l3_v2::exhaustive::names(v@).contains(k@),
{
    let mut j: usize = 0;
    while j < v.len()
        invariant
            j <= v@.len(),
            forall|i: int| 0 <= i < j ==> (#[trigger] v@[i])@ != k@,
        decreases v@.len() - j,
    {
        if crate::keymap::same_text(v[j].as_str(), k) {
            proof {
                assert(crate::l3_v2::exhaustive::names(v@)[j as int] == k@);
            }
            return true;
        }
        j = j + 1;
    }
    proof {
        let ns = crate::l3_v2::exhaustive::names(v@);
        assert forall|i: int| 0 <= i < ns.len() implies ns[i] != k@ by {
            assert(ns[i] == v@[i]@);
        }
    }
    false
}


/// Model of what a tagged value's `type` field held.
spec fn type_model(t: Option<(String, usize)>) -> Option<(Seq<char>, int)> {
    match t {
        Some((s, o)) => Some((s@, o as int)),
        None => None,
    }
}

/// Model of what a tagged value's `value` field held.
spec fn raw_model(v: Option<RawValue>) -> Option<RawModel> {
    match v {
        Some(x) => Some(x@),
        None => None,
    }
}

/// The scalar a tagged value denotes.
fn tagged_result(t: String, t_offset: usize, raw: RawValue) -> (r: Result<InputScalarValue, InputDecodeError>)
    ensures
        match tagged_scalar(t@, t_offset as int, raw@) {
            Ok(s) => r matches Ok(x) && x@ == s,
            Err(f) => r matches Err(e) && e@ == f,
        },
{
    if crate::keymap::same_text(t.as_str(), "int") {
        match raw {
            RawValue::String(s) => {
                let v = validate_decimal_int(s.as_str());
                if let Err(f) = v {
                    return Err(f);
                }
                match parse_decimal(s.as_str()) {
                    Some(n) => Ok(InputScalarValue::Int(n)),
                    None => Err(InputDecodeError::IntegerOverflow { raw: s }),
                }
            },
            _ => Err(
                InputDecodeError::InvalidType {
                    expected: "decimal string for int value",
                    found: owned(raw.type_label()),
                    offset: t_offset,
                },
            ),
        }
    } else if crate::keymap::same_text(t.as_str(), "bool") {
        match raw {
            RawValue::Bool(b) => Ok(InputScalarValue::Bool(b)),
            _ => Err(
                InputDecodeError::InvalidType {
                    expected: "boolean (true or false) for bool value",
                    found: owned(raw.type_label()),
                    offset: t_offset,
                },
            ),
        }
    } else if crate::keymap::same_text(t.as_str(), "string") {
        match raw {
            RawValue::String(s) => Ok(InputScalarValue::Str(s)),
            _ => Err(
                InputDecodeError::InvalidType {
                    expected: "string for string value",
                    found: owned(raw.type_label()),
                    offset: t_offset,
                },
            ),
        }
    } else {
        Err(
            InputDecodeError::InvalidType {
                expected: "one of ['int', 'bool', 'string']",
                found: t,
                offset: t_offset,
            },
        )
    }
}

/// What a tagged value's fields make of it.
fn finish_tagged(raw_type: Option<(String, usize)>, raw_value: Option<RawValue>) -> (r: Result<InputScalarValue, InputDecodeError>)
    ensures
        match tagged_finish(Ok((type_model(raw_type), raw_model(raw_value), 0))) {
            Ok((s, _)) => r matches Ok(x) && x@ == s,
            Err(f) => r matches Err(e) && e@ == f,
        },
{
    match raw_type {
        None => Err(InputDecodeError::MissingField("type")),
        Some((t, t_offset)) => match raw_value {
            None => Err(InputDecodeError::MissingField("value")),
            Some(v) => tagged_result(t, t_offset, v),
        },
    }
}


/// Model of the `schema` field read so far.
spec fn schema_model(s: Option<String>) -> Option<Seq<char>> {
    match s {
        Some(x) => Some(x@),
        None => None,
    }
}

/// Model of the `values` field read so far.
spec fn values_model(v: Option<KeyMap<InputScalarValue>>) -> Option<Seq<(Seq<char>, crate::input::ScalarModel)>> {
    match v {
        Some(m) => Some(scalars_model(m.pairs())),
        None => None,
    }
}

/// What the envelope's fields make of a document of `len` bytes.
fn finish_envelope(schema: Option<String>, values: Option<KeyMap<InputScalarValue>>, len: usize) -> (r: Result<InputShard, InputDecodeError>)
    ensures
        match envelope_finish(Ok((schema_model(schema), values_model(values), 0)), len as int) {
            Ok((m, _)) => r matches Ok(x) && x@ == m,
            Err(f) => r matches Err(e) && e@ == f,
        },
{
    match schema {
        None => Err(InputDecodeError::MissingField("schema")),
        Some(s) => match values {
            None => Err(InputDecodeError::MissingField("values")),
            Some(v) => Ok(InputShard::from_parts(s, v, len)),
        },
    }
}

/// Reads the document a byte position at a time.
struct StrictJsonParser<'a> {
    text: &'a str,
    bytes: &'a [u8],
    pos: usize,
    limits: &'a InputLimits,
    depth: usize,
}

impl<'a> StrictJsonParser<'a> {
    /// Position within the bytes, and the rest is valid UTF-8.
    spec fn inv(&self) -> bool {
        &&& self.bytes@.len() <= usize::MAX
        &&& self.pos <= self.bytes@.len()
        &&& valid_utf8(self.bytes@.subrange(self.pos as int, self.bytes@.len() as int))
    }

    /// Everything but the position and depth is as in `other`.
    spec fn same_doc(&self, other: &Self) -> bool {
        &&& self.bytes@ == other.bytes@
        &&& *self.limits == *other.limits
    }

    fn new(text: &'a str, limits: &'a InputLimits) -> (p: Self)
        ensures
            p.inv(),
            p.pos == 0,
            p.depth == 0,
            p.bytes@ == text.spec_bytes(),
            *p.limits == *limits,
    {
        let bytes = text.as_bytes();
        let _n = bytes.len();
        proof {
            encode_utf8_valid_utf8(text@);
            assert(bytes@.subrange(0, bytes@.len() as int) =~= bytes@);
        }
        StrictJsonParser { text, bytes, pos: 0, limits, depth: 0 }
    }

    /// Step over the ASCII byte at the position.
    fn step(&mut self)
        requires
            old(self).inv(),
            old(self).pos < old(self).bytes@.len(),
            old(self).bytes@[old(self).pos as int] < 0x80,
        ensures
            final(self).inv(),
            final(self).same_doc(old(self)),
            final(self).depth == old(self).depth,
            final(self).pos == old(self).pos + 1,
    {
        proof {
            lemma_ascii_step(self.bytes@, self.pos as int);
        }
        self.pos = self.pos + 1;
    }

    fn enter_depth(&mut self) -> (r: Result<(), InputDecodeError>)
        ensures
            final(self).same_doc(old(self)),
            final(self).pos == old(self).pos,
            old(self).depth >= old(self).limits.max_depth ==> (r matches Err(e) && e@ == too_deep()),
            old(self).depth < old(self).limits.max_depth ==> r is Ok && final(self).depth == old(
                self,
            ).depth + 1,
    {
        if self.depth >= self.limits.max_depth {
            return Err(InputDecodeError::LimitExceeded("JSON nesting depth limit"));
        }
        self.depth = self.depth + 1;
        Ok(())
    }

    fn leave_depth(&mut self)
        ensures
            final(self).same_doc(old(self)),
            final(self).pos == old(self).pos,
            final(self).depth == (if old(self).depth > 0 {
                old(self).depth - 1
            } else {
                0
            }),
    {
        self.depth = if self.depth > 0 {
            self.depth - 1
        } else {
            0
        };
    }

    fn skip_whitespace(&mut self)
        requires
            old(self).inv(),
        ensures
            final(self).pos >= old(self).pos,
            final(self).inv(),
            final(self).same_doc(old(self)),
            final(self).depth == old(self).depth,
            final(self).pos == ws(old(self).bytes@, old(self).pos as int),
    {
        loop
            invariant
                self.inv(),
                self.same_doc(old(self)),
                self.depth == old(self).depth,
                ws(self.bytes@, old(self).pos as int) == ws(self.bytes@, self.pos as int),
                self.pos >= old(self).pos,
            decreases self.bytes@.len() - self.pos,
        {
            if self.pos >= self.bytes.len() {
                return;
            }
            let c = self.bytes[self.pos];
            if !(c == 0x20 || c == 0x09 || c == 0x0d || c == 0x0a) {
                return;
            }
            self.step();
        }
    }

    fn peek(&self) -> (r: Option<u8>)
        ensures
            r == at(self.bytes@, self.pos as int),
    {
        if self.pos < self.bytes.len() {
            Some(self.bytes[self.pos])
        } else {
            None
        }
    }

    fn consume(&mut self, expected: u8, ctx: &'static str) -> (r: Result<(), InputDecodeError>)
        requires
            old(self).inv(),
            expected < 0x80,
        ensures
            final(self).pos >= old(self).pos,
            final(self).same_doc(old(self)),
            final(self).depth == old(self).depth,
            match expect(old(self).bytes@, old(self).pos as int, expected, ctx@) {
                Ok(p) => r is Ok && final(self).pos == p && final(self).inv(),
                Err(f) => r matches Err(e) && e@ == f,
            },
    {
        self.skip_whitespace();
        match self.peek() {
            Some(c) => {
                if c == expected {
                    self.step();
                    Ok(())
                } else {
                    let mut m = byte_message("expected '", expected, "' for ");
                    m.append(ctx);
                    let tail = byte_message(", found '", c, "'");
                    m.append(tail.as_str());
                    proof {
                        assert(m@ =~= "expected '"@ + shown(expected) + "' for "@ + ctx@ + ", found '"@
                            + shown(c) + "'"@);
                    }
                    Err(InputDecodeError::SyntaxError { message: m, offset: self.pos })
                }
            },
            None => Err(InputDecodeError::UnexpectedEof),
        }
    }

    fn consume_exact(&mut self, expected: &[u8], ctx: &'static str) -> (r: Result<(), InputDecodeError>)
        requires
            old(self).inv(),
            forall|i: int| 0 <= i < expected@.len() ==> #[trigger] expected@[i] < 0x80,
        ensures
            final(self).pos >= old(self).pos,
            final(self).same_doc(old(self)),
            final(self).depth == old(self).depth,
            match exact(old(self).bytes@, old(self).pos as int, expected@, ctx@) {
                Ok(p) => r is Ok && final(self).pos == p && final(self).inv(),
                Err(f) => r matches Err(e) && e@ == f,
            },
    {
        if expected.len() > self.bytes.len() || self.pos > self.bytes.len() - expected.len() {
            return Err(InputDecodeError::UnexpectedEof);
        }
        let mut i: usize = 0;
        while i < expected.len()
            invariant
                i <= expected@.len(),
                self.bytes@.len() <= usize::MAX,
                self.pos + expected@.len() <= self.bytes@.len(),
                forall|j: int| 0 <= j < i ==> self.bytes@[self.pos + j] == #[trigger] expected@[j],
            decreases expected@.len() - i,
        {
            if self.bytes[self.pos + i] != expected[i] {
                proof {
                    assert(self.bytes@.subrange(self.pos as int, self.pos + expected@.len())[i as int]
                        != expected@[i as int]);
                }
                return Err(
                    InputDecodeError::SyntaxError {
                        message: crate::text::join2("expected ", ctx),
                        offset: self.pos,
                    },
                );
            }
            i = i + 1;
        }
        proof {
            assert(self.bytes@.subrange(self.pos as int, self.pos + expected@.len()) =~= expected@);
        }
        let n = expected.len();
        let mut k: usize = 0;
        let ghost p0 = self.pos;
        while k < n
            invariant
                n == expected@.len(),
                k <= n,
                self.inv(),
                self.same_doc(old(self)),
                self.depth == old(self).depth,
                self.pos == p0 + k,
                p0 + n <= self.bytes@.len(),
                forall|j: int| 0 <= j < n ==> self.bytes@[p0 + j] == #[trigger] expected@[j],
                forall|j: int| 0 <= j < expected@.len() ==> #[trigger] expected@[j] < 0x80,
            decreases n - k,
        {
            proof {
                assert(self.bytes@[p0 + k] == expected@[k as int]);
            }
            self.step();
            k = k + 1;
        }
        Ok(())
    }

    /// The character at the position and the length of its encoding.
    fn decode_at(&self) -> (r: (char, usize))
        requires
            self.inv(),
            self.pos < self.bytes@.len(),
        ensures
            r.0 == decode_first_scalar(self.bytes@.subrange(self.pos as int, self.bytes@.len() as int))
                as char,
            r.1 == length_of_first_scalar(self.bytes@.subrange(self.pos as int, self.bytes@.len() as int)),
    {
        let ghost rest = self.bytes@.subrange(self.pos as int, self.bytes@.len() as int);
        proof {
            lemma_scalar_step(self.bytes@, self.pos as int);
            lemma_first_scalar(rest);
        }
        let p = self.pos;
        let b0 = self.bytes[p];
        let (code, w): (u32, usize) = if b0 <= 0x7f {
            ((b0 & 0x7f) as u32, 1)
        } else if 0xc0 <= b0 && b0 <= 0xdf {
            let b1 = self.bytes[p + 1];
            ((((b0 & 0x1f) as u32) << 6u32) | ((b1 & 0x3f) as u32), 2)
        } else if 0xe0 <= b0 && b0 <= 0xef {
            let b1 = self.bytes[p + 1];
            let b2 = self.bytes[p + 2];
            (
                (((b0 & 0x0f) as u32) << 12u32) | (((b1 & 0x3f) as u32) << 6u32) | ((b2 & 0x3f) as u32),
                3,
            )
        } else {
            let b1 = self.bytes[p + 1];
            let b2 = self.bytes[p + 2];
            let b3 = self.bytes[p + 3];
            (
                (((b0 & 0x07) as u32) << 18u32) | (((b1 & 0x3f) as u32) << 12u32) | (((b2 & 0x3f) as u32)
                    << 6u32) | ((b3 & 0x3f) as u32),
                4,
            )
        };
        proof {
            assert(rest[0] == b0);
            assert(code == decode_first_scalar(rest));
        }
        match char_from_scalar(code) {
            Some(c) => (c, w),
            None => {
                proof {
                    assert(false);
                }
                ('\u{fffd}', w)
            },
        }
    }

    /// Step over `n` ASCII bytes.
    fn step_ascii(&mut self, n: usize)
        requires
            old(self).inv(),
            old(self).pos + n <= old(self).bytes@.len(),
            forall|i: int|
                old(self).pos <= i < old(self).pos + n ==> #[trigger] old(self).bytes@[i] < 0x80,
        ensures
            final(self).inv(),
            final(self).same_doc(old(self)),
            final(self).depth == old(self).depth,
            final(self).pos == old(self).pos + n,
    {
        let mut k: usize = 0;
        while k < n
            invariant
                k <= n,
                self.inv(),
                self.same_doc(old(self)),
                self.depth == old(self).depth,
                self.pos == old(self).pos + k,
                old(self).pos + n <= self.bytes@.len(),
                forall|i: int|
                    old(self).pos <= i < old(self).pos + n ==> #[trigger] self.bytes@[i] < 0x80,
            decreases n - k,
        {
            self.step();
            k = k + 1;
        }
    }

    /// A `\u` escape whose hex digits start at the position.
    fn parse_unicode_escape(&mut self) -> (r: Result<char, InputDecodeError>)
        requires
            old(self).inv(),
            old(self).pos >= 2,
        ensures
            final(self).pos >= old(self).pos,
            final(self).same_doc(old(self)),
            final(self).depth == old(self).depth,
            match unicode_escape(old(self).bytes@, old(self).pos as int) {
                Ok((c, p)) => (r matches Ok(x) && x == c) && final(self).pos == p && final(self).inv(),
                Err(f) => r matches Err(e) && e@ == f,
            },
    {
        let ghost b = self.bytes@;
        let ghost p0 = self.pos as int;
        if self.bytes.len() - self.pos < 4 {
            return Err(InputDecodeError::UnexpectedEof);
        }
        let code = match parse_hex_4(vstd::slice::slice_subrange(self.bytes, self.pos, self.pos + 4)) {
            None => {
                return Err(
                    InputDecodeError::SyntaxError {
                        message: owned("invalid hex digits in \\u escape"),
                        offset: self.pos,
                    },
                );
            },
            Some(v) => v,
        };
        proof {
            let s = b.subrange(p0, p0 + 4);
            lemma_hex_ascii(s, 4);
            assert forall|i: int| p0 <= i < p0 + 4 implies #[trigger] b[i] < 0x80 by {
                assert(s[i - p0] == b[i]);
            }
        }
        self.step_ascii(4);
        if 0xd800 <= code && code <= 0xdbff {
            if self.bytes.len() - self.pos < 2 || self.bytes[self.pos] != 0x5c || self.bytes[self.pos + 1]
                != 0x75 {
                return Err(
                    InputDecodeError::SyntaxError {
                        message: owned(
                            "lone high surrogate in \\u escape without trailing low surrogate",
                        ),
                        offset: self.pos - 6,
                    },
                );
            }
            self.step();
            self.step();
            if self.bytes.len() - self.pos < 4 {
                return Err(InputDecodeError::UnexpectedEof);
            }
            let low = match parse_hex_4(
                vstd::slice::slice_subrange(self.bytes, self.pos, self.pos + 4),
            ) {
                None => {
                    return Err(
                        InputDecodeError::SyntaxError {
                            message: owned("invalid hex digits in low surrogate \\u escape"),
                            offset: self.pos,
                        },
                    );
                },
                Some(v) => v,
            };
            proof {
                let s = b.subrange(p0 + 6, p0 + 10);
                lemma_hex_ascii(s, 4);
                assert forall|i: int| p0 + 6 <= i < p0 + 10 implies #[trigger] b[i] < 0x80 by {
                    assert(s[i - p0 - 6] == b[i]);
                }
            }
            self.step_ascii(4);
            if !(0xdc00 <= low && low <= 0xdfff) {
                let mut m = owned("invalid low surrogate 0x");
                let lt = hex4_upper(low);
                m.append(lt.as_str());
                m.append(" following high surrogate 0x");
                let ct = hex4_upper(code);
                m.append(ct.as_str());
                proof {
                    assert(m@ =~= "invalid low surrogate 0x"@ + hex4_text(low as int)
                        + " following high surrogate 0x"@ + hex4_text(code as int));
                }
                return Err(InputDecodeError::SyntaxError { message: m, offset: self.pos - 6 });
            }
            let scalar: u32 = 0x10000 + ((code - 0xd800) as u32) * 1024 + ((low - 0xdc00) as u32);
            match char_from_scalar(scalar) {
                Some(c) => Ok(c),
                None => {
                    proof {
                        assert(false);
                    }
                    Err(InputDecodeError::UnexpectedEof)
                },
            }
        } else if 0xdc00 <= code && code <= 0xdfff {
            let mut m = owned("lone low surrogate 0x");
            let ct = hex4_upper(code);
            m.append(ct.as_str());
            m.append(" in \\u escape");
            proof {
                assert(m@ =~= "lone low surrogate 0x"@ + hex4_text(code as int) + " in \\u escape"@);
            }
            Err(InputDecodeError::SyntaxError { message: m, offset: self.pos - 6 })
        } else {
            match char_from_scalar(code as u32) {
                Some(c) => Ok(c),
                None => {
                    proof {
                        assert(false);
                    }
                    Err(InputDecodeError::UnexpectedEof)
                },
            }
        }
    }

    /// One step of a quoted text: the closing quote, or one character
    /// appended to `s`; `Ok(true)` once the text is closed.
    #[verifier::rlimit(40)]
    fn scan_one(&mut self, s: &mut String, start: usize, max_len: usize, name: bool) -> (r: Result<bool, InputDecodeError>)
        requires
            old(self).inv(),
        ensures
            final(self).same_doc(old(self)),
            final(self).depth == old(self).depth,
            final(self).pos >= old(self).pos,
            match r {
                Ok(true) => text_scan(old(self).bytes@, old(self).pos as int, start as int, old(s)@, max_len, name)
                    == Ok::<(Seq<char>, int), DecodeFault>((final(s)@, final(self).pos as int)) && final(self).inv(),
                Ok(false) => text_scan(old(self).bytes@, old(self).pos as int, start as int, old(s)@, max_len, name)
                    == text_scan(old(self).bytes@, final(self).pos as int, start as int, final(s)@, max_len, name)
                    && final(self).pos > old(self).pos && final(self).inv(),
                Err(e) => text_scan(old(self).bytes@, old(self).pos as int, start as int, old(s)@, max_len, name)
                    == Err::<(Seq<char>, int), DecodeFault>(e@),
            },
    {
        if self.pos >= self.bytes.len() {
            let msg = if name {
                owned("unterminated string literal in input name")
            } else {
                owned("unterminated string literal")
            };
            return Err(InputDecodeError::SyntaxError { message: msg, offset: start });
        }
        let c = self.bytes[self.pos];
        if c == 0x22 {
            self.step();
            return Ok(true);
        } else if c == 0x5c {
            if self.bytes.len() - self.pos < 2 {
                return Err(InputDecodeError::UnexpectedEof);
            }
            let e = self.bytes[self.pos + 1];
            match escape_of(e) {
                Some(ch) => {
                    self.step();
                    self.step_ascii(1);
                    push_char(s, ch);
                },
                None => {
                    if e == 0x75 {
                        self.step();
                        self.step();
                        let u = self.parse_unicode_escape();
                        match u {
                            Err(f) => {
                                return Err(f);
                            },
                            Ok(ch) => {
                                push_char(s, ch);
                            },
                        }
                    } else {
                        let msg = byte_message("unrecognized escape character '\\", e, "'");
                        return Err(InputDecodeError::SyntaxError { message: msg, offset: self.pos + 1 });
                    }
                },
            }
        } else if c < 0x20 {
            let msg = if name {
                owned("control character in input name")
            } else {
                owned("control character in string literal")
            };
            return Err(InputDecodeError::SyntaxError { message: msg, offset: self.pos });
        } else {
            let (ch, w) = self.decode_at();
            proof {
                lemma_scalar_step(self.bytes@, self.pos as int);
            }
            self.pos = self.pos + w;
            push_char(s, ch);
        }
        let n = text_len(s.as_str());
        if n > max_len {
            if name {
                return Err(InputDecodeError::NameTooLong { limit: max_len });
            } else {
                return Err(InputDecodeError::StringValueTooLong { limit: max_len, found: n });
            }
        }
        Ok(false)
    }

    /// The body of a quoted text from just past its opening quote.
    fn scan_text(&mut self, max_len: usize, name: bool) -> (r: Result<String, InputDecodeError>)
        requires
            old(self).inv(),
            old(self).pos >= 1,
        ensures
            final(self).same_doc(old(self)),
            final(self).depth == old(self).depth,
            final(self).pos >= old(self).pos,
            match text_scan(old(self).bytes@, old(self).pos as int, old(self).pos as int, Seq::empty(), max_len, name) {
                Ok((s, p)) => (r matches Ok(x) && x@ == s) && final(self).pos == p && final(self).inv(),
                Err(f) => r matches Err(e) && e@ == f,
            },
    {
        let ghost b = self.bytes@;
        let start = self.pos;
        let mut s = String::new();
        loop
            invariant
                self.inv(),
                self.same_doc(old(self)),
                self.depth == old(self).depth,
                b == self.bytes@,
                b == old(self).bytes@,
                start == old(self).pos,
                self.pos >= start,
                text_scan(b, start as int, start as int, Seq::empty(), max_len, name) == text_scan(
                    b,
                    self.pos as int,
                    start as int,
                    s@,
                    max_len,
                    name,
                ),
            decreases self.bytes@.len() - self.pos,
        {
            let done = self.scan_one(&mut s, start, max_len, name);
            match done {
                Err(e) => {
                    return Err(e);
                },
                Ok(true) => {
                    return Ok(s);
                },
                Ok(false) => {},
            }
        }
    }

    /// A quoted text after whitespace, at most `max_len` bytes long.
    fn parse_string(&mut self, max_len: usize) -> (r: Result<String, InputDecodeError>)
        requires
            old(self).inv(),
        ensures
            final(self).pos >= old(self).pos,
            final(self).same_doc(old(self)),
            final(self).depth == old(self).depth,
            match quoted_text(old(self).bytes@, old(self).pos as int, max_len) {
                Ok((s, p)) => (r matches Ok(x) && x@ == s) && final(self).pos == p && final(self).inv(),
                Err(f) => r matches Err(e) && e@ == f,
            },
    {
        proof {
            reveal(quoted_text);
        }
        self.skip_whitespace();
        if self.peek() != Some(0x22u8) {
            return Err(
                InputDecodeError::SyntaxError {
                    message: owned("expected opening quote '\"'"),
                    offset: self.pos,
                },
            );
        }
        self.step();
        self.scan_text(max_len, false)
    }

    /// An input name after whitespace: a quoted identifier.
    fn parse_input_name(&mut self) -> (r: Result<String, InputDecodeError>)
        requires
            old(self).inv(),
        ensures
            final(self).pos >= old(self).pos,
            final(self).same_doc(old(self)),
            final(self).depth == old(self).depth,
            match input_name(old(self).bytes@, *old(self).limits, old(self).pos as int) {
                Ok((s, p)) => (r matches Ok(x) && x@ == s) && final(self).pos == p && final(self).inv(),
                Err(f) => r matches Err(e) && e@ == f,
            },
    {
        proof {
            reveal(input_name);
        }
        self.skip_whitespace();
        if self.peek() != Some(0x22u8) {
            return Err(
                InputDecodeError::SyntaxError {
                    message: owned("expected opening quote '\"'"),
                    offset: self.pos,
                },
            );
        }
        self.step();
        let s = self.scan_text(self.limits.max_name_bytes, true);
        let s = match s {
            Err(f) => return Err(f),
            Ok(s) => s,
        };
        let v = validate_identifier(s.as_str(), self.limits.max_name_bytes);
        if let Err(f) = v {
            return Err(f);
        }
        Ok(s)
    }

    /// Step over the digits at the position.
    fn skip_digits(&mut self)
        requires
            old(self).inv(),
        ensures
            final(self).inv(),
            final(self).same_doc(old(self)),
            final(self).depth == old(self).depth,
            final(self).pos == digits_end(old(self).bytes@, old(self).pos as int),
            final(self).pos >= old(self).pos,
    {
        loop
            invariant
                self.inv(),
                self.same_doc(old(self)),
                self.depth == old(self).depth,
                self.pos >= old(self).pos,
                digits_end(self.bytes@, old(self).pos as int) == digits_end(self.bytes@, self.pos as int),
            decreases self.bytes@.len() - self.pos,
        {
            if self.pos >= self.bytes.len() {
                return;
            }
            let c = self.bytes[self.pos];
            if !(0x30 <= c && c <= 0x39) {
                return;
            }
            self.step();
        }
    }

    /// The exponent part of a number, if any.
    fn number_exponent_part(&mut self) -> (r: Result<(), InputDecodeError>)
        requires
            old(self).inv(),
        ensures
            final(self).same_doc(old(self)),
            final(self).depth == old(self).depth,
            final(self).pos >= old(self).pos,
            match number_exponent(old(self).bytes@, old(self).pos as int) {
                Ok(p) => r is Ok && final(self).pos == p && final(self).inv(),
                Err(f) => r matches Err(e) && e@ == f,
            },
    {
        let c = self.peek();
        if c == Some(0x65u8) || c == Some(0x45u8) {
            self.step();
            let s = self.peek();
            if s == Some(0x2bu8) || s == Some(0x2du8) {
                self.step();
            }
            match self.peek() {
                Some(d) => {
                    if 0x30 <= d && d <= 0x39 {
                        self.step();
                        self.skip_digits();
                        Ok(())
                    } else {
                        Err(
                            InputDecodeError::SyntaxError {
                                message: owned("expected digit in exponent of JSON number"),
                                offset: self.pos,
                            },
                        )
                    }
                },
                None => Err(InputDecodeError::UnexpectedEof),
            }
        } else {
            Ok(())
        }
    }

    /// A JSON number at the position.
    fn parse_json_number(&mut self) -> (r: Result<(), InputDecodeError>)
        requires
            old(self).inv(),
        ensures
            final(self).same_doc(old(self)),
            final(self).depth == old(self).depth,
            final(self).pos >= old(self).pos,
            match number_end(old(self).bytes@, old(self).pos as int) {
                Ok(p) => r is Ok && final(self).pos == p && final(self).inv(),
                Err(f) => r matches Err(e) && e@ == f,
            },
    {
        if self.peek() == Some(0x2du8) {
            self.step();
        }
        match self.peek() {
            Some(c) => {
                if c == 0x30 {
                    self.step();
                    match self.peek() {
                        Some(d) => {
                            if 0x30 <= d && d <= 0x39 {
                                return Err(
                                    InputDecodeError::SyntaxError {
                                        message: owned("leading zero in JSON number"),
                                        offset: self.pos,
                                    },
                                );
                            }
                        },
                        None => {},
                    }
                } else if 0x31 <= c && c <= 0x39 {
                    self.step();
                    self.skip_digits();
                } else {
                    return Err(
                        InputDecodeError::SyntaxError {
                            message: owned("expected digit in JSON number"),
                            offset: self.pos,
                        },
                    );
                }
            },
            None => {
                return Err(InputDecodeError::UnexpectedEof);
            },
        }
        if self.peek() == Some(0x2eu8) {
            self.step();
            match self.peek() {
                Some(d) => {
                    if 0x30 <= d && d <= 0x39 {
                        self.step();
                        self.skip_digits();
                    } else {
                        return Err(
                            InputDecodeError::SyntaxError {
                                message: owned("expected digit after decimal point in JSON number"),
                                offset: self.pos,
                            },
                        );
                    }
                },
                None => {
                    return Err(InputDecodeError::UnexpectedEof);
                },
            }
        }
        self.number_exponent_part()
    }

    /// Skip an array whose `[` is at the position.
    #[verifier::rlimit(50)]
    fn skip_array(&mut self) -> (r: Result<(), InputDecodeError>)
        requires
            old(self).inv(),
            at(old(self).bytes@, old(self).pos as int) == Some(0x5bu8),
        ensures
            final(self).same_doc(old(self)),
            final(self).pos >= old(self).pos,
            match skip_array(old(self).bytes@, *old(self).limits, old(self).pos as int, old(self).depth as int) {
                Ok(p) => r is Ok && final(self).pos == p && final(self).inv() && final(self).depth == old(self).depth,
                Err(f) => r matches Err(e) && e@ == f,
            },
        decreases old(self).bytes@.len() - old(self).pos, 0nat,
    {
        let ghost b = self.bytes@;
        let ghost lim = *self.limits;
        let ghost d0 = self.depth;
        let ghost p0 = self.pos;
        let ed = self.enter_depth();
        if let Err(f) = ed {
            return Err(f);
        }
        self.step();
        loop
            invariant
                self.inv(),
                self.same_doc(old(self)),
                b == self.bytes@,
                lim == *self.limits,
                self.depth == d0 + 1,
                p0 == old(self).pos,
                d0 == old(self).depth,
                self.pos > p0,
                skip_array(b, lim, p0 as int, d0 as int) == array_rest(b, lim, self.pos as int, self.depth as int),
            decreases self.bytes@.len() - self.pos,
        {
            let ghost p = self.pos as int;
            self.skip_whitespace();
            proof {
                lemma_ws_ge(b, p);
            }
            match self.peek() {
                Some(c) => {
                    if c == 0x5d {
                        self.step();
                        self.leave_depth();
                        return Ok(());
                    }
                    let v = self.skip_any_value();
                    if let Err(f) = v {
                        return Err(f);
                    }
                    self.skip_whitespace();
                    match self.peek() {
                        Some(d) => {
                            if d == 0x2c {
                                self.step();
                            } else if d == 0x5d {
                                self.step();
                                self.leave_depth();
                                return Ok(());
                            } else {
                                let msg = byte_message("expected ',' or ']' in array, found '", d, "'");
                                return Err(InputDecodeError::SyntaxError { message: msg, offset: self.pos });
                            }
                        },
                        None => {
                            return Err(InputDecodeError::UnexpectedEof);
                        },
                    }
                },
                None => {
                    return Err(InputDecodeError::UnexpectedEof);
                },
            }
        }
    }

    /// Skip an object whose `{` is at the position.
    #[verifier::rlimit(50)]
    fn skip_object(&mut self) -> (r: Result<(), InputDecodeError>)
        requires
            old(self).inv(),
            at(old(self).bytes@, old(self).pos as int) == Some(0x7bu8),
        ensures
            final(self).same_doc(old(self)),
            final(self).pos >= old(self).pos,
            match skip_object(old(self).bytes@, *old(self).limits, old(self).pos as int, old(self).depth as int) {
                Ok(p) => r is Ok && final(self).pos == p && final(self).inv() && final(self).depth == old(self).depth,
                Err(f) => r matches Err(e) && e@ == f,
            },
        decreases old(self).bytes@.len() - old(self).pos, 0nat,
    {
        let ghost b = self.bytes@;
        let ghost lim = *self.limits;
        let ghost d0 = self.depth;
        let ghost p0 = self.pos;
        let ed = self.enter_depth();
        if let Err(f) = ed {
            return Err(f);
        }
        self.step();
        loop
            invariant
                self.inv(),
                self.same_doc(old(self)),
                b == self.bytes@,
                lim == *self.limits,
                self.depth == d0 + 1,
                p0 == old(self).pos,
                d0 == old(self).depth,
                self.pos > p0,
                skip_object(b, lim, p0 as int, d0 as int) == object_rest(b, lim, self.pos as int, self.depth as int),
            decreases self.bytes@.len() - self.pos,
        {
            let ghost p = self.pos as int;
            self.skip_whitespace();
            proof {
                lemma_ws_ge(b, p);
            }
            match self.peek() {
                Some(c) => {
                    if c == 0x7d {
                        self.step();
                        self.leave_depth();
                        return Ok(());
                    } else if c == 0x22 {
                        let k = self.parse_string(self.limits.max_string_value_bytes);
                        if let Err(f) = k {
                            return Err(f);
                        }
                        let s = self.consume(0x3a, "object key separator");
                        if let Err(f) = s {
                            return Err(f);
                        }
                        let v = self.skip_any_value();
                        if let Err(f) = v {
                            return Err(f);
                        }
                        self.skip_whitespace();
                        match self.peek() {
                            Some(d) => {
                                if d == 0x2c {
                                    self.step();
                                } else if d == 0x7d {
                                    self.step();
                                    self.leave_depth();
                                    return Ok(());
                                } else {
                                    let msg = byte_message("expected ',' or '}' in object, found '", d, "'");
                                    return Err(InputDecodeError::SyntaxError { message: msg, offset: self.pos });
                                }
                            },
                            None => {
                                return Err(InputDecodeError::UnexpectedEof);
                            },
                        }
                    } else {
                        let msg = byte_message("expected string key or '}' in object, found '", c, "'");
                        return Err(InputDecodeError::SyntaxError { message: msg, offset: self.pos });
                    }
                },
                None => {
                    return Err(InputDecodeError::UnexpectedEof);
                },
            }
        }
    }

    /// Skip any JSON value after whitespace.
    fn skip_any_value(&mut self) -> (r: Result<(), InputDecodeError>)
        requires
            old(self).inv(),
        ensures
            final(self).same_doc(old(self)),
            final(self).pos >= old(self).pos,
            match skip_value(old(self).bytes@, *old(self).limits, old(self).pos as int, old(self).depth as int) {
                Ok(p) => r is Ok && final(self).pos == p && final(self).inv() && final(self).depth == old(self).depth,
                Err(f) => r matches Err(e) && e@ == f,
            },
        decreases old(self).bytes@.len() - old(self).pos, 1nat,
    {
        let ghost p = self.pos as int;
        self.skip_whitespace();
        proof {
            lemma_ws_ge(self.bytes@, p);
        }
        match self.peek() {
            Some(c) => {
                if c == 0x22 {
                    let s = self.parse_string(self.limits.max_string_value_bytes);
                    match s {
                        Err(f) => Err(f),
                        Ok(_) => Ok(()),
                    }
                } else if c == 0x74 {
                    let w: [u8; 4] = [0x74, 0x72, 0x75, 0x65];
                    proof { assert(w@ =~= word_true()); }
                    self.consume_exact(&w, "boolean true")
                } else if c == 0x66 {
                    let w: [u8; 5] = [0x66, 0x61, 0x6c, 0x73, 0x65];
                    proof { assert(w@ =~= word_false()); }
                    self.consume_exact(&w, "boolean false")
                } else if c == 0x6e {
                    let w: [u8; 4] = [0x6e, 0x75, 0x6c, 0x6c];
                    proof { assert(w@ =~= word_null()); }
                    self.consume_exact(&w, "null")
                } else if c == 0x5b {
                    self.skip_array()
                } else if c == 0x7b {
                    self.skip_object()
                } else if c == 0x2d || (0x30 <= c && c <= 0x39) {
                    self.parse_json_number()
                } else {
                    let msg = byte_message("unexpected value token '", c, "'");
                    Err(InputDecodeError::SyntaxError { message: msg, offset: self.pos })
                }
            },
            None => Err(InputDecodeError::UnexpectedEof),
        }
    }

    /// The word `true`, `false` or `null` whose first byte `c` is at the
    /// position.
    fn parse_raw_word(&mut self, c: u8) -> (r: Result<RawValue, InputDecodeError>)
        requires
            old(self).inv(),
        ensures
            final(self).same_doc(old(self)),
            final(self).depth == old(self).depth,
            final(self).pos >= old(self).pos,
            match raw_word(old(self).bytes@, old(self).pos as int, c) {
                Ok((v, p)) => (r matches Ok(x) && x@ == v) && final(self).pos == p && final(self).inv(),
                Err(f) => r matches Err(e) && e@ == f,
            },
    {
        if c == 0x74 {
            let w: [u8; 4] = [0x74, 0x72, 0x75, 0x65];
            proof {
                assert(w@ =~= word_true());
            }
            match self.consume_exact(&w, "boolean true") {
                Err(f) => Err(f),
                Ok(()) => Ok(RawValue::Bool(true)),
            }
        } else if c == 0x66 {
            let w: [u8; 5] = [0x66, 0x61, 0x6c, 0x73, 0x65];
            proof {
                assert(w@ =~= word_false());
            }
            match self.consume_exact(&w, "boolean false") {
                Err(f) => Err(f),
                Ok(()) => Ok(RawValue::Bool(false)),
            }
        } else {
            let w: [u8; 4] = [0x6e, 0x75, 0x6c, 0x6c];
            proof {
                assert(w@ =~= word_null());
            }
            match self.consume_exact(&w, "null") {
                Err(f) => Err(f),
                Ok(()) => Ok(RawValue::Null),
            }
        }
    }

    /// An array (when `c` is `[`) or an object at the position, skipped.
    fn parse_raw_container(&mut self, c: u8) -> (r: Result<RawValue, InputDecodeError>)
        requires
            old(self).inv(),
            c == 0x5b || c == 0x7b,
            at(old(self).bytes@, old(self).pos as int) == Some(c),
        ensures
            final(self).same_doc(old(self)),
            final(self).pos >= old(self).pos,
            match raw_container(old(self).bytes@, *old(self).limits, old(self).pos as int, old(self).depth as int, c) {
                Ok((v, p)) => (r matches Ok(x) && x@ == v) && final(self).pos == p && final(self).inv()
                    && final(self).depth == old(self).depth,
                Err(f) => r matches Err(e) && e@ == f,
            },
    {
        if c == 0x5b {
            match self.skip_array() {
                Err(f) => Err(f),
                Ok(()) => Ok(RawValue::Array),
            }
        } else {
            match self.skip_object() {
                Err(f) => Err(f),
                Ok(()) => Ok(RawValue::Object),
            }
        }
    }

    /// The `value` field of a tagged value.
    fn parse_raw_scalar_field(&mut self) -> (r: Result<RawValue, InputDecodeError>)
        requires
            old(self).inv(),
        ensures
            final(self).same_doc(old(self)),
            final(self).pos >= old(self).pos,
            match raw_scalar(old(self).bytes@, *old(self).limits, old(self).pos as int, old(self).depth as int) {
                Ok((v, p)) => (r matches Ok(x) && x@ == v) && final(self).pos == p && final(self).inv()
                    && final(self).depth == old(self).depth,
                Err(f) => r matches Err(e) && e@ == f,
            },
    {
        proof {
            reveal(raw_scalar);
        }
        let ghost p = self.pos as int;
        self.skip_whitespace();
        proof {
            lemma_ws_ge(self.bytes@, p);
        }
        match self.peek() {
            Some(c) => {
                if c == 0x22 {
                    match self.parse_string(self.limits.max_string_value_bytes) {
                        Err(f) => Err(f),
                        Ok(s) => Ok(RawValue::String(s)),
                    }
                } else if c == 0x74 || c == 0x66 || c == 0x6e {
                    self.parse_raw_word(c)
                } else if c == 0x5b || c == 0x7b {
                    self.parse_raw_container(c)
                } else if c == 0x2d || (0x30 <= c && c <= 0x39) {
                    match self.parse_json_number() {
                        Err(f) => Err(f),
                        Ok(()) => Ok(RawValue::Number),
                    }
                } else {
                    let msg = byte_message("unexpected scalar value byte '", c, "'");
                    Err(InputDecodeError::SyntaxError { message: msg, offset: self.pos })
                }
            },
            None => Err(InputDecodeError::UnexpectedEof),
        }
    }

    /// A tagged value `{"type": ..., "value": ...}`.
    #[verifier::rlimit(40)]
    fn parse_tagged_value(&mut self) -> (r: Result<InputScalarValue, InputDecodeError>)
        requires
            old(self).inv(),
        ensures
            final(self).same_doc(old(self)),
            final(self).pos >= old(self).pos,
            match tagged_value(old(self).bytes@, *old(self).limits, old(self).pos as int, old(self).depth as int) {
                Ok((s, p)) => (r matches Ok(x) && x@ == s) && final(self).pos == p && final(self).inv()
                    && final(self).depth == old(self).depth,
                Err(f) => r matches Err(e) && e@ == f,
            },
    {
        let ghost b = self.bytes@;
        let ghost lim = *self.limits;
        let ghost d0 = self.depth;
        let ghost p0 = self.pos;
        let ed = self.enter_depth();
        if let Err(f) = ed {
            return Err(f);
        }
        let c = self.consume(0x7b, "tagged value object");
        if let Err(f) = c {
            return Err(f);
        }
        self.skip_whitespace();
        if self.peek() == Some(0x7du8) {
            self.step();
            self.leave_depth();
            return Err(InputDecodeError::MissingField("type"));
        }
        let mut seen: Vec<String> = Vec::new();
        let mut raw_type: Option<(String, usize)> = None;
        let mut raw_value: Option<RawValue> = None;
        proof {
            assert(names(seen@) =~= Seq::<Seq<char>>::empty());
        }
        loop
            invariant
                self.inv(),
                self.same_doc(old(self)),
                b == self.bytes@,
                b == old(self).bytes@,
                lim == *self.limits,
                lim == *old(self).limits,
                d0 == old(self).depth,
                p0 == old(self).pos,
                self.depth == d0 + 1,
                self.pos >= p0,
                tagged_value(b, lim, p0 as int, d0 as int) == tagged_finish(
                    tagged_fields(
                        b,
                        lim,
                        self.pos as int,
                        d0 + 1,
                        names(seen@),
                        type_model(raw_type),
                        raw_model(raw_value),
                    ),
                ),
            decreases self.bytes@.len() - self.pos,
        {
            let ghost p = self.pos as int;
            self.skip_whitespace();
            proof {
                lemma_ws_ge(b, p);
            }
            let key_offset = self.pos;
            let field = self.parse_string(64);
            let field = match field {
                Err(f) => return Err(f),
                Ok(f) => f,
            };
            if contains_text(&seen, field.as_str()) {
                return Err(InputDecodeError::DuplicateKey { key: field, offset: key_offset });
            }
            let sep = self.consume(0x3a, "tagged value field separator");
            if let Err(f) = sep {
                return Err(f);
            }
            if crate::keymap::same_text(field.as_str(), "type") {
                let t_offset = self.pos;
                let t = self.parse_string(32);
                match t {
                    Err(f) => {
                        return Err(f);
                    },
                    Ok(t) => {
                        raw_type = Some((t, t_offset));
                    },
                }
            } else if crate::keymap::same_text(field.as_str(), "value") {
                let v = self.parse_raw_scalar_field();
                match v {
                    Err(f) => {
                        return Err(f);
                    },
                    Ok(v) => {
                        raw_value = Some(v);
                    },
                }
            } else {
                return Err(InputDecodeError::UnknownField { field, offset: key_offset });
            }
            proof {
                assert(names(seen@.push(field)) =~= names(seen@).push(field@));
            }
            seen.push(field);
            self.skip_whitespace();
            match self.peek() {
                Some(d) => {
                    if d == 0x2c {
                        self.step();
                    } else if d == 0x7d {
                        self.step();
                        self.leave_depth();
                        return finish_tagged(raw_type, raw_value);
                    } else {
                        let msg = byte_message("expected ',' or '}' in tagged value, found '", d, "'");
                        return Err(InputDecodeError::SyntaxError { message: msg, offset: self.pos });
                    }
                },
                None => {
                    return Err(InputDecodeError::UnexpectedEof);
                },
            }
        }
    }

    /// The `values` object.
    #[verifier::rlimit(40)]
    fn parse_values_object(&mut self) -> (r: Result<KeyMap<InputScalarValue>, InputDecodeError>)
        requires
            old(self).inv(),
        ensures
            final(self).same_doc(old(self)),
            final(self).pos >= old(self).pos,
            match values_object(old(self).bytes@, *old(self).limits, old(self).pos as int, old(self).depth as int) {
                Ok((m, p)) => (r matches Ok(x) && scalars_model(x.pairs()) == m) && final(self).pos == p
                    && final(self).inv() && final(self).depth == old(self).depth,
                Err(f) => r matches Err(e) && e@ == f,
            },
    {
        let ghost b = self.bytes@;
        let ghost lim = *self.limits;
        let ghost d0 = self.depth;
        let ghost p0 = self.pos;
        let ed = self.enter_depth();
        if let Err(f) = ed {
            return Err(f);
        }
        let c = self.consume(0x7b, "values object");
        if let Err(f) = c {
            return Err(f);
        }
        let mut map: KeyMap<InputScalarValue> = KeyMap::new();
        proof {
            assert(scalars_model(map.pairs()) =~= Seq::<(Seq<char>, crate::input::ScalarModel)>::empty());
        }
        self.skip_whitespace();
        if self.peek() == Some(0x7du8) {
            self.step();
            self.leave_depth();
            return Ok(map);
        }
        let mut seen: Vec<String> = Vec::new();
        proof {
            assert(names(seen@) =~= Seq::<Seq<char>>::empty());
        }
        loop
            invariant
                self.inv(),
                self.same_doc(old(self)),
                b == self.bytes@,
                b == old(self).bytes@,
                lim == *self.limits,
                lim == *old(self).limits,
                d0 == old(self).depth,
                p0 == old(self).pos,
                self.depth == d0 + 1,
                self.pos >= p0,
                values_object(b, lim, p0 as int, d0 as int) == value_entries(
                    b,
                    lim,
                    self.pos as int,
                    d0 + 1,
                    names(seen@),
                    scalars_model(map.pairs()),
                ),
            decreases self.bytes@.len() - self.pos,
        {
            let ghost p = self.pos as int;
            self.skip_whitespace();
            proof {
                lemma_ws_ge(b, p);
            }
            let name_offset = self.pos;
            let name = self.parse_input_name();
            let name = match name {
                Err(f) => return Err(f),
                Ok(n) => n,
            };
            if contains_text(&seen, name.as_str()) {
                return Err(InputDecodeError::DuplicateKey { key: name, offset: name_offset });
            }
            let key = name.clone();
            proof {
                assert(names(seen@.push(key)) =~= names(seen@).push(name@));
            }
            seen.push(key);
            if seen.len() > self.limits.max_input_count {
                return Err(InputDecodeError::LimitExceeded("input count per shard"));
            }
            let sep = self.consume(0x3a, "input value separator");
            if let Err(f) = sep {
                return Err(f);
            }
            let v = self.parse_tagged_value();
            let v = match v {
                Err(f) => return Err(f),
                Ok(v) => v,
            };
            let ghost before = map.pairs();
            proof {
                lemma_insert_mapped(before, name@, v, |x: InputScalarValue| x@);
            }
            map.insert(name, v);
            self.skip_whitespace();
            match self.peek() {
                Some(d) => {
                    if d == 0x2c {
                        self.step();
                    } else if d == 0x7d {
                        self.step();
                        self.leave_depth();
                        return Ok(map);
                    } else {
                        let msg = byte_message("expected ',' or '}' in values object, found '", d, "'");
                        return Err(InputDecodeError::SyntaxError { message: msg, offset: self.pos });
                    }
                },
                None => {
                    return Err(InputDecodeError::UnexpectedEof);
                },
            }
        }
    }

    /// The root envelope object.
    #[verifier::rlimit(40)]
    fn parse_envelope(&mut self) -> (r: Result<InputShard, InputDecodeError>)
        requires
            old(self).inv(),
        ensures
            final(self).same_doc(old(self)),
            final(self).pos >= old(self).pos,
            match envelope(old(self).bytes@, *old(self).limits, old(self).pos as int, old(self).depth as int) {
                Ok((m, p)) => (r matches Ok(x) && x@ == m) && final(self).pos == p && final(self).inv()
                    && final(self).depth == old(self).depth,
                Err(f) => r matches Err(e) && e@ == f,
            },
    {
        let ghost b = self.bytes@;
        let ghost lim = *self.limits;
        let ghost d0 = self.depth;
        let ghost p0 = self.pos;
        let ed = self.enter_depth();
        if let Err(f) = ed {
            return Err(f);
        }
        let c = self.consume(0x7b, "root envelope object");
        if let Err(f) = c {
            return Err(f);
        }
        self.skip_whitespace();
        if self.peek() == Some(0x7du8) {
            self.step();
            self.leave_depth();
            return Err(InputDecodeError::MissingField("schema"));
        }
        let mut seen: Vec<String> = Vec::new();
        let mut schema: Option<String> = None;
        let mut values: Option<KeyMap<InputScalarValue>> = None;
        proof {
            assert(names(seen@) =~= Seq::<Seq<char>>::empty());
        }
        loop
            invariant
                self.inv(),
                self.same_doc(old(self)),
                b == self.bytes@,
                b == old(self).bytes@,
                lim == *self.limits,
                lim == *old(self).limits,
                d0 == old(self).depth,
                p0 == old(self).pos,
                self.depth == d0 + 1,
                self.pos >= p0,
                envelope(b, lim, p0 as int, d0 as int) == envelope_finish(
                    envelope_fields(
                        b,
                        lim,
                        self.pos as int,
                        d0 + 1,
                        names(seen@),
                        schema_model(schema),
                        values_model(values),
                    ),
                    b.len() as int,
                ),
            decreases self.bytes@.len() - self.pos,
        {
            let ghost p = self.pos as int;
            self.skip_whitespace();
            proof {
                lemma_ws_ge(b, p);
            }
            let key_offset = self.pos;
            let key = self.parse_string(self.limits.max_name_bytes);
            let key = match key {
                Err(f) => return Err(f),
                Ok(k) => k,
            };
            if contains_text(&seen, key.as_str()) {
                return Err(InputDecodeError::DuplicateKey { key, offset: key_offset });
            }
            let sep = self.consume(0x3a, "envelope field separator");
            if let Err(f) = sep {
                return Err(f);
            }
            if crate::keymap::same_text(key.as_str(), "schema") {
                let s = self.parse_string(64);
                let s = match s {
                    Err(f) => return Err(f),
                    Ok(s) => s,
                };
                if !crate::keymap::same_text(s.as_str(), crate::input::INPUT_SCHEMA_V1) {
                    proof {
                        reveal_strlit("brix.input@1");
                    }
                    return Err(
                        InputDecodeError::InvalidSchema { expected: crate::input::INPUT_SCHEMA_V1, found: s },
                    );
                }
                schema = Some(s);
            } else if crate::keymap::same_text(key.as_str(), "values") {
                let v = self.parse_values_object();
                match v {
                    Err(f) => {
                        return Err(f);
                    },
                    Ok(v) => {
                        values = Some(v);
                    },
                }
            } else {
                return Err(InputDecodeError::UnknownField { field: key, offset: key_offset });
            }
            proof {
                assert(names(seen@.push(key)) =~= names(seen@).push(key@));
            }
            seen.push(key);
            self.skip_whitespace();
            match self.peek() {
                Some(d) => {
                    if d == 0x2c {
                        self.step();
                    } else if d == 0x7d {
                        self.step();
                        self.leave_depth();
                        return finish_envelope(schema, values, self.bytes.len());
                    } else {
                        let msg = byte_message("expected ',' or '}' in envelope, found '", d, "'");
                        return Err(InputDecodeError::SyntaxError { message: msg, offset: self.pos });
                    }
                },
                None => {
                    return Err(InputDecodeError::UnexpectedEof);
                },
            }
        }
    }

    /// A whole document: the envelope with nothing but whitespace after it.
    fn parse_input_shard(&mut self) -> (r: Result<InputShard, InputDecodeError>)
        requires
            old(self).inv(),
            old(self).pos == 0,
            old(self).depth == 0,
        ensures
            match shard_spec(old(self).bytes@, *old(self).limits) {
                Ok(m) => r matches Ok(x) && x@ == m,
                Err(f) => r matches Err(e) && e@ == f,
            },
    {
        self.skip_whitespace();
        let shard = self.parse_envelope();
        let shard = match shard {
            Err(f) => return Err(f),
            Ok(s) => s,
        };
        self.skip_whitespace();
        if self.pos < self.bytes.len() {
            return Err(InputDecodeError::TrailingBytes { offset: self.pos });
        }
        Ok(shard)
    }
}

/// Names the position and the message that `std::str::from_utf8` reports
/// for bytes that are not UTF-8.
pub uninterp spec fn utf8_rejection(bytes: Seq<u8>) -> (int, Seq<char>);

/// The bytes as text, or where and why they are not UTF-8.
///
/// Trusted: calls `std::str::from_utf8`. Its documentation says it gives
/// the string slice over the same bytes when they are valid UTF-8, and
/// otherwise an error whose `valid_up_to` is the largest index such that the
/// bytes before it are valid UTF-8. The error's message (its `Display`) is
/// not stated; it is named, with that index, by `utf8_rejection`.
#[verifier::external_body]
fn utf8_text(bytes: &[u8]) -> (r: Result<&str, (usize, String)>)
    ensures
        match r {
            Ok(s) => valid_utf8(bytes@) && s.spec_bytes() == bytes@,
            Err((k, m)) => {
                &&& !valid_utf8(bytes@)
                &&& (k as int, m@) == utf8_rejection(bytes@)
                &&& k <= bytes@.len()
                &&& valid_utf8(bytes@.subrange(0, k as int))
                &&& forall|j: int| k < j <= bytes@.len() ==> !valid_utf8(#[trigger] bytes@.subrange(0, j))
            },
        },
{
    match std::str::from_utf8(bytes) {
        Ok(s) => Ok(s),
        Err(e) => Err((e.valid_up_to(), e.to_string())),
    }
}

/// What decoding a single input artifact shard gives: a document over the
/// size limit is refused, bytes that are not UTF-8 are a syntax error at the
/// first invalid position, and otherwise the grammar decides.
pub open spec fn decode_spec(b: Seq<u8>, lim: InputLimits) -> Result<ShardModel, DecodeFault> {
    if b.len() > lim.max_file_bytes {
        Err(DecodeFault::FileTooLarge { limit: lim.max_file_bytes, found: b.len() as int })
    } else if !valid_utf8(b) {
        Err(
            syntax(
                "invalid UTF-8 in document: "@ + utf8_rejection(b).1,
                utf8_rejection(b).0,
            ),
        )
    } else {
        shard_spec(b, lim)
    }
}

/// Decode a single input artifact shard from in-memory bytes.
pub fn decode_input_shard(bytes: &[u8], limits: &InputLimits) -> (r: Result<InputShard, InputDecodeError>)
    ensures
        match decode_spec(bytes@, *limits) {
            Ok(m) => r matches Ok(x) && x@ == m,
            Err(f) => r matches Err(e) && e@ == f,
        },
        r matches Ok(s) ==> crate::input::bounds::shard_bounded(s@, *limits) && s@.byte_count == bytes@.len(),
        r matches Ok(s) ==> s@.schema == "brix.input@1"@,
{
    proof {
        crate::input::bounds::lemma_decoded_shard_bounded(bytes@, *limits);
        crate::input::grammar::lemma_shard_schema(bytes@, *limits);
    }
    if bytes.len() > limits.max_file_bytes {
        return Err(
            InputDecodeError::FileTooLarge { limit: limits.max_file_bytes, found: bytes.len() as u64 },
        );
    }
    let text = match utf8_text(bytes) {
        Ok(t) => t,
        Err((k, m)) => {
            let mut message = owned("invalid UTF-8 in document: ");
            message.append(m.as_str());
            return Err(InputDecodeError::SyntaxError { message, offset: k });
        },
    };
    let mut parser = StrictJsonParser::new(text, limits);
    parser.parse_input_shard()
}

} // verus!
