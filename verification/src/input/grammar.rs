//! The `brix.input@1` document grammar, as functions from a byte sequence
//! and a position to what the decoder reads there and where it stops.
//!
//! Positions are byte offsets. Whitespace is space, tab, carriage return
//! and line feed. Every object refuses duplicate keys and unknown fields;
//! nested objects and arrays count against a depth limit.
use vstd::prelude::*;
use vstd::utf8::*;

use crate::input::{InputLimits, ScalarModel};
use crate::keymap::insert_pairs;
use crate::text::byte_len;

verus! {

/// Model of an input decoding error.
#[allow(inconsistent_fields)]
pub enum DecodeFault {
    FileTooLarge { limit: usize, found: int },
    IoError { path: Seq<char>, message: Seq<char> },
    NotARegularFile(Seq<char>),
    DuplicateKey { key: Seq<char>, offset: int },
    UnknownField { field: Seq<char>, offset: int },
    MissingField(Seq<char>),
    InvalidSchema { expected: Seq<char>, found: Seq<char> },
    InvalidType { expected: Seq<char>, found: Seq<char>, offset: int },
    NameTooLong { limit: usize },
    InvalidIdentifier { name: Seq<char>, reason: Seq<char> },
    StringValueTooLong { limit: usize, found: int },
    IntegerOverflow { raw: Seq<char> },
    InvalidIntegerFormat { raw: Seq<char> },
    LimitExceeded(Seq<char>),
    UnexpectedEof,
    TrailingBytes { offset: int },
    SyntaxError { message: Seq<char>, offset: int },
}

/// A syntax error at `offset`.
pub open spec fn syntax(message: Seq<char>, offset: int) -> DecodeFault {
    DecodeFault::SyntaxError { message, offset }
}

/// A byte shown as the character of the same code.
pub open spec fn shown(c: u8) -> Seq<char> {
    seq![c as char]
}

/// JSON whitespace.
pub open spec fn is_ws(c: u8) -> bool {
    c == 0x20 || c == 0x09 || c == 0x0d || c == 0x0a
}

/// The byte at `p`, if any.
pub open spec fn at(b: Seq<u8>, p: int) -> Option<u8> {
    if 0 <= p < b.len() {
        Some(b[p])
    } else {
        None
    }
}

/// First position at or after `p` that is not whitespace.
pub open spec fn ws(b: Seq<u8>, p: int) -> int
    decreases b.len() - p,
{
    if 0 <= p < b.len() && is_ws(b[p]) {
        ws(b, p + 1)
    } else {
        p
    }
}

/// After whitespace, the byte `want`; the position after it.
pub open spec fn expect(b: Seq<u8>, p: int, want: u8, ctx: Seq<char>) -> Result<int, DecodeFault> {
    let q = ws(b, p);
    match at(b, q) {
        Some(c) => if c == want {
            Ok(q + 1)
        } else {
            Err(
                syntax(
                    "expected '"@ + shown(want) + "' for "@ + ctx + ", found '"@ + shown(c) + "'"@,
                    q,
                ),
            )
        },
        None => Err(DecodeFault::UnexpectedEof),
    }
}

/// The character a one-letter escape stands for.
pub open spec fn escape_char(e: u8) -> Option<char> {
    if e == 0x22 {
        Some('"')
    } else if e == 0x5c {
        Some('\\')
    } else if e == 0x2f {
        Some('/')
    } else if e == 0x62 {
        Some('\x08')
    } else if e == 0x66 {
        Some('\x0c')
    } else if e == 0x6e {
        Some('\n')
    } else if e == 0x72 {
        Some('\r')
    } else if e == 0x74 {
        Some('\t')
    } else {
        None
    }
}

/// Value of a hexadecimal digit.
pub open spec fn hex_digit(c: u8) -> Option<int> {
    if 0x30 <= c <= 0x39 {
        Some(c - 0x30)
    } else if 0x61 <= c <= 0x66 {
        Some(c - 0x61 + 10)
    } else if 0x41 <= c <= 0x46 {
        Some(c - 0x41 + 10)
    } else {
        None
    }
}

/// The first `n` bytes of `s` read as hexadecimal, kept to 16 bits.
pub open spec fn hex_value(s: Seq<u8>, n: nat) -> Option<int>
    decreases n,
{
    if n == 0 || n > s.len() {
        Some(0)
    } else {
        match hex_value(s, (n - 1) as nat) {
            None => None,
            Some(v) => match hex_digit(s[n - 1]) {
                None => None,
                Some(d) => Some((v * 16 + d) % 65536),
            },
        }
    }
}

/// A four-digit hexadecimal field: at least four bytes, all hex digits.
pub open spec fn hex4(s: Seq<u8>) -> Option<int> {
    if s.len() < 4 {
        None
    } else {
        hex_value(s, s.len())
    }
}

/// Upper-case hexadecimal digit.
pub open spec fn hex_char(d: int) -> char {
    if d < 10 {
        (d + 48) as char
    } else {
        (d + 55) as char
    }
}

/// Four upper-case hexadecimal digits of a 16-bit value.
pub open spec fn hex4_text(v: int) -> Seq<char> {
    seq![
        hex_char((v / 4096) % 16),
        hex_char((v / 256) % 16),
        hex_char((v / 16) % 16),
        hex_char(v % 16),
    ]
}

/// A `\u` escape whose four hex digits start at `p`: a BMP character, or a
/// surrogate pair written as two escapes; the character and the position
/// after the escape.
pub open spec fn unicode_escape(b: Seq<u8>, p: int) -> Result<(char, int), DecodeFault> {
    if p + 4 > b.len() {
        Err(DecodeFault::UnexpectedEof)
    } else {
        match hex4(b.subrange(p, p + 4)) {
            None => Err(syntax("invalid hex digits in \\u escape"@, p)),
            Some(code) => {
                let q = p + 4;
                if 0xd800 <= code <= 0xdbff {
                    if q + 2 > b.len() || b[q] != 0x5c || b[q + 1] != 0x75 {
                        Err(
                            syntax(
                                "lone high surrogate in \\u escape without trailing low surrogate"@,
                                q - 6,
                            ),
                        )
                    } else if q + 6 > b.len() {
                        Err(DecodeFault::UnexpectedEof)
                    } else {
                        match hex4(b.subrange(q + 2, q + 6)) {
                            None => Err(syntax("invalid hex digits in low surrogate \\u escape"@, q + 2)),
                            Some(low) => if !(0xdc00 <= low <= 0xdfff) {
                                Err(
                                    syntax(
                                        "invalid low surrogate 0x"@ + hex4_text(low)
                                            + " following high surrogate 0x"@ + hex4_text(code),
                                        q,
                                    ),
                                )
                            } else {
                                Ok(
                                    (
                                        (0x10000 + (code - 0xd800) * 1024 + (low - 0xdc00)) as char,
                                        q + 6,
                                    ),
                                )
                            },
                        }
                    }
                } else if 0xdc00 <= code <= 0xdfff {
                    Err(syntax("lone low surrogate 0x"@ + hex4_text(code) + " in \\u escape"@, q - 6))
                } else {
                    Ok((code as char, q))
                }
            },
        }
    }
}

/// The body of a quoted text from `p` (just past the opening quote at
/// `start - 1`), having read `acc`. In an input name the messages name it,
/// and the length limit reports `NameTooLong`.
pub open spec fn text_scan(
    b: Seq<u8>,
    p: int,
    start: int,
    acc: Seq<char>,
    max_len: usize,
    name: bool,
) -> Result<(Seq<char>, int), DecodeFault>
    decreases b.len() - p, 1nat,
{
    if p < 0 || p >= b.len() {
        Err(
            syntax(
                if name {
                    "unterminated string literal in input name"@
                } else {
                    "unterminated string literal"@
                },
                start,
            ),
        )
    } else {
        let c = b[p];
        if c == 0x22 {
            Ok((acc, p + 1))
        } else if c == 0x5c {
            if p + 1 >= b.len() {
                Err(DecodeFault::UnexpectedEof)
            } else {
                let e = b[p + 1];
                match escape_char(e) {
                    Some(ch) => scan_next(b, p, p + 2, start, acc.push(ch), max_len, name),
                    None => if e == 0x75 {
                        match unicode_escape(b, p + 2) {
                            Err(f) => Err(f),
                            Ok((ch, q)) => scan_next(b, p, q, start, acc.push(ch), max_len, name),
                        }
                    } else {
                        Err(syntax("unrecognized escape character '\\"@ + shown(e) + "'"@, p + 1))
                    }
                }
            }
        } else if c < 0x20 {
            Err(
                syntax(
                    if name {
                        "control character in input name"@
                    } else {
                        "control character in string literal"@
                    },
                    p,
                ),
            )
        } else {
            let rest = b.subrange(p, b.len() as int);
            scan_next(
                b,
                p,
                p + length_of_first_scalar(rest),
                start,
                acc.push(decode_first_scalar(rest) as char),
                max_len,
                name,
            )
        }
    }
}

/// Continue a text scan at `q` after reading a character at `p`, unless the
/// text has grown past its limit.
pub open spec fn scan_next(
    b: Seq<u8>,
    p: int,
    q: int,
    start: int,
    acc: Seq<char>,
    max_len: usize,
    name: bool,
) -> Result<(Seq<char>, int), DecodeFault>
    decreases b.len() - p, 0nat,
{
    if byte_len(acc) > max_len {
        if name {
            Err(DecodeFault::NameTooLong { limit: max_len })
        } else {
            Err(DecodeFault::StringValueTooLong { limit: max_len, found: byte_len(acc) as int })
        }
    } else if q <= p || q > b.len() {
        Err(DecodeFault::UnexpectedEof)
    } else {
        text_scan(b, q, start, acc, max_len, name)
    }
}

/// A quoted text after whitespace at `p`, at most `max_len` bytes long.
#[verifier::opaque]
pub open spec fn quoted_text(b: Seq<u8>, p: int, max_len: usize) -> Result<(Seq<char>, int), DecodeFault> {
    let q = ws(b, p);
    if at(b, q) != Some(0x22u8) {
        Err(syntax("expected opening quote '\"'"@, q))
    } else {
        text_scan(b, q + 1, q + 1, Seq::empty(), max_len, false)
    }
}

/// ASCII letter.
pub open spec fn ascii_alpha(c: char) -> bool {
    ('a' <= c <= 'z') || ('A' <= c <= 'Z')
}

/// ASCII decimal digit.
pub open spec fn ascii_digit(c: char) -> bool {
    '0' <= c <= '9'
}

/// Why `name` is not an input identifier (an ASCII letter or underscore,
/// then ASCII letters, digits and underscores, at most `max_len` bytes).
pub open spec fn identifier_fault(name: Seq<char>, max_len: usize) -> Option<DecodeFault> {
    if name.len() == 0 {
        Some(DecodeFault::InvalidIdentifier { name, reason: "identifier cannot be empty"@ })
    } else if byte_len(name) > max_len {
        Some(DecodeFault::NameTooLong { limit: max_len })
    } else if !(ascii_alpha(name[0]) || name[0] == '_') {
        Some(
            DecodeFault::InvalidIdentifier {
                name,
                reason: "identifier must start with ASCII letter or underscore"@,
            },
        )
    } else if exists|i: int|
        1 <= i < name.len() && !(ascii_alpha(#[trigger] name[i]) || ascii_digit(name[i]) || name[i]
            == '_') {
        Some(
            DecodeFault::InvalidIdentifier {
                name,
                reason: "identifier may only contain ASCII alphanumeric characters and underscores"@,
            },
        )
    } else {
        None
    }
}

/// An input name after whitespace at `p`: a quoted text that is an
/// identifier.
#[verifier::opaque]
pub open spec fn input_name(b: Seq<u8>, lim: InputLimits, p: int) -> Result<(Seq<char>, int), DecodeFault> {
    let q = ws(b, p);
    if at(b, q) != Some(0x22u8) {
        Err(syntax("expected opening quote '\"'"@, q))
    } else {
        match text_scan(b, q + 1, q + 1, Seq::empty(), lim.max_name_bytes, true) {
            Err(f) => Err(f),
            Ok((s, r)) => match identifier_fault(s, lim.max_name_bytes) {
                Some(f) => Err(f),
                None => Ok((s, r)),
            },
        }
    }
}

/// The digits of an integer literal: all but a leading `-`.
pub open spec fn decimal_digits(raw: Seq<char>) -> Seq<char> {
    if raw.len() > 0 && raw[0] == '-' {
        raw.drop_first()
    } else {
        raw
    }
}

/// A base-10 integer literal: an optional `-`, then `0` alone (not after
/// `-`) or a non-zero digit followed by digits.
pub open spec fn decimal_ok(raw: Seq<char>) -> bool {
    let digits = decimal_digits(raw);
    &&& raw.len() > 0
    &&& digits.len() > 0
    &&& !(digits[0] == '0' && (raw[0] == '-' || digits.len() > 1))
    &&& forall|i: int| 0 <= i < digits.len() ==> ascii_digit(#[trigger] digits[i])
}

/// Value of the first `n` decimal digits of `d`.
pub open spec fn digits_value(d: Seq<char>, n: nat) -> int
    decreases n,
{
    if n == 0 || n > d.len() {
        0
    } else {
        digits_value(d, (n - 1) as nat) * 10 + (d[n - 1] as int - 48)
    }
}

/// Value of a base-10 integer literal.
pub open spec fn decimal_value(raw: Seq<char>) -> int {
    let v = digits_value(decimal_digits(raw), decimal_digits(raw).len());
    if raw.len() > 0 && raw[0] == '-' {
        -v
    } else {
        v
    }
}

/// ASCII digit byte.
pub open spec fn digit_byte(c: u8) -> bool {
    0x30 <= c <= 0x39
}

/// First position at or after `p` that is not a digit.
pub open spec fn digits_end(b: Seq<u8>, p: int) -> int
    decreases b.len() - p,
{
    if 0 <= p < b.len() && digit_byte(b[p]) {
        digits_end(b, p + 1)
    } else {
        p
    }
}

/// The exponent part of a JSON number at `p`, if any.
pub open spec fn number_exponent(b: Seq<u8>, p: int) -> Result<int, DecodeFault> {
    if at(b, p) == Some(0x65u8) || at(b, p) == Some(0x45u8) {
        let q = if at(b, p + 1) == Some(0x2bu8) || at(b, p + 1) == Some(0x2du8) {
            p + 2
        } else {
            p + 1
        };
        match at(b, q) {
            Some(c) => if digit_byte(c) {
                Ok(digits_end(b, q + 1))
            } else {
                Err(syntax("expected digit in exponent of JSON number"@, q))
            },
            None => Err(DecodeFault::UnexpectedEof),
        }
    } else {
        Ok(p)
    }
}

/// The fraction and exponent of a JSON number at `p`.
pub open spec fn number_tail(b: Seq<u8>, p: int) -> Result<int, DecodeFault> {
    if at(b, p) == Some(0x2eu8) {
        match at(b, p + 1) {
            Some(c) => if digit_byte(c) {
                number_exponent(b, digits_end(b, p + 2))
            } else {
                Err(syntax("expected digit after decimal point in JSON number"@, p + 1))
            },
            None => Err(DecodeFault::UnexpectedEof),
        }
    } else {
        number_exponent(b, p)
    }
}

/// A JSON number at `p` (RFC 8259: no leading zeros); the position after it.
pub open spec fn number_end(b: Seq<u8>, p: int) -> Result<int, DecodeFault> {
    let q = if at(b, p) == Some(0x2du8) {
        p + 1
    } else {
        p
    };
    match at(b, q) {
        Some(c) => if c == 0x30 {
            match at(b, q + 1) {
                Some(d) => if digit_byte(d) {
                    Err(syntax("leading zero in JSON number"@, q + 1))
                } else {
                    number_tail(b, q + 1)
                },
                None => number_tail(b, q + 1),
            }
        } else if 0x31 <= c <= 0x39 {
            number_tail(b, digits_end(b, q + 1))
        } else {
            Err(syntax("expected digit in JSON number"@, q))
        },
        None => Err(DecodeFault::UnexpectedEof),
    }
}

/// The exact bytes `word` at `p`.
pub open spec fn exact(b: Seq<u8>, p: int, word: Seq<u8>, ctx: Seq<char>) -> Result<int, DecodeFault> {
    if p + word.len() > b.len() {
        Err(DecodeFault::UnexpectedEof)
    } else if b.subrange(p, p + word.len()) == word {
        Ok(p + word.len())
    } else {
        Err(syntax("expected "@ + ctx, p))
    }
}

/// The bytes of `true`.
pub open spec fn word_true() -> Seq<u8> {
    seq![0x74u8, 0x72u8, 0x75u8, 0x65u8]
}

/// The bytes of `false`.
pub open spec fn word_false() -> Seq<u8> {
    seq![0x66u8, 0x61u8, 0x6cu8, 0x73u8, 0x65u8]
}

/// The bytes of `null`.
pub open spec fn word_null() -> Seq<u8> {
    seq![0x6eu8, 0x75u8, 0x6cu8, 0x6cu8]
}

/// The fault for going one level deeper than the limit.
pub open spec fn too_deep() -> DecodeFault {
    DecodeFault::LimitExceeded("JSON nesting depth limit"@)
}

/// Skip any JSON value after whitespace at `p`, nested `depth` levels.
pub open spec fn skip_value(b: Seq<u8>, lim: InputLimits, p: int, depth: int) -> Result<int, DecodeFault>
    decreases b.len() - p, 1nat,
{
    let q = ws(b, p);
    match at(b, q) {
        Some(c) => if c == 0x22 {
            match quoted_text(b, q, lim.max_string_value_bytes) {
                Err(f) => Err(f),
                Ok((_, r)) => Ok(r),
            }
        } else if c == 0x74 {
            exact(b, q, word_true(), "boolean true"@)
        } else if c == 0x66 {
            exact(b, q, word_false(), "boolean false"@)
        } else if c == 0x6e {
            exact(b, q, word_null(), "null"@)
        } else if c == 0x5b {
            proof {
                lemma_ws_ge(b, p);
            }
            skip_array(b, lim, q, depth)
        } else if c == 0x7b {
            proof {
                lemma_ws_ge(b, p);
            }
            skip_object(b, lim, q, depth)
        } else if c == 0x2d || digit_byte(c) {
            number_end(b, q)
        } else {
            Err(syntax("unexpected value token '"@ + shown(c) + "'"@, q))
        },
        None => Err(DecodeFault::UnexpectedEof),
    }
}

/// Skip an array whose `[` is at `p`.
pub open spec fn skip_array(b: Seq<u8>, lim: InputLimits, p: int, depth: int) -> Result<int, DecodeFault>
    decreases b.len() - p, 0nat,
{
    if depth >= lim.max_depth {
        Err(too_deep())
    } else if p < 0 || p >= b.len() {
        Err(DecodeFault::UnexpectedEof)
    } else {
        array_rest(b, lim, p + 1, depth + 1)
    }
}

/// The rest of an array from `p`, after its `[` or a `,`.
pub open spec fn array_rest(b: Seq<u8>, lim: InputLimits, p: int, depth: int) -> Result<int, DecodeFault>
    decreases b.len() - p, 2nat,
{
    let q = ws(b, p);
    proof {
        lemma_ws_ge(b, p);
    }
    match at(b, q) {
        Some(c) => if c == 0x5d {
            Ok(q + 1)
        } else {
            match skip_value(b, lim, q, depth) {
                Err(f) => Err(f),
                Ok(r) => {
                    let s = ws(b, r);
                    match at(b, s) {
                        Some(d) => if d == 0x2c {
                            if s < p {
                                Err(DecodeFault::UnexpectedEof)
                            } else {
                                array_rest(b, lim, s + 1, depth)
                            }
                        } else if d == 0x5d {
                            Ok(s + 1)
                        } else {
                            Err(syntax("expected ',' or ']' in array, found '"@ + shown(d) + "'"@, s))
                        },
                        None => Err(DecodeFault::UnexpectedEof),
                    }
                },
            }
        },
        None => Err(DecodeFault::UnexpectedEof),
    }
}

/// Skip an object whose `{` is at `p`.
pub open spec fn skip_object(b: Seq<u8>, lim: InputLimits, p: int, depth: int) -> Result<int, DecodeFault>
    decreases b.len() - p, 0nat,
{
    if depth >= lim.max_depth {
        Err(too_deep())
    } else if p < 0 || p >= b.len() {
        Err(DecodeFault::UnexpectedEof)
    } else {
        object_rest(b, lim, p + 1, depth + 1)
    }
}

/// The rest of an object from `p`, after its `{` or a `,`.
pub open spec fn object_rest(b: Seq<u8>, lim: InputLimits, p: int, depth: int) -> Result<int, DecodeFault>
    decreases b.len() - p, 2nat,
{
    let q = ws(b, p);
    proof {
        lemma_ws_ge(b, p);
    }
    match at(b, q) {
        Some(c) => if c == 0x7d {
            Ok(q + 1)
        } else if c == 0x22 {
            match quoted_text(b, q, lim.max_string_value_bytes) {
                Err(f) => Err(f),
                Ok((_, r1)) => match expect(b, r1, 0x3a, "object key separator"@) {
                    Err(f) => Err(f),
                    Ok(r2) => if r2 < p {
                        Err(DecodeFault::UnexpectedEof)
                    } else {
                        match skip_value(b, lim, r2, depth) {
                            Err(f) => Err(f),
                            Ok(r3) => {
                                let s = ws(b, r3);
                                match at(b, s) {
                                    Some(d) => if d == 0x2c {
                                        if s < p {
                                            Err(DecodeFault::UnexpectedEof)
                                        } else {
                                            object_rest(b, lim, s + 1, depth)
                                        }
                                    } else if d == 0x7d {
                                        Ok(s + 1)
                                    } else {
                                        Err(
                                            syntax(
                                                "expected ',' or '}' in object, found '"@ + shown(d)
                                                    + "'"@,
                                                s,
                                            ),
                                        )
                                    },
                                    None => Err(DecodeFault::UnexpectedEof),
                                }
                            },
                        }
                    },
                },
            }
        } else {
            Err(syntax("expected string key or '}' in object, found '"@ + shown(c) + "'"@, q))
        },
        None => Err(DecodeFault::UnexpectedEof),
    }
}

pub proof fn lemma_ws_ge(b: Seq<u8>, p: int)
    ensures
        ws(b, p) >= p,
        p <= ws(b, p) <= b.len() || ws(b, p) == p,
    decreases b.len() - p,
{
    if 0 <= p < b.len() && is_ws(b[p]) {
        lemma_ws_ge(b, p + 1);
    }
}

/// Between tokens the decoder skips exactly the four JSON whitespace bytes
/// (space, tab, carriage return, line feed): from `p`, skipping passes only
/// over such bytes and stops at the first byte that is none of them, or at
/// the end of the document.
pub proof fn lemma_whitespace_skipped(b: Seq<u8>, p: int)
    requires
        0 <= p <= b.len(),
    ensures
        p <= ws(b, p) <= b.len(),
        forall|k: int| p <= k < ws(b, p) ==> (#[trigger] b[k] == 0x20u8 || b[k] == 0x09u8 || b[k] == 0x0du8 || b[k]
            == 0x0au8),
        ws(b, p) < b.len() ==> !(b[ws(b, p)] == 0x20u8 || b[ws(b, p)] == 0x09u8 || b[ws(b, p)] == 0x0du8 || b[ws(b, p)]
            == 0x0au8),
    decreases b.len() - p,
{
    if p < b.len() && is_ws(b[p]) {
        lemma_whitespace_skipped(b, p + 1);
    }
}

/// What a tagged value's `value` field held.
pub enum RawModel {
    Str(Seq<char>),
    Bool(bool),
    Number,
    Null,
    Array,
    Object,
}

/// JSON type name of a raw field.
pub open spec fn raw_kind(r: RawModel) -> Seq<char> {
    match r {
        RawModel::Str(_) => "string"@,
        RawModel::Bool(_) => "bool"@,
        RawModel::Number => "number"@,
        RawModel::Null => "null"@,
        RawModel::Array => "array"@,
        RawModel::Object => "object"@,
    }
}

/// One of the words `true`, `false`, `null`, starting with byte `c` at `q`.
pub open spec fn raw_word(b: Seq<u8>, q: int, c: u8) -> Result<(RawModel, int), DecodeFault> {
    if c == 0x74 {
        match exact(b, q, word_true(), "boolean true"@) {
            Err(f) => Err(f),
            Ok(r) => Ok((RawModel::Bool(true), r)),
        }
    } else if c == 0x66 {
        match exact(b, q, word_false(), "boolean false"@) {
            Err(f) => Err(f),
            Ok(r) => Ok((RawModel::Bool(false), r)),
        }
    } else {
        match exact(b, q, word_null(), "null"@) {
            Err(f) => Err(f),
            Ok(r) => Ok((RawModel::Null, r)),
        }
    }
}

/// An array (when `c` is `[`) or an object, skipped, at `q`.
pub open spec fn raw_container(b: Seq<u8>, lim: InputLimits, q: int, depth: int, c: u8) -> Result<(RawModel, int), DecodeFault> {
    if c == 0x5b {
        match skip_array(b, lim, q, depth) {
            Err(f) => Err(f),
            Ok(r) => Ok((RawModel::Array, r)),
        }
    } else {
        match skip_object(b, lim, q, depth) {
            Err(f) => Err(f),
            Ok(r) => Ok((RawModel::Object, r)),
        }
    }
}

/// The `value` field of a tagged value, after whitespace at `p`.
#[verifier::opaque]
pub open spec fn raw_scalar(b: Seq<u8>, lim: InputLimits, p: int, depth: int) -> Result<(RawModel, int), DecodeFault> {
    let q = ws(b, p);
    match at(b, q) {
        Some(c) => if c == 0x22 {
            match quoted_text(b, q, lim.max_string_value_bytes) {
                Err(f) => Err(f),
                Ok((s, r)) => Ok((RawModel::Str(s), r)),
            }
        } else if c == 0x74 || c == 0x66 || c == 0x6e {
            raw_word(b, q, c)
        } else if c == 0x5b || c == 0x7b {
            raw_container(b, lim, q, depth, c)
        } else if c == 0x2d || digit_byte(c) {
            match number_end(b, q) {
                Err(f) => Err(f),
                Ok(r) => Ok((RawModel::Number, r)),
            }
        } else {
            Err(syntax("unexpected scalar value byte '"@ + shown(c) + "'"@, q))
        },
        None => Err(DecodeFault::UnexpectedEof),
    }
}

/// The scalar a tagged value denotes, from its type name (read at
/// `type_offset`) and raw value.
pub open spec fn tagged_scalar(tname: Seq<char>, type_offset: int, raw: RawModel) -> Result<ScalarModel, DecodeFault> {
    if tname == "int"@ {
        match raw {
            RawModel::Str(s) => if !decimal_ok(s) {
                Err(DecodeFault::InvalidIntegerFormat { raw: s })
            } else if i64::MIN <= decimal_value(s) <= i64::MAX {
                Ok(ScalarModel::Int(decimal_value(s) as i64))
            } else {
                Err(DecodeFault::IntegerOverflow { raw: s })
            },
            _ => Err(
                DecodeFault::InvalidType {
                    expected: "decimal string for int value"@,
                    found: raw_kind(raw),
                    offset: type_offset,
                },
            ),
        }
    } else if tname == "bool"@ {
        match raw {
            RawModel::Bool(v) => Ok(ScalarModel::Bool(v)),
            _ => Err(
                DecodeFault::InvalidType {
                    expected: "boolean (true or false) for bool value"@,
                    found: raw_kind(raw),
                    offset: type_offset,
                },
            ),
        }
    } else if tname == "string"@ {
        match raw {
            RawModel::Str(s) => Ok(ScalarModel::Str(s)),
            _ => Err(
                DecodeFault::InvalidType {
                    expected: "string for string value"@,
                    found: raw_kind(raw),
                    offset: type_offset,
                },
            ),
        }
    } else {
        Err(
            DecodeFault::InvalidType {
                expected: "one of ['int', 'bool', 'string']"@,
                found: tname,
                offset: type_offset,
            },
        )
    }
}

/// The fields of a tagged value from `p`, with the field names `seen` so
/// far and what the `type` and `value` fields held.
pub open spec fn tagged_fields(
    b: Seq<u8>,
    lim: InputLimits,
    p: int,
    depth: int,
    seen: Seq<Seq<char>>,
    ty: Option<(Seq<char>, int)>,
    val: Option<RawModel>,
) -> Result<(Option<(Seq<char>, int)>, Option<RawModel>, int), DecodeFault>
    decreases b.len() - p,
{
    let q = ws(b, p);
    match quoted_text(b, q, 64) {
        Err(f) => Err(f),
        Ok((field, r1)) => if seen.contains(field) {
            Err(DecodeFault::DuplicateKey { key: field, offset: q })
        } else {
            match expect(b, r1, 0x3a, "tagged value field separator"@) {
                Err(f) => Err(f),
                Ok(r2) => {
                    let step: Result<(Option<(Seq<char>, int)>, Option<RawModel>, int), DecodeFault> = if field
                        == "type"@ {
                        match quoted_text(b, r2, 32) {
                            Err(f) => Err(f),
                            Ok((t, r3)) => Ok((Some((t, r2)), val, r3)),
                        }
                    } else if field == "value"@ {
                        match raw_scalar(b, lim, r2, depth) {
                            Err(f) => Err(f),
                            Ok((v, r3)) => Ok((ty, Some(v), r3)),
                        }
                    } else {
                        Err(DecodeFault::UnknownField { field, offset: q })
                    };
                    match step {
                        Err(f) => Err(f),
                        Ok((ty2, val2, r3)) => {
                            let s = ws(b, r3);
                            match at(b, s) {
                                Some(d) => if d == 0x2c {
                                    if s < p {
                                        Err(DecodeFault::UnexpectedEof)
                                    } else {
                                        tagged_fields(b, lim, s + 1, depth, seen.push(field), ty2, val2)
                                    }
                                } else if d == 0x7d {
                                    Ok((ty2, val2, s + 1))
                                } else {
                                    Err(
                                        syntax(
                                            "expected ',' or '}' in tagged value, found '"@ + shown(d)
                                                + "'"@,
                                            s,
                                        ),
                                    )
                                },
                                None => Err(DecodeFault::UnexpectedEof),
                            }
                        },
                    }
                },
            }
        },
    }
}

/// What a tagged value's fields make of it.
pub open spec fn tagged_finish(
    r: Result<(Option<(Seq<char>, int)>, Option<RawModel>, int), DecodeFault>,
) -> Result<(ScalarModel, int), DecodeFault> {
    match r {
        Err(f) => Err(f),
        Ok((ty, val, s)) => match ty {
            None => Err(DecodeFault::MissingField("type"@)),
            Some((t, t_offset)) => match val {
                None => Err(DecodeFault::MissingField("value"@)),
                Some(v) => match tagged_scalar(t, t_offset, v) {
                    Err(f) => Err(f),
                    Ok(sv) => Ok((sv, s)),
                },
            },
        },
    }
}

/// A tagged value `{"type": ..., "value": ...}` at `p`.
pub open spec fn tagged_value(b: Seq<u8>, lim: InputLimits, p: int, depth: int) -> Result<(ScalarModel, int), DecodeFault> {
    if depth >= lim.max_depth {
        Err(too_deep())
    } else {
        match expect(b, p, 0x7b, "tagged value object"@) {
            Err(f) => Err(f),
            Ok(r) => {
                let q = ws(b, r);
                if at(b, q) == Some(0x7du8) {
                    Err(DecodeFault::MissingField("type"@))
                } else {
                    tagged_finish(tagged_fields(b, lim, q, depth + 1, Seq::empty(), None, None))
                }
            },
        }
    }
}

/// The entries of a values object from `p`, with the names `seen` so far
/// and the map read so far.
pub open spec fn value_entries(
    b: Seq<u8>,
    lim: InputLimits,
    p: int,
    depth: int,
    seen: Seq<Seq<char>>,
    map: Seq<(Seq<char>, ScalarModel)>,
) -> Result<(Seq<(Seq<char>, ScalarModel)>, int), DecodeFault>
    decreases b.len() - p,
{
    let q = ws(b, p);
    match input_name(b, lim, q) {
        Err(f) => Err(f),
        Ok((name, r1)) => if seen.contains(name) {
            Err(DecodeFault::DuplicateKey { key: name, offset: q })
        } else if seen.len() + 1 > lim.max_input_count {
            Err(DecodeFault::LimitExceeded("input count per shard"@))
        } else {
            match expect(b, r1, 0x3a, "input value separator"@) {
                Err(f) => Err(f),
                Ok(r2) => match tagged_value(b, lim, r2, depth) {
                    Err(f) => Err(f),
                    Ok((v, r3)) => {
                        let map2 = insert_pairs(map, name, v);
                        let s = ws(b, r3);
                        match at(b, s) {
                            Some(d) => if d == 0x2c {
                                if s < p {
                                    Err(DecodeFault::UnexpectedEof)
                                } else {
                                    value_entries(b, lim, s + 1, depth, seen.push(name), map2)
                                }
                            } else if d == 0x7d {
                                Ok((map2, s + 1))
                            } else {
                                Err(
                                    syntax(
                                        "expected ',' or '}' in values object, found '"@ + shown(d)
                                            + "'"@,
                                        s,
                                    ),
                                )
                            },
                            None => Err(DecodeFault::UnexpectedEof),
                        }
                    },
                },
            }
        },
    }
}

/// The `values` object at `p`.
pub open spec fn values_object(b: Seq<u8>, lim: InputLimits, p: int, depth: int) -> Result<(Seq<(Seq<char>, ScalarModel)>, int), DecodeFault> {
    if depth >= lim.max_depth {
        Err(too_deep())
    } else {
        match expect(b, p, 0x7b, "values object"@) {
            Err(f) => Err(f),
            Ok(r) => {
                let q = ws(b, r);
                if at(b, q) == Some(0x7du8) {
                    Ok((Seq::empty(), q + 1))
                } else {
                    value_entries(b, lim, q, depth + 1, Seq::empty(), Seq::empty())
                }
            },
        }
    }
}

/// The fields of the root envelope from `p`.
pub open spec fn envelope_fields(
    b: Seq<u8>,
    lim: InputLimits,
    p: int,
    depth: int,
    seen: Seq<Seq<char>>,
    schema: Option<Seq<char>>,
    values: Option<Seq<(Seq<char>, ScalarModel)>>,
) -> Result<(Option<Seq<char>>, Option<Seq<(Seq<char>, ScalarModel)>>, int), DecodeFault>
    decreases b.len() - p,
{
    let q = ws(b, p);
    match quoted_text(b, q, lim.max_name_bytes) {
        Err(f) => Err(f),
        Ok((key, r1)) => if seen.contains(key) {
            Err(DecodeFault::DuplicateKey { key, offset: q })
        } else {
            match expect(b, r1, 0x3a, "envelope field separator"@) {
                Err(f) => Err(f),
                Ok(r2) => {
                    let step: Result<(Option<Seq<char>>, Option<Seq<(Seq<char>, ScalarModel)>>, int), DecodeFault> = if key
                        == "schema"@ {
                        match quoted_text(b, r2, 64) {
                            Err(f) => Err(f),
                            Ok((sv, r3)) => if sv != "brix.input@1"@ {
                                Err(
                                    DecodeFault::InvalidSchema {
                                        expected: "brix.input@1"@,
                                        found: sv,
                                    },
                                )
                            } else {
                                Ok((Some(sv), values, r3))
                            },
                        }
                    } else if key == "values"@ {
                        match values_object(b, lim, r2, depth) {
                            Err(f) => Err(f),
                            Ok((vals, r3)) => Ok((schema, Some(vals), r3)),
                        }
                    } else {
                        Err(DecodeFault::UnknownField { field: key, offset: q })
                    };
                    match step {
                        Err(f) => Err(f),
                        Ok((schema2, values2, r3)) => {
                            let s = ws(b, r3);
                            match at(b, s) {
                                Some(d) => if d == 0x2c {
                                    if s < p {
                                        Err(DecodeFault::UnexpectedEof)
                                    } else {
                                        envelope_fields(
                                            b,
                                            lim,
                                            s + 1,
                                            depth,
                                            seen.push(key),
                                            schema2,
                                            values2,
                                        )
                                    }
                                } else if d == 0x7d {
                                    Ok((schema2, values2, s + 1))
                                } else {
                                    Err(
                                        syntax(
                                            "expected ',' or '}' in envelope, found '"@ + shown(d)
                                                + "'"@,
                                            s,
                                        ),
                                    )
                                },
                                None => Err(DecodeFault::UnexpectedEof),
                            }
                        },
                    }
                },
            }
        },
    }
}

/// Model of a decoded shard.
pub struct ShardModel {
    pub schema: Seq<char>,
    pub values: Seq<(Seq<char>, ScalarModel)>,
    pub byte_count: int,
}

/// What the envelope's fields make of a document of `len` bytes.
pub open spec fn envelope_finish(
    r: Result<(Option<Seq<char>>, Option<Seq<(Seq<char>, ScalarModel)>>, int), DecodeFault>,
    len: int,
) -> Result<(ShardModel, int), DecodeFault> {
    match r {
        Err(f) => Err(f),
        Ok((schema, values, s)) => match schema {
            None => Err(DecodeFault::MissingField("schema"@)),
            Some(sv) => match values {
                None => Err(DecodeFault::MissingField("values"@)),
                Some(vals) => Ok((ShardModel { schema: sv, values: vals, byte_count: len }, s)),
            },
        },
    }
}

/// The root envelope at `p`.
pub open spec fn envelope(b: Seq<u8>, lim: InputLimits, p: int, depth: int) -> Result<(ShardModel, int), DecodeFault> {
    if depth >= lim.max_depth {
        Err(too_deep())
    } else {
        match expect(b, p, 0x7b, "root envelope object"@) {
            Err(f) => Err(f),
            Ok(r) => {
                let q = ws(b, r);
                if at(b, q) == Some(0x7du8) {
                    Err(DecodeFault::MissingField("schema"@))
                } else {
                    envelope_finish(
                        envelope_fields(b, lim, q, depth + 1, Seq::empty(), None, None),
                        b.len() as int,
                    )
                }
            },
        }
    }
}

proof fn lemma_envelope_fields_schema(
    b: Seq<u8>,
    lim: InputLimits,
    p: int,
    depth: int,
    seen: Seq<Seq<char>>,
    schema: Option<Seq<char>>,
    values: Option<Seq<(Seq<char>, ScalarModel)>>,
)
    requires
        schema matches Some(sv) ==> sv == "brix.input@1"@,
    ensures
        envelope_fields(b, lim, p, depth, seen, schema, values) matches Ok((Some(sv), _, _)) ==> sv
            == "brix.input@1"@,
    decreases b.len() - p,
{
    let q = ws(b, p);
    if let Ok((key, r1)) = quoted_text(b, q, lim.max_name_bytes) {
        if !seen.contains(key) {
            if let Ok(r2) = expect(b, r1, 0x3a, "envelope field separator"@) {
                let step: Result<(Option<Seq<char>>, Option<Seq<(Seq<char>, ScalarModel)>>, int), DecodeFault> = if key
                    == "schema"@ {
                    match quoted_text(b, r2, 64) {
                        Err(f) => Err(f),
                        Ok((sv, r3)) => if sv != "brix.input@1"@ {
                            Err(DecodeFault::InvalidSchema { expected: "brix.input@1"@, found: sv })
                        } else {
                            Ok((Some(sv), values, r3))
                        },
                    }
                } else if key == "values"@ {
                    match values_object(b, lim, r2, depth) {
                        Err(f) => Err(f),
                        Ok((vals, r3)) => Ok((schema, Some(vals), r3)),
                    }
                } else {
                    Err(DecodeFault::UnknownField { field: key, offset: q })
                };
                if let Ok((schema2, values2, r3)) = step {
                    let s = ws(b, r3);
                    if at(b, s) == Some(0x2cu8) && s >= p {
                        lemma_envelope_fields_schema(b, lim, s + 1, depth, seen.push(key), schema2, values2);
                    }
                }
            }
        }
    }
}

/// Every decoded envelope carries the one schema marker the decoder admits.
pub proof fn lemma_shard_schema(b: Seq<u8>, lim: InputLimits)
    ensures
        shard_spec(b, lim) matches Ok(m) ==> m.schema == "brix.input@1"@,
{
    let p = ws(b, 0);
    if let Ok(r) = expect(b, p, 0x7b, "root envelope object"@) {
        lemma_envelope_fields_schema(b, lim, ws(b, r), 1, Seq::empty(), None, None);
    }
}

/// A whole document: the envelope, with nothing but whitespace after it.
pub open spec fn shard_spec(b: Seq<u8>, lim: InputLimits) -> Result<ShardModel, DecodeFault> {
    match envelope(b, lim, ws(b, 0), 0) {
        Err(f) => Err(f),
        Ok((shard, r)) => {
            let s = ws(b, r);
            if s < b.len() {
                Err(DecodeFault::TrailingBytes { offset: s })
            } else {
                Ok(shard)
            }
        },
    }
}

} // verus!
