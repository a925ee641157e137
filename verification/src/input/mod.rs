//! Strict, bounded decoding of external input artifacts (`brix.input@1`)
//! and their combination into a canonical snapshot.
//!
//! A document is a root object with exactly the fields `schema` and
//! `values`; every object refuses duplicate keys and unknown fields; sizes,
//! counts, names and nesting are bounded. Several shards combine into one
//! snapshot only when no input name occurs in two of them.
use vstd::prelude::*;
use crate::text::{decimal, owned, u64_text, usize_text};

use crate::input::grammar::DecodeFault;
use crate::keymap::{map_entries, KeyMap};
use crate::l3_v2::{L3ValueType, L3ValueV2, ValueModel};

pub mod grammar;
pub mod parser;
pub mod shards;
pub mod order;
pub mod validation;
pub mod files;
pub mod bounds;

pub use parser::decode_input_shard;
pub use shards::{canonicalize_input_shards, InputError, InputSnapshot};
pub use validation::{validate_against_declarations, validate_completeness, InputValidationError};

verus! {

/// The schema identifier of external input artifacts.
pub const INPUT_SCHEMA_V1: &'static str = "brix.input@1";

/// Maximum bytes per input file.
pub const MAX_INPUT_FILE_BYTES: usize = 1024 * 1024;

/// Maximum number of input shard files.
pub const MAX_INPUT_FILES: usize = 16;

/// Maximum bytes across all input shards.
pub const MAX_AGGREGATE_BYTES: usize = 4 * 1024 * 1024;

/// Maximum number of inputs across all shards.
pub const MAX_INPUT_COUNT: usize = 256;

/// Maximum byte length of an input name.
pub const MAX_INPUT_NAME_BYTES: usize = 64;

/// Maximum byte length of an input string value.
pub const MAX_STRING_VALUE_BYTES: usize = 65536;

/// Maximum JSON nesting depth.
pub const MAX_JSON_DEPTH: usize = 8;

/// Resource limits for decoding input artifacts and combining shards.
#[derive(Clone, Copy, Debug, PartialEq, Eq)]
pub struct InputLimits {
    pub max_file_bytes: usize,
    pub max_files: usize,
    pub max_aggregate_bytes: usize,
    pub max_input_count: usize,
    pub max_name_bytes: usize,
    pub max_string_value_bytes: usize,
    pub max_depth: usize,
}

impl Default for InputLimits {
    fn default() -> (l: Self)
        ensures
            l == (InputLimits {
                max_file_bytes: MAX_INPUT_FILE_BYTES,
                max_files: MAX_INPUT_FILES,
                max_aggregate_bytes: MAX_AGGREGATE_BYTES,
                max_input_count: MAX_INPUT_COUNT,
                max_name_bytes: MAX_INPUT_NAME_BYTES,
                max_string_value_bytes: MAX_STRING_VALUE_BYTES,
                max_depth: MAX_JSON_DEPTH,
            }),
    {
        InputLimits {
            max_file_bytes: MAX_INPUT_FILE_BYTES,
            max_files: MAX_INPUT_FILES,
            max_aggregate_bytes: MAX_AGGREGATE_BYTES,
            max_input_count: MAX_INPUT_COUNT,
            max_name_bytes: MAX_INPUT_NAME_BYTES,
            max_string_value_bytes: MAX_STRING_VALUE_BYTES,
            max_depth: MAX_JSON_DEPTH,
        }
    }
}

/// An admitted scalar input value.
#[derive(Clone, Debug, PartialEq, Eq, PartialOrd, Ord)]
pub enum InputScalarValue {
    Int(i64),
    Bool(bool),
    Str(String),
}

/// Model of a scalar input value.
pub enum ScalarModel {
    Int(i64),
    Bool(bool),
    Str(Seq<char>),
}

impl View for InputScalarValue {
    type V = ScalarModel;

    open spec fn view(&self) -> ScalarModel {
        match self {
            InputScalarValue::Int(n) => ScalarModel::Int(*n),
            InputScalarValue::Bool(b) => ScalarModel::Bool(*b),
            InputScalarValue::Str(s) => ScalarModel::Str(s@),
        }
    }
}

/// The runtime value a scalar input stands for.
pub open spec fn scalar_value(s: ScalarModel) -> ValueModel {
    match s {
        ScalarModel::Int(n) => ValueModel::Int(n),
        ScalarModel::Bool(b) => ValueModel::Bool(b),
        ScalarModel::Str(t) => ValueModel::Str(t),
    }
}

/// The scalar input a runtime value stands for, if it is a scalar.
pub open spec fn value_scalar(v: ValueModel) -> Option<ScalarModel> {
    match v {
        ValueModel::Int(n) => Some(ScalarModel::Int(n)),
        ValueModel::Bool(b) => Some(ScalarModel::Bool(b)),
        ValueModel::Str(t) => Some(ScalarModel::Str(t)),
        _ => None,
    }
}

/// Type category of a scalar input.
pub open spec fn scalar_type(s: ScalarModel) -> L3ValueType {
    match s {
        ScalarModel::Int(_) => L3ValueType::Int,
        ScalarModel::Bool(_) => L3ValueType::Bool,
        ScalarModel::Str(_) => L3ValueType::Str,
    }
}

impl InputScalarValue {
    /// The value's type category.
    pub fn value_type(&self) -> (t: L3ValueType)
        ensures
            t == scalar_type(self@),
    {
        match self {
            InputScalarValue::Int(_) => L3ValueType::Int,
            InputScalarValue::Bool(_) => L3ValueType::Bool,
            InputScalarValue::Str(_) => L3ValueType::Str,
        }
    }

    /// The runtime value this input stands for.
    pub fn to_l3_value(&self) -> (v: L3ValueV2)
        ensures
            v@ == scalar_value(self@),
    {
        match self {
            InputScalarValue::Int(n) => L3ValueV2::Int(*n),
            InputScalarValue::Bool(b) => L3ValueV2::Bool(*b),
            InputScalarValue::Str(s) => L3ValueV2::Str(s.clone()),
        }
    }

    /// The scalar input a runtime value stands for; `None` for sums and
    /// records.
    pub fn from_l3_value(val: &L3ValueV2) -> (r: Option<InputScalarValue>)
        ensures
            match r {
                Some(s) => value_scalar(val@) == Some(s@),
                None => value_scalar(val@) is None,
            },
    {
        match val {
            L3ValueV2::Int(n) => Some(InputScalarValue::Int(*n)),
            L3ValueV2::Bool(b) => Some(InputScalarValue::Bool(*b)),
            L3ValueV2::Str(s) => Some(InputScalarValue::Str(s.clone())),
            _ => None,
        }
    }
}

/// Converting a scalar input to a runtime value and back gives it back.
pub proof fn lemma_scalar_roundtrip(s: ScalarModel)
    ensures
        value_scalar(scalar_value(s)) == Some(s),
{
}

/// A runtime value that converts to a scalar input converts back to itself.
pub proof fn lemma_value_roundtrip(v: ValueModel)
    ensures
        value_scalar(v) matches Some(s) ==> scalar_value(s) == v,
{
}

/// Models of the entries of a scalar map.
pub open spec fn scalars_model(p: Seq<(Seq<char>, InputScalarValue)>) -> Seq<(Seq<char>, ScalarModel)> {
    map_entries(p, |v: InputScalarValue| v@)
}

/// A decoded input shard, before combination.
#[derive(Clone, Debug, PartialEq, Eq)]
pub struct InputShard {
    schema: String,
    values: KeyMap<InputScalarValue>,
    byte_count: usize,
}

impl View for InputShard {
    type V = crate::input::grammar::ShardModel;

    closed spec fn view(&self) -> crate::input::grammar::ShardModel {
        crate::input::grammar::ShardModel {
            schema: self.schema@,
            values: scalars_model(self.values.pairs()),
            byte_count: self.byte_count as int,
        }
    }
}

/// Every shard keeps its names ascending and counts its bytes.
pub proof fn lemma_input_shard_valid(s: InputShard)
    ensures
        crate::input::order::shard_valid(s@),
{
    crate::keymap::lemma_pairs_ascending(s.values);
    let p = s.values.pairs();
    let m = scalars_model(p);
    assert forall|i: int, j: int| 0 <= i < j < m.len() implies crate::keymap::key_lt(#[trigger] m[i].0, #[trigger] m[j].0) by {
        assert(m[i].0 == p[i].0 && m[j].0 == p[j].0);
    }
}

impl InputShard {
    /// Build a shard from its parts.
    pub(crate) fn from_parts(schema: String, values: KeyMap<InputScalarValue>, byte_count: usize) -> (s: InputShard)
        ensures
            s@.schema == schema@,
            s@.values == scalars_model(values.pairs()),
            s@.byte_count == byte_count,
    {
        InputShard { schema, values, byte_count }
    }

    /// The schema marker of the envelope.
    pub fn schema(&self) -> (s: &str)
        ensures
            s@ == self@.schema,
    {
        self.schema.as_str()
    }

    /// The decoded values, by name.
    pub fn values(&self) -> (m: &KeyMap<InputScalarValue>)
        ensures
            scalars_model(m.pairs()) == self@.values,
    {
        &self.values
    }

    /// Number of bytes of the raw shard.
    pub fn byte_count(&self) -> (n: usize)
        ensures
            n == self@.byte_count,
    {
        self.byte_count
    }

    /// The value of input `name`, if present.
    pub fn get(&self, name: &str) -> (r: Option<&InputScalarValue>)
        ensures
            match r {
                Some(v) => crate::keymap::assoc_get(self@.values, name@) == Some(v@),
                None => crate::keymap::assoc_get(self@.values, name@) is None,
            },
    {
        proof {
            crate::keymap::lemma_get_mapped(self.values.pairs(), name@, |v: InputScalarValue| v@);
        }
        self.values.get(name)
    }
}

/// Why an input artifact could not be decoded.
#[allow(inconsistent_fields)]
#[derive(Clone, Debug, PartialEq, Eq)]
pub enum InputDecodeError {
    FileTooLarge { limit: usize, found: u64 },
    IoError { path: String, message: String },
    NotARegularFile(String),
    DuplicateKey { key: String, offset: usize },
    UnknownField { field: String, offset: usize },
    MissingField(&'static str),
    InvalidSchema { expected: &'static str, found: String },
    InvalidType { expected: &'static str, found: String, offset: usize },
    NameTooLong { limit: usize },
    InvalidIdentifier { name: String, reason: &'static str },
    StringValueTooLong { limit: usize, found: usize },
    IntegerOverflow { raw: String },
    InvalidIntegerFormat { raw: String },
    LimitExceeded(&'static str),
    UnexpectedEof,
    TrailingBytes { offset: usize },
    SyntaxError { message: String, offset: usize },
}

impl View for InputDecodeError {
    type V = DecodeFault;

    open spec fn view(&self) -> DecodeFault {
        match self {
            InputDecodeError::FileTooLarge { limit, found } => DecodeFault::FileTooLarge {
                limit: *limit,
                found: *found as int,
            },
            InputDecodeError::IoError { path, message } => DecodeFault::IoError {
                path: path@,
                message: message@,
            },
            InputDecodeError::NotARegularFile(p) => DecodeFault::NotARegularFile(p@),
            InputDecodeError::DuplicateKey { key, offset } => DecodeFault::DuplicateKey {
                key: key@,
                offset: *offset as int,
            },
            InputDecodeError::UnknownField { field, offset } => DecodeFault::UnknownField {
                field: field@,
                offset: *offset as int,
            },
            InputDecodeError::MissingField(f) => DecodeFault::MissingField(f@),
            InputDecodeError::InvalidSchema { expected, found } => DecodeFault::InvalidSchema {
                expected: expected@,
                found: found@,
            },
            InputDecodeError::InvalidType { expected, found, offset } => DecodeFault::InvalidType {
                expected: expected@,
                found: found@,
                offset: *offset as int,
            },
            InputDecodeError::NameTooLong { limit } => DecodeFault::NameTooLong { limit: *limit },
            InputDecodeError::InvalidIdentifier { name, reason } => DecodeFault::InvalidIdentifier {
                name: name@,
                reason: reason@,
            },
            InputDecodeError::StringValueTooLong { limit, found } => DecodeFault::StringValueTooLong {
                limit: *limit,
                found: *found as int,
            },
            InputDecodeError::IntegerOverflow { raw } => DecodeFault::IntegerOverflow { raw: raw@ },
            InputDecodeError::InvalidIntegerFormat { raw } => DecodeFault::InvalidIntegerFormat {
                raw: raw@,
            },
            InputDecodeError::LimitExceeded(l) => DecodeFault::LimitExceeded(l@),
            InputDecodeError::UnexpectedEof => DecodeFault::UnexpectedEof,
            InputDecodeError::TrailingBytes { offset } => DecodeFault::TrailingBytes {
                offset: *offset as int,
            },
            InputDecodeError::SyntaxError { message, offset } => DecodeFault::SyntaxError {
                message: message@,
                offset: *offset as int,
            },
        }
    }
}

/// The diagnostic text of a decoding error.
pub open spec fn decode_error_text(e: InputDecodeError) -> Seq<char> {
    match e {
        InputDecodeError::FileTooLarge { limit, found } => "input file size ("@ + decimal(found as nat) + " bytes) exceeds limit ("@ + decimal(limit as nat) + " bytes)"@,
        InputDecodeError::IoError { path, message } => "I/O error reading input '"@ + path@ + "': "@ + message@,
        InputDecodeError::NotARegularFile(path) => "path is not a regular file: "@ + path@,
        InputDecodeError::DuplicateKey { key, offset } => "duplicate JSON key '"@ + key@ + "' at byte offset "@ + decimal(offset as nat),
        InputDecodeError::UnknownField { field, offset } => "unknown field '"@ + field@ + "' at byte offset "@ + decimal(offset as nat),
        InputDecodeError::MissingField(field) => "missing required field '"@ + field@ + "'"@,
        InputDecodeError::InvalidSchema { expected, found } => "schema mismatch: expected '"@ + expected@ + "', found '"@ + found@ + "'"@,
        InputDecodeError::InvalidType { expected, found, offset } => "invalid type at offset "@ + decimal(offset as nat) + ": expected "@ + expected@ + ", found '"@ + found@ + "'"@,
        InputDecodeError::NameTooLong { limit } => "input name exceeds length limit ("@ + decimal(limit as nat) + " bytes)"@,
        InputDecodeError::InvalidIdentifier { name, reason } => "invalid identifier '"@ + name@ + "': "@ + reason@,
        InputDecodeError::StringValueTooLong { limit, found } => "string value length ("@ + decimal(found as nat) + " bytes) exceeds limit ("@ + decimal(limit as nat) + " bytes)"@,
        InputDecodeError::IntegerOverflow { raw } => "integer literal '"@ + raw@ + "' overflows 64-bit signed integer range"@,
        InputDecodeError::InvalidIntegerFormat { raw } => "invalid integer format '"@ + raw@ + "' (must be base-10 decimal string)"@,
        InputDecodeError::LimitExceeded(limit) => "resource limit exceeded: "@ + limit@,
        InputDecodeError::UnexpectedEof => "unexpected end of JSON input"@,
        InputDecodeError::TrailingBytes { offset } => "unexpected trailing non-whitespace bytes at offset "@ + decimal(offset as nat),
        InputDecodeError::SyntaxError { message, offset } => "JSON syntax error at offset "@ + decimal(offset as nat) + ": "@ + message@,
    }
}

impl InputDecodeError {
    /// The diagnostic text of a decoding error.
    pub fn to_display_string(&self) -> (s: String)
        ensures
            s@ == decode_error_text(*self),
    {
        match self {
            InputDecodeError::FileTooLarge { limit, found } => {
                let mut s = owned("input file size (");
                let t0 = u64_text(*found);
                s.append(t0.as_str());
                s.append(" bytes) exceeds limit (");
                let t2 = usize_text(*limit);
                s.append(t2.as_str());
                s.append(" bytes)");
                s
            },
            InputDecodeError::IoError { path, message } => {
                let mut s = owned("I/O error reading input '");
                s.append(path.as_str());
                s.append("': ");
                s.append(message.as_str());
                s
            },
            InputDecodeError::NotARegularFile(path) => {
                let mut s = owned("path is not a regular file: ");
                s.append(path.as_str());
                s
            },
            InputDecodeError::DuplicateKey { key, offset } => {
                let mut s = owned("duplicate JSON key '");
                s.append(key.as_str());
                s.append("' at byte offset ");
                let t2 = usize_text(*offset);
                s.append(t2.as_str());
                s
            },
            InputDecodeError::UnknownField { field, offset } => {
                let mut s = owned("unknown field '");
                s.append(field.as_str());
                s.append("' at byte offset ");
                let t2 = usize_text(*offset);
                s.append(t2.as_str());
                s
            },
            InputDecodeError::MissingField(field) => {
                let mut s = owned("missing required field '");
                s.append(*field);
                s.append("'");
                s
            },
            InputDecodeError::InvalidSchema { expected, found } => {
                let mut s = owned("schema mismatch: expected '");
                s.append(*expected);
                s.append("', found '");
                s.append(found.as_str());
                s.append("'");
                s
            },
            InputDecodeError::InvalidType { expected, found, offset } => {
                let mut s = owned("invalid type at offset ");
                let t0 = usize_text(*offset);
                s.append(t0.as_str());
                s.append(": expected ");
                s.append(*expected);
                s.append(", found '");
                s.append(found.as_str());
                s.append("'");
                s
            },
            InputDecodeError::NameTooLong { limit } => {
                let mut s = owned("input name exceeds length limit (");
                let t0 = usize_text(*limit);
                s.append(t0.as_str());
                s.append(" bytes)");
                s
            },
            InputDecodeError::InvalidIdentifier { name, reason } => {
                let mut s = owned("invalid identifier '");
                s.append(name.as_str());
                s.append("': ");
                s.append(*reason);
                s
            },
            InputDecodeError::StringValueTooLong { limit, found } => {
                let mut s = owned("string value length (");
                let t0 = usize_text(*found);
                s.append(t0.as_str());
                s.append(" bytes) exceeds limit (");
                let t2 = usize_text(*limit);
                s.append(t2.as_str());
                s.append(" bytes)");
                s
            },
            InputDecodeError::IntegerOverflow { raw } => {
                let mut s = owned("integer literal '");
                s.append(raw.as_str());
                s.append("' overflows 64-bit signed integer range");
                s
            },
            InputDecodeError::InvalidIntegerFormat { raw } => {
                let mut s = owned("invalid integer format '");
                s.append(raw.as_str());
                s.append("' (must be base-10 decimal string)");
                s
            },
            InputDecodeError::LimitExceeded(limit) => {
                let mut s = owned("resource limit exceeded: ");
                s.append(*limit);
                s
            },
            InputDecodeError::UnexpectedEof => {
                let mut s = owned("unexpected end of JSON input");
                s
            },
            InputDecodeError::TrailingBytes { offset } => {
                let mut s = owned("unexpected trailing non-whitespace bytes at offset ");
                let t0 = usize_text(*offset);
                s.append(t0.as_str());
                s
            },
            InputDecodeError::SyntaxError { message, offset } => {
                let mut s = owned("JSON syntax error at offset ");
                let t0 = usize_text(*offset);
                s.append(t0.as_str());
                s.append(": ");
                s.append(message.as_str());
                s
            },
        }
    }
}

} // verus!
