use brix_lower::finite_decision::plan::{
    FiniteDecisionCommit, FiniteDecisionInput, FiniteDecisionPlan, FINITE_DECISION_PROFILE,
};
use brix_lower::input::{
    canonicalize_input_shards, decode_input_shard, validate_against_declarations, validate_completeness,
    InputDecodeError, InputError, InputLimits, InputScalarValue, InputShard, InputSnapshot, InputValidationError,
    INPUT_SCHEMA_V1,
};
use brix_lower::input::files::{
    add_aggregate_bytes, admit_file_metadata, admit_metadata_entry, admit_path_count, file_read_limit,
};
use brix_lower::l3_v2::{L3ValueType, L3ValueV2};

fn decode(text: &str) -> Result<InputShard, InputDecodeError> {
    decode_input_shard(text.as_bytes(), &InputLimits::default())
}

fn shard(text: &str) -> InputShard {
    decode(text).expect("valid document")
}

fn plan(inputs: Vec<(&str, L3ValueType)>) -> FiniteDecisionPlan {
    FiniteDecisionPlan {
        profile: FINITE_DECISION_PROFILE.to_string(),
        configs: vec![],
        inputs: inputs
            .into_iter()
            .enumerate()
            .map(|(i, (n, t))| FiniteDecisionInput { ordinal: i as u64, name: n.to_string(), ty: t })
            .collect(),
        functions: vec![],
        lets: vec![],
        rules: vec![],
        proposals: vec![],
        commit: FiniteDecisionCommit { name: "c".to_string(), candidates: vec![] },
        shows: vec![],
    }
}

const DOC: &str = r#"{"schema": "brix.input@1", "values": {"zeta": {"type": "int", "value": "-42"}, "alpha": {"type": "bool", "value": true}, "name": {"type": "string", "value": "h\u00e9\n"}}}"#;

#[test]
fn valid_document_decodes_every_kind_of_value() {
    let s = shard(DOC);
    assert_eq!(s.schema(), INPUT_SCHEMA_V1);
    assert_eq!(s.byte_count(), DOC.len());
    assert_eq!(s.get("zeta"), Some(&InputScalarValue::Int(-42)));
    assert_eq!(s.get("alpha"), Some(&InputScalarValue::Bool(true)));
    assert_eq!(s.get("name"), Some(&InputScalarValue::Str("hé\n".to_string())));
    assert_eq!(s.get("missing"), None);
    let keys: Vec<String> = (0..s.values().len()).map(|i| s.values().key_at(i).clone()).collect();
    assert_eq!(keys, vec!["alpha", "name", "zeta"]);
}

#[test]
fn empty_values_object_is_accepted() {
    let s = shard(r#" { "values" : { } , "schema" : "brix.input@1" } "#);
    assert_eq!(s.values().len(), 0);
}

#[test]
fn duplicate_envelope_key_is_refused_at_its_offset() {
    let r = decode(r#"{"schema": "brix.input@1", "schema": "brix.input@1"}"#);
    assert_eq!(r, Err(InputDecodeError::DuplicateKey { key: "schema".to_string(), offset: 27 }));
}

#[test]
fn duplicate_input_name_is_refused() {
    let r = decode(r#"{"values": {"a": {"type": "bool", "value": true}, "a": {"type": "bool", "value": false}}}"#);
    assert!(matches!(r, Err(InputDecodeError::DuplicateKey { ref key, .. }) if key == "a"));
}

#[test]
fn unknown_envelope_field_is_refused() {
    let r = decode(r#"{"extra": 1}"#);
    assert_eq!(r, Err(InputDecodeError::UnknownField { field: "extra".to_string(), offset: 1 }));
}

#[test]
fn missing_fields_are_named() {
    assert_eq!(decode("{}"), Err(InputDecodeError::MissingField("schema")));
    assert_eq!(decode(r#"{"schema": "brix.input@1"}"#), Err(InputDecodeError::MissingField("values")));
    assert_eq!(decode(r#"{"values": {}}"#), Err(InputDecodeError::MissingField("schema")));
    assert_eq!(
        decode(r#"{"schema": "brix.input@1", "values": {"a": {"value": true}}}"#),
        Err(InputDecodeError::MissingField("type"))
    );
}

#[test]
fn wrong_schema_is_refused() {
    assert_eq!(
        decode(r#"{"schema": "brix.input@2", "values": {}}"#),
        Err(InputDecodeError::InvalidSchema { expected: INPUT_SCHEMA_V1, found: "brix.input@2".to_string() })
    );
}

#[test]
fn integers_must_be_canonical_decimal_strings() {
    let r = decode(r#"{"schema": "brix.input@1", "values": {"n": {"type": "int", "value": "007"}}}"#);
    assert_eq!(r, Err(InputDecodeError::InvalidIntegerFormat { raw: "007".to_string() }));
    let r = decode(r#"{"schema": "brix.input@1", "values": {"n": {"type": "int", "value": "-0"}}}"#);
    assert_eq!(r, Err(InputDecodeError::InvalidIntegerFormat { raw: "-0".to_string() }));
    let r = decode(r#"{"schema": "brix.input@1", "values": {"n": {"type": "int", "value": 7}}}"#);
    assert!(matches!(r, Err(InputDecodeError::InvalidType { ref found, .. }) if found == "number"));
}

#[test]
fn integer_overflow_is_refused() {
    let r = decode(r#"{"schema": "brix.input@1", "values": {"n": {"type": "int", "value": "9223372036854775808"}}}"#);
    assert_eq!(r, Err(InputDecodeError::IntegerOverflow { raw: "9223372036854775808".to_string() }));
    let s = shard(r#"{"schema": "brix.input@1", "values": {"n": {"type": "int", "value": "-9223372036854775808"}}}"#);
    assert_eq!(s.get("n"), Some(&InputScalarValue::Int(i64::MIN)));
}

#[test]
fn invalid_identifiers_are_refused() {
    let r = decode(r#"{"schema": "brix.input@1", "values": {"9lives": {"type": "bool", "value": true}}}"#);
    assert!(matches!(r, Err(InputDecodeError::InvalidIdentifier { ref name, .. }) if name == "9lives"));
}

#[test]
fn invalid_utf8_is_a_syntax_error_at_the_first_bad_byte() {
    let bytes = b"{\"schema\": \"\xff\"}";
    let r = decode_input_shard(bytes, &InputLimits::default());
    assert!(matches!(r, Err(InputDecodeError::SyntaxError { offset: 12, .. })));
}

#[test]
fn trailing_bytes_are_refused() {
    let r = decode(r#"{"schema": "brix.input@1", "values": {}} x"#);
    assert_eq!(r, Err(InputDecodeError::TrailingBytes { offset: 41 }));
}

#[test]
fn oversized_file_is_refused_before_parsing() {
    let mut limits = InputLimits::default();
    limits.max_file_bytes = 4;
    let r = decode_input_shard(b"{    }", &limits);
    assert_eq!(r, Err(InputDecodeError::FileTooLarge { limit: 4, found: 6 }));
}

#[test]
fn nesting_beyond_the_depth_limit_is_refused() {
    let mut limits = InputLimits::default();
    limits.max_depth = 2;
    let r = decode_input_shard(br#"{"schema": "brix.input@1", "values": {"a": {"type": "bool", "value": true}}}"#, &limits);
    assert_eq!(r, Err(InputDecodeError::LimitExceeded("JSON nesting depth limit")));
}

#[test]
fn truncated_document_is_unexpected_eof() {
    assert_eq!(decode(r#"{"schema": "brix.input@1""#), Err(InputDecodeError::UnexpectedEof));
}

#[test]
fn disjoint_shards_combine_into_one_sorted_snapshot() {
    let a = shard(r#"{"schema": "brix.input@1", "values": {"b": {"type": "bool", "value": false}}}"#);
    let b = shard(r#"{"schema": "brix.input@1", "values": {"a": {"type": "int", "value": "1"}}}"#);
    let total = a.byte_count() + b.byte_count();
    let snap = canonicalize_input_shards(vec![a, b], &InputLimits::default()).expect("disjoint");
    assert_eq!(snap.len(), 2);
    assert!(!snap.is_empty());
    assert_eq!(snap.shard_count(), 2);
    assert_eq!(snap.total_bytes(), total);
    assert_eq!(snap.get("a"), Some(&InputScalarValue::Int(1)));
    assert_eq!(snap.values().key_at(0), "a");
}

#[test]
fn shard_order_does_not_change_the_snapshot() {
    let t1 = r#"{"schema": "brix.input@1", "values": {"x": {"type": "int", "value": "1"}}}"#;
    let t2 = r#"{"schema": "brix.input@1", "values": {"y": {"type": "string", "value": "s"}}}"#;
    let s1 = canonicalize_input_shards(vec![shard(t1), shard(t2)], &InputLimits::default()).unwrap();
    let s2 = canonicalize_input_shards(vec![shard(t2), shard(t1)], &InputLimits::default()).unwrap();
    assert_eq!(s1, s2);
}

#[test]
fn every_order_of_the_same_shards_combines_or_fails_alike() {
    let t1 = r#"{"schema": "brix.input@1", "values": {"x": {"type": "int", "value": "1"}}}"#;
    let t2 = r#"{"schema": "brix.input@1", "values": {"y": {"type": "string", "value": "s"}, "z": {"type": "bool", "value": false}}}"#;
    let t3 = r#"{"schema": "brix.input@1", "values": {}}"#;
    let orders = [[t1, t2, t3], [t3, t2, t1], [t2, t1, t3]];
    let mut tight = InputLimits::default();
    tight.max_input_count = 2;
    let mut narrow = InputLimits::default();
    narrow.max_aggregate_bytes = t1.len() + t2.len() + t3.len() - 1;
    for limits in [InputLimits::default(), tight, narrow] {
        let results: Vec<_> = orders
            .iter()
            .map(|o| canonicalize_input_shards(o.iter().map(|t| shard(t)).collect(), &limits))
            .collect();
        assert_eq!(results[0].is_ok(), results[1].is_ok());
        assert_eq!(results[0].is_ok(), results[2].is_ok());
        if let (Ok(a), Ok(b), Ok(c)) = (&results[0], &results[1], &results[2]) {
            assert_eq!(a, b);
            assert_eq!(a, c);
            assert_eq!(a.total_bytes(), t1.len() + t2.len() + t3.len());
            assert_eq!(a.shard_count(), 3);
        }
    }
    let ok = canonicalize_input_shards(vec![shard(t2), shard(t1), shard(t3)], &InputLimits::default());
    assert!(ok.is_ok());
    let over = canonicalize_input_shards(vec![shard(t2), shard(t1)], &tight);
    assert!(over.is_err());
}

#[test]
fn a_decoded_shard_carries_the_one_admitted_schema() {
    let s = shard(DOC);
    assert_eq!(s.schema(), INPUT_SCHEMA_V1);
    assert_eq!(s.byte_count(), DOC.len());
}

#[test]
fn a_name_in_two_shards_is_refused() {
    let t = r#"{"schema": "brix.input@1", "values": {"x": {"type": "int", "value": "1"}}}"#;
    let r = canonicalize_input_shards(vec![shard(t), shard(t)], &InputLimits::default());
    assert_eq!(r, Err(InputError::DuplicateAcrossShards { name: "x".to_string() }));
}

#[test]
fn shard_limits_are_enforced() {
    let t = r#"{"schema": "brix.input@1", "values": {"x": {"type": "int", "value": "1"}}}"#;
    let mut limits = InputLimits::default();
    limits.max_files = 1;
    assert_eq!(
        canonicalize_input_shards(vec![shard(t), shard(t)], &limits),
        Err(InputError::TooManyFiles { limit: 1, found: 2 })
    );
    let mut limits = InputLimits::default();
    limits.max_aggregate_bytes = 10;
    assert_eq!(
        canonicalize_input_shards(vec![shard(t)], &limits),
        Err(InputError::AggregateBytesExceeded { limit: 10, found: t.len() })
    );
    let mut limits = InputLimits::default();
    limits.max_input_count = 1;
    let u = r#"{"schema": "brix.input@1", "values": {"y": {"type": "int", "value": "2"}}}"#;
    assert_eq!(
        canonicalize_input_shards(vec![shard(t), shard(u)], &limits),
        Err(InputError::TotalInputCountExceeded { limit: 1, found: 2 })
    );
}

#[test]
fn empty_snapshot_has_nothing() {
    let s = InputSnapshot::empty();
    assert!(s.is_empty());
    assert_eq!((s.len(), s.total_bytes(), s.shard_count()), (0, 0, 0));
}

#[test]
fn scalar_values_convert_to_and_from_runtime_values() {
    let v = InputScalarValue::Str("q".to_string());
    assert_eq!(v.value_type(), L3ValueType::Str);
    assert_eq!(v.to_l3_value(), L3ValueV2::Str("q".to_string()));
    assert_eq!(InputScalarValue::from_l3_value(&L3ValueV2::Int(5)), Some(InputScalarValue::Int(5)));
    let record = L3ValueV2::Record { nominal_config: "R".to_string(), fields: vec![] };
    assert_eq!(InputScalarValue::from_l3_value(&record), None);
}

#[test]
fn validation_accepts_partial_snapshots_of_declared_inputs() {
    let snap = canonicalize_input_shards(
        vec![shard(r#"{"schema": "brix.input@1", "values": {"age": {"type": "int", "value": "30"}}}"#)],
        &InputLimits::default(),
    )
    .unwrap();
    let p = plan(vec![("age", L3ValueType::Int), ("name", L3ValueType::Str)]);
    assert_eq!(validate_against_declarations(&snap, &p), Ok(()));
    assert_eq!(
        validate_completeness(&snap, &p),
        Err(InputValidationError::MissingInput { name: "name".to_string(), declared: L3ValueType::Str })
    );
    let full = plan(vec![("age", L3ValueType::Int)]);
    assert_eq!(snap.validate_completeness(&full), Ok(()));
}

#[test]
fn validation_refuses_undeclared_and_mistyped_inputs() {
    let snap = canonicalize_input_shards(
        vec![shard(r#"{"schema": "brix.input@1", "values": {"age": {"type": "string", "value": "x"}, "zz": {"type": "bool", "value": true}}}"#)],
        &InputLimits::default(),
    )
    .unwrap();
    let p = plan(vec![("age", L3ValueType::Int)]);
    assert_eq!(
        snap.validate_against_declarations(&p),
        Err(InputValidationError::TypeMismatch {
            name: "age".to_string(),
            declared: L3ValueType::Int,
            supplied: L3ValueType::Str,
        })
    );
    let p2 = plan(vec![("age", L3ValueType::Str)]);
    assert_eq!(
        snap.validate_completeness(&p2),
        Err(InputValidationError::UndeclaredInput { name: "zz".to_string() })
    );
}

#[test]
fn validation_passes_exactly_when_every_value_is_declared_with_its_type() {
    let snap = canonicalize_input_shards(
        vec![shard(r#"{"schema": "brix.input@1", "values": {"age": {"type": "int", "value": "30"}, "ok": {"type": "bool", "value": true}}}"#)],
        &InputLimits::default(),
    )
    .unwrap();
    let exact = plan(vec![("ok", L3ValueType::Bool), ("age", L3ValueType::Int)]);
    assert_eq!(snap.validate_against_declarations(&exact), Ok(()));
    assert_eq!(snap.validate_completeness(&exact), Ok(()));
    let more = plan(vec![("ok", L3ValueType::Bool), ("age", L3ValueType::Int), ("extra", L3ValueType::Str)]);
    assert_eq!(snap.validate_against_declarations(&more), Ok(()));
    assert!(snap.validate_completeness(&more).is_err());
    let fewer = plan(vec![("age", L3ValueType::Int)]);
    assert!(snap.validate_against_declarations(&fewer).is_err());
    assert!(snap.validate_completeness(&fewer).is_err());
}

#[test]
fn file_metadata_decisions() {
    let mut limits = InputLimits::default();
    limits.max_file_bytes = 10;
    limits.max_aggregate_bytes = 15;
    limits.max_files = 2;
    assert_eq!(admit_file_metadata("d", false, 1, &limits), Err(InputDecodeError::NotARegularFile("d".to_string())));
    assert_eq!(admit_file_metadata("f", true, 11, &limits), Err(InputDecodeError::FileTooLarge { limit: 10, found: 11 }));
    assert_eq!(admit_file_metadata("f", true, 10, &limits), Ok(()));
    assert_eq!(file_read_limit(&limits), Ok(11));
    let mut huge = InputLimits::default();
    huge.max_file_bytes = usize::MAX;
    assert_eq!(file_read_limit(&huge), Err(InputDecodeError::LimitExceeded("max_file_bytes overflow")));
    assert_eq!(admit_path_count(3, &limits), Err(InputError::TooManyFiles { limit: 2, found: 3 }));
    assert_eq!(admit_path_count(2, &limits), Ok(()));
    assert_eq!(admit_metadata_entry(0, "f", true, 8, &limits), Ok(8));
    assert_eq!(
        admit_metadata_entry(8, "g", true, 8, &limits),
        Err(InputError::AggregateBytesExceeded { limit: 15, found: 16 })
    );
    assert_eq!(
        admit_metadata_entry(0, "d", false, 0, &limits),
        Err(InputError::Decode(InputDecodeError::NotARegularFile("d".to_string())))
    );
    assert_eq!(
        add_aggregate_bytes(usize::MAX, 1, &limits),
        Err(InputError::AggregateBytesExceeded { limit: 15, found: usize::MAX })
    );
    let e: InputError = InputDecodeError::UnexpectedEof.into();
    assert_eq!(e, InputError::Decode(InputDecodeError::UnexpectedEof));
}

#[test]
fn shipping_input_example_decodes_and_fulfils_its_declarations() {
    let text = r#"{
  "schema": "brix.input@1",
  "values": {
    "stock": {
      "type": "int",
      "value": "12"
    },
    "eligible": {
      "type": "bool",
      "value": true
    },
    "region": {
      "type": "string",
      "value": "EU-NORTH"
    }
  }
}
"#;
    let s = shard(text);
    assert_eq!(s.get("stock"), Some(&InputScalarValue::Int(12)));
    assert_eq!(s.get("eligible"), Some(&InputScalarValue::Bool(true)));
    assert_eq!(s.get("region"), Some(&InputScalarValue::Str("EU-NORTH".to_string())));
    let snap = canonicalize_input_shards(vec![s], &InputLimits::default()).unwrap();
    let p = plan(vec![("stock", L3ValueType::Int), ("eligible", L3ValueType::Bool), ("region", L3ValueType::Str)]);
    assert_eq!(validate_completeness(&snap, &p), Ok(()));
}

#[test]
fn floats_and_lossy_coercions_are_refused() {
    let r = decode(r#"{"schema": "brix.input@1", "values": {"n": {"type": "int", "value": 1.5}}}"#);
    assert!(matches!(r, Err(InputDecodeError::InvalidType { ref found, .. }) if found == "number"));
    let r = decode(r#"{"schema": "brix.input@1", "values": {"n": {"type": "int", "value": "1.5"}}}"#);
    assert_eq!(r, Err(InputDecodeError::InvalidIntegerFormat { raw: "1.5".to_string() }));
    let r = decode(r#"{"schema": "brix.input@1", "values": {"b": {"type": "bool", "value": "true"}}}"#);
    assert!(matches!(r, Err(InputDecodeError::InvalidType { ref found, .. }) if found == "string"));
    let r = decode(r#"{"schema": "brix.input@1", "values": {"f": {"type": "float", "value": "1"}}}"#);
    assert!(matches!(r, Err(InputDecodeError::InvalidType { ref found, .. }) if found == "float"));
}
