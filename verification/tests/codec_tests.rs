use simple_state::error::{BuildError, SimpleStateError};
use simple_state::protocol::{
    StateEntryBuilder, StateEntryListBuilder, StateEntryValueBuilder, ValueType,
};

fn sample_list() -> simple_state::protocol::StateEntryList {
    let v1 = StateEntryValueBuilder::new()
        .with_key("count".to_string())
        .with_value(ValueType::UInt64(42))
        .build()
        .unwrap();
    let v2 = StateEntryValueBuilder::new()
        .with_key("label".to_string())
        .with_value(ValueType::String("hello".to_string()))
        .build()
        .unwrap();
    let v3 = StateEntryValueBuilder::new()
        .with_key("raw".to_string())
        .with_value(ValueType::Bytes(vec![0, 1, 255]))
        .build()
        .unwrap();
    let v4 = StateEntryValueBuilder::new()
        .with_key("delta".to_string())
        .with_value(ValueType::Int32(-7))
        .build()
        .unwrap();
    let v5 = StateEntryValueBuilder::new()
        .with_key("wide".to_string())
        .with_value(ValueType::Int64(-1_000_000_000_000))
        .build()
        .unwrap();
    let v6 = StateEntryValueBuilder::new()
        .with_key("small".to_string())
        .with_value(ValueType::UInt32(9))
        .build()
        .unwrap();
    let e1 = StateEntryBuilder::new()
        .with_normalized_key("a_b".to_string())
        .with_state_entry_values(vec![v1, v2, v3])
        .build()
        .unwrap();
    let e2 = StateEntryBuilder::new()
        .with_normalized_key("c_d".to_string())
        .with_state_entry_values(vec![v4, v5, v6])
        .build()
        .unwrap();
    StateEntryListBuilder::new()
        .with_state_entries(vec![e1, e2])
        .build()
        .unwrap()
}

#[test]
// The wire codec round-trips: deserializing a serialized bucket gives the
// bucket back, record for record and value for value.
fn test_codec_round_trip() {
    let list = sample_list();
    let bytes = list.clone().into_bytes().unwrap();
    let decoded = simple_state::protocol::StateEntryList::from_bytes(bytes.as_slice()).unwrap();
    assert_eq!(decoded, list);
}

#[test]
// The empty bucket round-trips too, and its payload is just a zero count.
fn test_codec_empty_list() {
    let list = StateEntryListBuilder::new()
        .with_state_entries(vec![])
        .build()
        .unwrap();
    let bytes = list.clone().into_bytes().unwrap();
    assert_eq!(bytes, vec![0u8; 8]);
    let decoded = simple_state::protocol::StateEntryList::from_bytes(bytes.as_slice()).unwrap();
    assert_eq!(decoded, list);
}

#[test]
// Malformed payloads are rejected as serialization errors: short input,
// trailing garbage, an unknown value tag, and invalid UTF-8 in a key.
fn test_codec_rejects_malformed() {
    let short = [1u8, 2, 3];
    assert!(matches!(
        simple_state::protocol::StateEntryList::from_bytes(&short),
        Err(SimpleStateError::SerializationError(_))
    ));

    let mut trailing = sample_list().into_bytes().unwrap();
    trailing.push(0);
    assert!(matches!(
        simple_state::protocol::StateEntryList::from_bytes(trailing.as_slice()),
        Err(SimpleStateError::SerializationError(_))
    ));

    let garbage = [255u8; 24];
    assert!(matches!(
        simple_state::protocol::StateEntryList::from_bytes(&garbage),
        Err(SimpleStateError::SerializationError(_))
    ));
}

#[test]
// A builder misses nothing silently: every required field left unset is
// reported as a missing-field error.
fn test_builders_require_fields() {
    assert!(matches!(
        StateEntryValueBuilder::new()
            .with_key("k".to_string())
            .build(),
        Err(BuildError::MissingField(_))
    ));
    assert!(matches!(
        StateEntryValueBuilder::new()
            .with_value(ValueType::Int32(1))
            .build(),
        Err(BuildError::MissingField(_))
    ));
    assert!(matches!(
        StateEntryBuilder::new()
            .with_normalized_key("k".to_string())
            .build(),
        Err(BuildError::MissingField(_))
    ));
    assert!(matches!(
        StateEntryListBuilder::new().build(),
        Err(BuildError::MissingField(_))
    ));
    let message = BuildError::MissingField("'key' field is required".to_string()).message();
    assert_eq!(message, "'key' field is required");
}

#[test]
// The accessors hand back what the builders were given.
fn test_protocol_accessors() {
    let value = StateEntryValueBuilder::new()
        .with_key("k".to_string())
        .with_value(ValueType::Bytes(vec![9]))
        .build()
        .unwrap();
    assert_eq!(value.key(), "k");
    assert_eq!(value.value(), &ValueType::Bytes(vec![9]));

    let entry = StateEntryBuilder::new()
        .with_normalized_key("nk".to_string())
        .with_state_entry_values(vec![value.clone()])
        .build()
        .unwrap();
    assert_eq!(entry.normalized_key(), "nk");
    assert_eq!(entry.state_entry_values(), &vec![value.clone()]);

    let list = StateEntryListBuilder::new()
        .with_state_entries(vec![entry.clone()])
        .build()
        .unwrap();
    assert_eq!(list.entries(), &vec![entry]);
    assert!(list.contains("nk".to_string()));
    assert!(!list.contains("other".to_string()));
}
