use simple_state::intkey::{
    calculate_address, decode_intkey, encode_intkey, get_intkey_prefix, ApplyError, IntkeyPayload,
    IntkeyMultiplyTransactionHandler, IntkeyState,
};
use simple_state::store::MemoryTransactionContext;

#[test]
// One small entry encodes to the exact expected hex: "A1" for a one-entry
// map, "61" for a one-byte name, "61" for the name "a", "05" for the value.
fn test_encode_intkey_exact() {
    let encoded = encode_intkey(vec![("a".to_string(), 5)]).unwrap();
    assert_eq!(encoded, "A1616105");
}

#[test]
// Values over 23 take a width marker: 200 fits two digits behind "18", and
// a seven-digit value needs the eight-digit form behind "1A".
fn test_encode_intkey_markers() {
    let encoded = encode_intkey(vec![("a".to_string(), 200)]).unwrap();
    assert_eq!(encoded, "A1616118C8");

    let encoded = encode_intkey(vec![("a".to_string(), 0x100_0000)]).unwrap();
    assert_eq!(encoded, "A161611A01000000");
}

#[test]
// A value whose shortest even hex form needs six digits fits no width
// marker and is rejected; so is a name longer than twenty bytes.
fn test_encode_intkey_rejects() {
    assert!(matches!(
        encode_intkey(vec![("a".to_string(), 0x10000)]),
        Err(ApplyError::InvalidTransaction(_))
    ));
    assert!(matches!(
        encode_intkey(vec![("abcdefghijklmnopqrstu".to_string(), 1)]),
        Err(ApplyError::InvalidTransaction(_))
    ));
    assert!(matches!(
        encode_intkey(vec![("".to_string(), 1)]),
        Err(ApplyError::InvalidTransaction(_))
    ));
}

#[test]
// Decoding inverts encoding, for small and marker-form values alike.
fn test_decode_intkey_round_trip() {
    let map = vec![
        ("a".to_string(), 5),
        ("counter".to_string(), 200),
        ("big".to_string(), 0x200_0000),
    ];
    let encoded = encode_intkey(map.clone()).unwrap();
    let decoded = decode_intkey(encoded).unwrap();
    assert_eq!(decoded, map);
}

#[test]
// Malformed wire forms are rejected: no leading map marker, a bad entry
// count, a name marker out of range, and truncated input.
fn test_decode_intkey_rejects() {
    assert!(matches!(
        decode_intkey("B1616105".to_string()),
        Err(ApplyError::InvalidTransaction(_))
    ));
    assert!(matches!(
        decode_intkey("A".to_string()),
        Err(ApplyError::InvalidTransaction(_))
    ));
    assert!(matches!(
        decode_intkey("A1906105".to_string()),
        Err(ApplyError::InvalidTransaction(_))
    ));
    assert!(matches!(
        decode_intkey("A16161".to_string()),
        Err(ApplyError::InvalidTransaction(_))
    ));
}

#[test]
// The payload parser splits "a,b,c" into its three names.
fn test_intkey_payload_parses() {
    let payload = IntkeyPayload::new(b"total,left,right").unwrap().unwrap();
    assert_eq!(payload.get_name_a(), "total");
    assert_eq!(payload.get_name_b(), "left");
    assert_eq!(payload.get_name_c(), "right");
}

#[test]
// Too few fields and over-long names are invalid payloads.
fn test_intkey_payload_rejects() {
    assert!(matches!(
        IntkeyPayload::new(b"only_one"),
        Err(ApplyError::InvalidTransaction(_))
    ));
    assert!(matches!(
        IntkeyPayload::new(b"two,fields"),
        Err(ApplyError::InvalidTransaction(_))
    ));
    assert!(matches!(
        IntkeyPayload::new(b"abcdefghijklmnopqrstu,b,c"),
        Err(ApplyError::InvalidTransaction(_))
    ));
}

#[test]
// The intkey namespace prefix is six hex characters and every counter
// address starts with it.
fn test_intkey_addressing() {
    let prefix = get_intkey_prefix();
    assert_eq!(prefix.len(), 6);
    assert!(prefix.chars().all(|c| c.is_ascii_hexdigit()));
    let addr = calculate_address("alice");
    assert_eq!(addr.len(), 70);
    assert!(addr.starts_with(&prefix));
    assert_ne!(calculate_address("alice"), calculate_address("bob"));
}

#[test]
// A counter written through the state is read back; an unwritten one is not
// there.
fn test_intkey_state_set_get() {
    let mut state = IntkeyState::new(MemoryTransactionContext::new());
    assert_eq!(state.get("a").unwrap(), None);
    state.set("a", 42).unwrap();
    assert_eq!(state.get("a").unwrap(), Some(42));
    assert_eq!(state.get("other").unwrap(), None);
}

#[test]
// The multiply transaction stores the product of two counters under a fresh
// name and reports the three values as its event data.
fn test_intkey_multiply_apply() {
    let handler = IntkeyMultiplyTransactionHandler::new();
    assert_eq!(handler.family_name(), "intkey_multiply");

    let mut state = IntkeyState::new(MemoryTransactionContext::new());
    state.set("b", 2).unwrap();
    state.set("c", 3).unwrap();

    let mut state = IntkeyState {
        context: state.context,
        get_cache: Vec::new(),
    };
    let event = handler.apply(b"a,b,c", &mut state).unwrap();
    assert_eq!(event, "2,3,6");

    let mut check = IntkeyState {
        context: state.context,
        get_cache: Vec::new(),
    };
    assert_eq!(check.get("a").unwrap(), Some(6));
}

#[test]
// The multiply transaction refuses an already-set target and missing
// operands.
fn test_intkey_multiply_rejects() {
    let handler = IntkeyMultiplyTransactionHandler::new();

    let mut state = IntkeyState::new(MemoryTransactionContext::new());
    state.set("b", 2).unwrap();
    let mut state = IntkeyState {
        context: state.context,
        get_cache: Vec::new(),
    };
    // c was never set.
    assert!(matches!(
        handler.apply(b"a,b,c", &mut state),
        Err(ApplyError::InvalidTransaction(_))
    ));

    let mut state = IntkeyState::new(MemoryTransactionContext::new());
    state.set("a", 1).unwrap();
    state.set("b", 2).unwrap();
    state.set("c", 3).unwrap();
    let mut state = IntkeyState {
        context: state.context,
        get_cache: Vec::new(),
    };
    // a is already set.
    assert!(matches!(
        handler.apply(b"a,b,c", &mut state),
        Err(ApplyError::InvalidTransaction(_))
    ));
}
