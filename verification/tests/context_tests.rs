use simple_state::addresser::{Addresser, DoubleKeyHashAddresser, KeyHashAddresser};
use simple_state::error::SimpleStateError;
use simple_state::context::KeyValueTransactionContext;
use simple_state::protocol::{StateEntryValue, StateEntryValueBuilder, ValueType};
use simple_state::store::MemoryTransactionContext;

fn entry_value(key: &str, value: ValueType) -> StateEntryValue {
    StateEntryValueBuilder::new()
        .with_key(key.to_string())
        .with_value(value)
        .build()
        .expect("Unable to build state entry value")
}

fn create_entry_value_map(key: String, value: ValueType) -> Vec<StateEntryValue> {
    vec![StateEntryValueBuilder::new()
        .with_key(key)
        .with_value(value)
        .build()
        .expect("Unable to build state entry value")]
}

fn value_of<'a>(values: &'a [StateEntryValue], key: &str) -> Option<&'a ValueType> {
    values.iter().find(|v| v.key() == key).map(|v| v.value())
}

#[test]
// Check that the KeyValueTransactionContext set_state_entry method successfully sets
// the state entry. Uses the KeyHashAddresser implementation.
fn test_simple_set_state_entry() {
    let context = MemoryTransactionContext::new();
    let addresser = KeyHashAddresser::new("prefix".to_string());
    let mut simple_state = KeyValueTransactionContext::new(context, addresser);

    let state_value = create_entry_value_map("key1".to_string(), ValueType::Int32(32));

    assert!(simple_state
        .set_state_entry(&"a".to_string(), state_value)
        .is_ok());
}

#[test]
// Check that the KeyValueTransactionContext get_state_entry method successfully fetches
// the correct state entry. Uses the KeyHashAddresser implementation.
fn test_simple_get_state_entry() {
    let context = MemoryTransactionContext::new();
    let addresser = KeyHashAddresser::new("prefix".to_string());
    let mut simple_state = KeyValueTransactionContext::new(context, addresser);

    let state_value = create_entry_value_map("key1".to_string(), ValueType::Int32(32));
    simple_state
        .set_state_entry(&"a".to_string(), state_value)
        .expect("Unable to set state entry in get_state_entry test");

    let values = simple_state.get_state_entry(&"a".to_string()).unwrap();
    assert!(values.is_some());
    assert_eq!(
        value_of(&values.unwrap(), "key1"),
        Some(&ValueType::Int32(32))
    );
}

#[test]
// Check that the KeyValueTransactionContext delete_state_entry method successfully deletes
// the state entry. Uses the KeyHashAddresser implementation.
fn test_simple_delete_state_entry() {
    let context = MemoryTransactionContext::new();
    let addresser = KeyHashAddresser::new("prefix".to_string());
    let mut simple_state = KeyValueTransactionContext::new(context, addresser);

    let state_value = create_entry_value_map("key1".to_string(), ValueType::Int32(32));

    simple_state
        .set_state_entry(&"a".to_string(), state_value)
        .expect("Unable to set state entry in delete_state_entry test");

    simple_state
        .get_state_entry(&"a".to_string())
        .expect("Unable to get state entry in delete_state_entries test");

    let deleted = simple_state.delete_state_entry("a".to_string()).unwrap();
    assert!(deleted.is_some());
    assert_eq!(deleted, Some("a".to_string()));

    let already_deleted = simple_state.delete_state_entry("a".to_string()).unwrap();
    assert!(already_deleted.is_none());
    let deleted_value = simple_state.get_state_entry(&"a".to_string()).unwrap();
    assert!(deleted_value.is_none());
}

#[test]
// Check that the KeyValueTransactionContext set_state_entries method successfully sets
// the state entries. Uses the KeyHashAddresser implementation.
fn test_simple_set_state_entries() {
    let context = MemoryTransactionContext::new();
    let addresser = KeyHashAddresser::new("prefix".to_string());
    let mut simple_state = KeyValueTransactionContext::new(context, addresser);

    let first_key = "a".to_string();
    let first_value_map = create_entry_value_map("key1".to_string(), ValueType::Int32(32));
    let second_key = "b".to_string();
    let second_value_map =
        create_entry_value_map("key1".to_string(), ValueType::String("String".to_string()));

    let entries = vec![
        (&first_key, first_value_map),
        (&second_key, second_value_map),
    ];

    let set_result = simple_state.set_state_entries(entries);
    assert!(set_result.is_ok());
}

#[test]
// Check that the KeyValueTransactionContext get_state_entries method successfully gets
// the state entries. Uses the KeyHashAddresser implementation.
fn test_simple_get_state_entries() {
    let context = MemoryTransactionContext::new();
    let addresser = KeyHashAddresser::new("prefix".to_string());
    let mut simple_state = KeyValueTransactionContext::new(context, addresser);

    let first_key = "a".to_string();
    let first_value_map = create_entry_value_map("key1".to_string(), ValueType::Int32(32));
    let second_key = "b".to_string();
    let second_value_map =
        create_entry_value_map("key1".to_string(), ValueType::String("String".to_string()));

    simple_state
        .set_state_entries(vec![
            (&first_key, first_value_map.clone()),
            (&second_key, second_value_map.clone()),
        ])
        .expect("Unable to set state entries in get_state_entries test");

    let values = simple_state
        .get_state_entries(vec![&first_key, &second_key])
        .unwrap();
    let first = values.iter().find(|(k, _)| k == "a").unwrap();
    assert_eq!(first.1, first_value_map);
    let second = values.iter().find(|(k, _)| k == "b").unwrap();
    assert_eq!(second.1, second_value_map);
}

#[test]
// Check that the KeyValueTransactionContext delete_state_entries method successfully deletes
// the state entries. Uses the KeyHashAddresser implementation.
fn test_simple_delete_state_entries() {
    let context = MemoryTransactionContext::new();
    let addresser = KeyHashAddresser::new("prefix".to_string());
    let mut simple_state = KeyValueTransactionContext::new(context, addresser);

    let first_key = "a".to_string();
    let first_value_map = create_entry_value_map("key1".to_string(), ValueType::Int32(32));
    let second_key = "b".to_string();
    let second_value_map =
        create_entry_value_map("key1".to_string(), ValueType::String("String".to_string()));

    simple_state
        .set_state_entries(vec![
            (&first_key, first_value_map.clone()),
            (&second_key, second_value_map.clone()),
        ])
        .expect("Unable to set state entries in get_state_entries test");

    simple_state
        .get_state_entries(vec![&first_key, &second_key])
        .expect("Unable to get state entries in delete_state_entries test");

    let deleted = simple_state
        .delete_state_entries(vec!["a".to_string(), "b".to_string()])
        .expect("Unable to delete state entries");
    assert!(deleted.contains(&"a".to_string()));
    assert!(deleted.contains(&"b".to_string()));

    let already_deleted = simple_state
        .delete_state_entries(vec!["a".to_string(), "b".to_string()])
        .unwrap();
    assert!(already_deleted.is_empty());
}

#[test]
// Check that the KeyValueTransactionContext set_state_entry method successfully sets
// the correct state entry. Uses the DoubleKeyHashAddresser implementation.
fn test_double_set_state_entry() {
    let context = MemoryTransactionContext::new();
    let addresser = DoubleKeyHashAddresser::new("prefix".to_string(), None);
    let mut simple_state = KeyValueTransactionContext::new(context, addresser);

    let state_value = create_entry_value_map("key1".to_string(), ValueType::Int64(64));

    assert!(simple_state
        .set_state_entry(&("a".to_string(), "b".to_string()), state_value)
        .is_ok());
}

#[test]
// Check that the KeyValueTransactionContext get_state_entry method successfully gets
// the correct state entry. Uses the DoubleKeyHashAddresser implementation.
fn test_double_get_state_entry() {
    let context = MemoryTransactionContext::new();
    let addresser = DoubleKeyHashAddresser::new("prefix".to_string(), None);
    let mut simple_state = KeyValueTransactionContext::new(context, addresser);

    let state_value = create_entry_value_map("key1".to_string(), ValueType::Int64(64));
    simple_state
        .set_state_entry(&("a".to_string(), "b".to_string()), state_value)
        .expect("Unable to set state entry in get_state_entry test");

    let values = simple_state
        .get_state_entry(&("a".to_string(), "b".to_string()))
        .unwrap();
    assert!(values.is_some());
    assert_eq!(
        value_of(&values.unwrap(), "key1"),
        Some(&ValueType::Int64(64))
    );
}

#[test]
// Check that the KeyValueTransactionContext delete_state_entry method successfully deletes
// the state entry. Uses the DoubleKeyHashAddresser implementation.
fn test_double_delete_state_entry() {
    let context = MemoryTransactionContext::new();
    let addresser = DoubleKeyHashAddresser::new("prefix".to_string(), None);
    let mut simple_state = KeyValueTransactionContext::new(context, addresser);

    let state_value = create_entry_value_map("key1".to_string(), ValueType::Int64(64));
    simple_state
        .set_state_entry(&("a".to_string(), "b".to_string()), state_value)
        .expect("Unable to set state entry in get_state_entry test");
    simple_state
        .get_state_entry(&("a".to_string(), "b".to_string()))
        .expect("Unable to get state entry in delete_state_entries test");

    let deleted = simple_state
        .delete_state_entry(("a".to_string(), "b".to_string()))
        .unwrap();
    assert!(deleted.is_some());
    assert_eq!(deleted, Some(format!("{}_{}", "a", "b")));
}

#[test]
// Check that the KeyValueTransactionContext set_state_entries method successfully sets
// the state entries. Uses the DoubleKeyHashAddresser implementation.
fn test_double_set_state_entries() {
    let context = MemoryTransactionContext::new();
    let addresser = DoubleKeyHashAddresser::new("prefix".to_string(), None);
    let mut simple_state = KeyValueTransactionContext::new(context, addresser);

    let first_key = ("a".to_string(), "b".to_string());
    let first_value_map = create_entry_value_map("key1".to_string(), ValueType::Int32(32));
    let second_key = ("c".to_string(), "d".to_string());
    let second_value_map =
        create_entry_value_map("key1".to_string(), ValueType::String("String".to_string()));

    let entries = vec![
        (&first_key, first_value_map),
        (&second_key, second_value_map),
    ];

    assert!(simple_state.set_state_entries(entries).is_ok());
}

#[test]
// Check that the KeyValueTransactionContext get_state_entries method successfully gets
// the state entries. Uses the DoubleKeyHashAddresser implementation.
fn test_double_get_state_entries() {
    let context = MemoryTransactionContext::new();
    let addresser = DoubleKeyHashAddresser::new("prefix".to_string(), None);
    let mut simple_state = KeyValueTransactionContext::new(context, addresser);

    let first_key = ("a".to_string(), "b".to_string());
    let first_value_map = create_entry_value_map("key1".to_string(), ValueType::Int32(32));
    let second_key = ("c".to_string(), "d".to_string());
    let second_value_map =
        create_entry_value_map("key1".to_string(), ValueType::String("String".to_string()));
    simple_state
        .set_state_entries(vec![
            (&first_key, first_value_map.clone()),
            (&second_key, second_value_map.clone()),
        ])
        .expect("Unable to set_state_entries in get_state_entries test");

    let values = simple_state
        .get_state_entries(vec![&first_key, &second_key])
        .expect("Unable to get state entries in get_state_entries test");
    let first = values
        .iter()
        .find(|(k, _)| *k == format!("{}_{}", "a", "b"))
        .unwrap();
    assert_eq!(first.1, first_value_map);
    let second = values
        .iter()
        .find(|(k, _)| *k == format!("{}_{}", "c", "d"))
        .unwrap();
    assert_eq!(second.1, second_value_map);
}

#[test]
// Check that the KeyValueTransactionContext delete_state_entries method successfully deletes
// the state entries. Uses the DoubleKeyHashAddresser implementation.
fn test_double_delete_state_entries() {
    let context = MemoryTransactionContext::new();
    let addresser = DoubleKeyHashAddresser::new("prefix".to_string(), None);
    let mut simple_state = KeyValueTransactionContext::new(context, addresser);

    let first_key = ("a".to_string(), "b".to_string());
    let first_value_map = create_entry_value_map("key1".to_string(), ValueType::Int32(32));
    let second_key = ("c".to_string(), "d".to_string());
    let second_value_map =
        create_entry_value_map("key1".to_string(), ValueType::String("String".to_string()));
    simple_state
        .set_state_entries(vec![
            (&first_key, first_value_map.clone()),
            (&second_key, second_value_map.clone()),
        ])
        .expect("Unable to set_state_entries in delete_state_entries test");
    simple_state
        .get_state_entries(vec![&first_key, &second_key])
        .expect("Unable to get_state_entries in the delete_state_entries test");

    let deleted = simple_state
        .delete_state_entries(vec![first_key, second_key])
        .expect("Unable to delete state entries");
    assert!(deleted.contains(&format!("{}_{}", "a", "b")));
    assert!(deleted.contains(&format!("{}_{}", "c", "d")));
}

#[test]
// Setting the same key twice keeps only the latest value: the record is
// replaced, not duplicated.
fn test_set_twice_replaces() {
    let context = MemoryTransactionContext::new();
    let addresser = KeyHashAddresser::new("prefix".to_string());
    let mut simple_state = KeyValueTransactionContext::new(context, addresser);

    simple_state
        .set_state_entry(
            &"a".to_string(),
            create_entry_value_map("balance".to_string(), ValueType::Int32(1)),
        )
        .unwrap();
    simple_state
        .set_state_entry(
            &"a".to_string(),
            create_entry_value_map("balance".to_string(), ValueType::Int32(2)),
        )
        .unwrap();

    let values = simple_state.get_state_entry(&"a".to_string()).unwrap();
    let values = values.unwrap();
    assert_eq!(values.len(), 1);
    assert_eq!(value_of(&values, "balance"), Some(&ValueType::Int32(2)));
}

#[test]
// Two keys that collide at one address coexist: each is retrievable and
// deletable without touching the other. A first segment length of 64 leaves
// the second segment empty, so the second key component never reaches the
// address.
fn test_collision_coexistence() {
    let context = MemoryTransactionContext::new();
    let addresser = DoubleKeyHashAddresser::new("prefix".to_string(), Some(64));
    let key1 = ("a".to_string(), "x".to_string());
    let key2 = ("a".to_string(), "y".to_string());
    assert_eq!(
        addresser.compute(&key1).unwrap(),
        addresser.compute(&key2).unwrap()
    );
    let mut simple_state = KeyValueTransactionContext::new(context, addresser);

    simple_state
        .set_state_entry(&key1, create_entry_value_map("v".to_string(), ValueType::Int32(1)))
        .unwrap();
    simple_state
        .set_state_entry(&key2, create_entry_value_map("v".to_string(), ValueType::Int32(2)))
        .unwrap();

    let first = simple_state.get_state_entry(&key1).unwrap().unwrap();
    assert_eq!(value_of(&first, "v"), Some(&ValueType::Int32(1)));
    let second = simple_state.get_state_entry(&key2).unwrap().unwrap();
    assert_eq!(value_of(&second, "v"), Some(&ValueType::Int32(2)));

    let deleted = simple_state.delete_state_entry(key1.clone()).unwrap();
    assert_eq!(deleted, Some("a_x".to_string()));
    assert!(simple_state.get_state_entry(&key1).unwrap().is_none());
    let second = simple_state.get_state_entry(&key2).unwrap().unwrap();
    assert_eq!(value_of(&second, "v"), Some(&ValueType::Int32(2)));
}

#[test]
// A batch set followed by a batch get behaves like setting and getting each
// key one after the other.
fn test_batch_matches_sequential() {
    let addresser = KeyHashAddresser::new("prefix".to_string());
    let key1 = "k1".to_string();
    let key2 = "k2".to_string();
    let v1 = create_entry_value_map("n".to_string(), ValueType::UInt32(1));
    let v2 = create_entry_value_map("n".to_string(), ValueType::UInt32(2));

    let mut batched = KeyValueTransactionContext::new(
        MemoryTransactionContext::new(),
        KeyHashAddresser::new("prefix".to_string()),
    );
    batched
        .set_state_entries(vec![(&key1, v1.clone()), (&key2, v2.clone())])
        .unwrap();
    let got = batched.get_state_entries(vec![&key1, &key2]).unwrap();

    let mut sequential = KeyValueTransactionContext::new(MemoryTransactionContext::new(), addresser);
    sequential.set_state_entry(&key1, v1.clone()).unwrap();
    sequential.set_state_entry(&key2, v2.clone()).unwrap();
    let got1 = sequential.get_state_entry(&key1).unwrap().unwrap();
    let got2 = sequential.get_state_entry(&key2).unwrap().unwrap();

    assert_eq!(got.len(), 2);
    assert_eq!(got.iter().find(|(k, _)| k == "k1").unwrap().1, got1);
    assert_eq!(got.iter().find(|(k, _)| k == "k2").unwrap().1, got2);
    assert_eq!(got1, v1);
    assert_eq!(got2, v2);
}

#[test]
// Deleting a batch where some keys are absent returns only the keys that
// were present and removed, without an error.
fn test_delete_batch_with_absent_keys() {
    let context = MemoryTransactionContext::new();
    let addresser = KeyHashAddresser::new("prefix".to_string());
    let mut simple_state = KeyValueTransactionContext::new(context, addresser);

    simple_state
        .set_state_entry(
            &"present".to_string(),
            create_entry_value_map("n".to_string(), ValueType::UInt64(7)),
        )
        .unwrap();

    let deleted = simple_state
        .delete_state_entries(vec!["present".to_string(), "absent".to_string()])
        .unwrap();
    assert_eq!(deleted, vec!["present".to_string()]);
}

#[test]
// A double-key scenario end to end: set, get back the exact values, delete
// and observe the normalized key, then find nothing.
fn test_double_key_round_trip_scenario() {
    let context = MemoryTransactionContext::new();
    let addresser = DoubleKeyHashAddresser::new("prefix".to_string(), None);
    let mut simple_state = KeyValueTransactionContext::new(context, addresser);
    let key = ("a".to_string(), "b".to_string());

    simple_state
        .set_state_entry(
            &key,
            vec![entry_value("balance", ValueType::Int32(32))],
        )
        .unwrap();
    let values = simple_state.get_state_entry(&key).unwrap().unwrap();
    assert_eq!(value_of(&values, "balance"), Some(&ValueType::Int32(32)));

    let deleted = simple_state.delete_state_entry(key.clone()).unwrap();
    assert_eq!(deleted, Some("a_b".to_string()));
    assert!(simple_state.get_state_entry(&key).unwrap().is_none());
}

#[test]
// Every operation on a misconfigured addresser reports the configuration
// error and leaves the store untouched; a valid addresser over the same
// store still finds nothing was written.
fn test_operations_report_misconfiguration() {
    let addresser = DoubleKeyHashAddresser::new("prefix".to_string(), Some(100));
    let mut broken =
        KeyValueTransactionContext::new(MemoryTransactionContext::new(), addresser);
    let key = ("a".to_string(), "b".to_string());
    let values = create_entry_value_map("key1".to_string(), ValueType::Int32(32));

    assert!(matches!(
        broken.get_state_entry(&key),
        Err(SimpleStateError::AddresserError(_))
    ));
    assert!(matches!(
        broken.set_state_entry(&key, values.clone()),
        Err(SimpleStateError::AddresserError(_))
    ));
    assert!(matches!(
        broken.delete_state_entry(key.clone()),
        Err(SimpleStateError::AddresserError(_))
    ));
    assert!(matches!(
        broken.get_state_entries(vec![&key]),
        Err(SimpleStateError::AddresserError(_))
    ));
    assert!(matches!(
        broken.set_state_entries(vec![(&key, values)]),
        Err(SimpleStateError::AddresserError(_))
    ));
    assert!(matches!(
        broken.delete_state_entries(vec![key]),
        Err(SimpleStateError::AddresserError(_))
    ));

    let mut working = KeyValueTransactionContext::new(
        broken.context,
        DoubleKeyHashAddresser::new("prefix".to_string(), None),
    );
    assert!(working
        .get_state_entry(&("a".to_string(), "b".to_string()))
        .unwrap()
        .is_none());
}
