use simple_state::addresser::{
    calculate_hash_lengths, hash, Addresser, DoubleKeyHashAddresser, KeyHashAddresser,
    TripleKeyHashAddresser,
};
use simple_state::error::SimpleStateError;

#[test]
// check that the KeyHashAddresser creates a valid radix address with the correct prefix
// and valid length
fn test_key_hash_addresser() {
    let addresser = KeyHashAddresser::new("prefix".to_string());
    let addr = addresser.compute(&"a".to_string()).unwrap();
    assert_eq!(addr[..6], "prefix".to_string());
    assert_eq!(addr.len(), 70);

    let key_hash = hash(64, "a");
    assert_eq!(addr[6..70], key_hash[..64]);

    let normalized = addresser.normalize(&"b".to_string());
    assert_eq!(normalized, "b".to_string());
}

#[test]
// check that the DoubleKeyHashAddresser creates a valid radix address with the correct prefix
// and valid default length, with a key represented as a tuple with two natural keys
fn test_double_key_default_length() {
    let addresser = DoubleKeyHashAddresser::new("prefix".to_string(), None);
    let key1 = "a";
    let key1_hash = hash(32, key1);
    let key2 = "b";
    let key2_hash = hash(32, key2);

    let addr = addresser
        .compute(&(key1.to_string(), key2.to_string()))
        .unwrap();
    assert_eq!(addr[..6], "prefix".to_string());
    assert_eq!(addr.len(), 70);

    assert_eq!(addr[6..38], key1_hash[..32]);
    assert_eq!(addr[38..], key2_hash[..32]);

    let normalized = addresser.normalize(&(key1.to_string(), key2.to_string()));
    assert_eq!(normalized, "a_b".to_string());
}

#[test]
// check that the DoubleKeyHashAddresser creates a valid radix address with the correct prefix
// and valid first hash length of 16, with a key represented as a tuple with two natural keys
fn test_double_key_custom_length() {
    let addresser = DoubleKeyHashAddresser::new("prefix".to_string(), Some(16));
    let key1 = "a";
    let key1_hash = hash(16, key1);
    let key2 = "b";
    let key2_hash = hash(48, key2);

    let addr = addresser
        .compute(&(key1.to_string(), key2.to_string()))
        .unwrap();
    assert_eq!(addr[..6], "prefix".to_string());
    assert_eq!(addr.len(), 70);

    assert_eq!(addr[6..22], key1_hash[..16]);
    assert_eq!(addr[22..], key2_hash[..48]);

    let normalized = addresser.normalize(&(key1.to_string(), key2.to_string()));
    assert_eq!(normalized, "a_b".to_string());
}

#[test]
// check that the TripleKeyHashAddresser creates a valid radix address with the correct prefix
// and valid default lengths, with a key represented as a tuple with three natural keys
fn test_triple_key_default_length() {
    let addresser = TripleKeyHashAddresser::new("prefix".to_string(), None, None);
    let key1 = "a";
    let key1_hash = hash(21, key1);
    let key2 = "b";
    let key2_hash = hash(21, key2);
    let key3 = "c";
    let key3_hash = hash(22, key3);

    let addr = addresser
        .compute(&(key1.to_string(), key2.to_string(), key3.to_string()))
        .unwrap();
    assert_eq!(addr[..6], "prefix".to_string());
    assert_eq!(addr.len(), 70);

    assert_eq!(addr[6..27], key1_hash[..21]);
    assert_eq!(addr[27..48], key2_hash[..21]);
    assert_eq!(addr[48..], key3_hash[..22]);

    let normalized = addresser.normalize(&(key1.to_string(), key2.to_string(), key3.to_string()));
    assert_eq!(normalized, "a_b_c".to_string());
}

#[test]
// check that the TripleKeyHashAddresser creates a valid radix address with the correct prefix
// and valid first hash length of 14 and second and third hash length of 25,
// with a key represented as a tuple with three natural keys
fn test_triple_key_custom_first_length() {
    let addresser = TripleKeyHashAddresser::new("prefix".to_string(), Some(14), None);
    let key1 = "a";
    let key1_hash = hash(14, key1);
    let key2 = "b";
    let key2_hash = hash(25, key2);
    let key3 = "c";
    let key3_hash = hash(25, key3);

    let addr = addresser
        .compute(&(key1.to_string(), key2.to_string(), key3.to_string()))
        .unwrap();
    assert_eq!(addr[..6], "prefix".to_string());
    assert_eq!(addr.len(), 70);

    assert_eq!(addr[6..20], key1_hash[..14]);
    assert_eq!(addr[20..45], key2_hash[..25]);
    assert_eq!(addr[45..], key3_hash[..25]);

    let normalized = addresser.normalize(&(key1.to_string(), key2.to_string(), key3.to_string()));
    assert_eq!(normalized, "a_b_c".to_string());
}

#[test]
// check that the TripleKeyHashAddresser creates a valid radix address with the correct prefix
// and valid first and last hash length of 25 and second hash length of 14,
// with a key represented as a tuple with three natural keys
fn test_triple_key_custom_second_length() {
    let addresser = TripleKeyHashAddresser::new("prefix".to_string(), None, Some(14));
    let key1 = "a";
    let key1_hash = hash(25, key1);
    let key2 = "b";
    let key2_hash = hash(14, key2);
    let key3 = "c";
    let key3_hash = hash(25, key3);

    let addr = addresser
        .compute(&(key1.to_string(), key2.to_string(), key3.to_string()))
        .unwrap();
    assert_eq!(addr[..6], "prefix".to_string());
    assert_eq!(addr.len(), 70);

    assert_eq!(addr[6..31], key1_hash[..25]);
    assert_eq!(addr[31..45], key2_hash[..14]);
    assert_eq!(addr[45..], key3_hash[..25]);

    let normalized = addresser.normalize(&(key1.to_string(), key2.to_string(), key3.to_string()));
    assert_eq!(normalized, "a_b_c".to_string());
}

#[test]
// check that the TripleKeyHashAddresser creates a valid radix address with the correct prefix
// and valid first and second length of 10 and last hash length of 44,
// with a key represented as a tuple with three natural keys
fn test_triple_key_custom_lengths() {
    let addresser = TripleKeyHashAddresser::new("prefix".to_string(), Some(10), Some(10));
    let key1 = "a";
    let key1_hash = hash(10, key1);
    let key2 = "b";
    let key2_hash = hash(10, key2);
    let key3 = "c";
    let key3_hash = hash(44, key3);

    let addr = addresser
        .compute(&(key1.to_string(), key2.to_string(), key3.to_string()))
        .unwrap();
    assert_eq!(addr[..6], "prefix".to_string());
    assert_eq!(addr.len(), 70);

    assert_eq!(addr[6..16], key1_hash[..10]);
    assert_eq!(addr[16..26], key2_hash[..10]);
    assert_eq!(addr[26..], key3_hash[..44]);

    let normalized = addresser.normalize(&(key1.to_string(), key2.to_string(), key3.to_string()));
    assert_eq!(normalized, "a_b_c".to_string());
}

#[test]
// Tests the calculate_hash_lengths function using several different custom first hash lengths
// and `None` for the second length.
fn test_calculate_hash_custom_first_length() {
    let (first_length, second_length) = calculate_hash_lengths(6, Some(21), None);
    assert_eq!(first_length, 21);
    assert_eq!(second_length, 43 / 2);

    let (first_length, second_length) = calculate_hash_lengths(6, Some(41), None);
    assert_eq!(first_length, 41);
    assert_eq!(second_length, 23 / 2);

    let (first_length, second_length) = calculate_hash_lengths(6, Some(61), None);
    assert_eq!(first_length, 61);
    assert_eq!(second_length, 3 / 2);
}

#[test]
// Tests the calculate_hash_lengths function using `None` for the first hash length and several
// custom values for the second length.
fn test_calculate_hash_custom_second_length() {
    let (first_length, second_length) = calculate_hash_lengths(6, None, Some(21));
    assert_eq!(first_length, 43 / 2);
    assert_eq!(second_length, 21);

    let (first_length, second_length) = calculate_hash_lengths(6, None, Some(41));
    assert_eq!(first_length, 23 / 2);
    assert_eq!(second_length, 41);

    let (first_length, second_length) = calculate_hash_lengths(6, None, Some(61));
    assert_eq!(first_length, 3 / 2);
    assert_eq!(second_length, 61);
}

#[test]
// Tests the calculate_hash_lengths function using several different custom hash lengths.
fn test_calculate_hash_custom_lengths() {
    let (first_length, second_length) = calculate_hash_lengths(6, Some(42), Some(12));
    assert_eq!(first_length, 42);
    assert_eq!(second_length, 12);

    let (first_length, second_length) = calculate_hash_lengths(6, Some(12), Some(42));
    assert_eq!(first_length, 12);
    assert_eq!(second_length, 42);

    let (first_length, second_length) = calculate_hash_lengths(6, Some(20), Some(20));
    assert_eq!(first_length, 20);
    assert_eq!(second_length, 20);
}

#[test]
// Tests the calculate_hash_lengths function using `None` for both hash lengths.
fn test_calculate_hash_no_custom_lengths() {
    let (first_length, second_length) = calculate_hash_lengths(6, None, None);
    assert_eq!(first_length, 21);
    assert_eq!(second_length, 21);

    let (first_length, second_length) = calculate_hash_lengths(30, None, None);
    assert_eq!(first_length, 40 / 3);
    assert_eq!(second_length, 40 / 3);

    let (first_length, second_length) = calculate_hash_lengths(50, None, None);
    assert_eq!(first_length, 20 / 3);
    assert_eq!(second_length, 20 / 3);
}

#[test]
// An address computed under a hexadecimal prefix is 70 characters of hexadecimal.
fn test_address_is_hex_with_hex_prefix() {
    let addresser = KeyHashAddresser::new("ab0000".to_string());
    let addr = addresser.compute(&"alice".to_string()).unwrap();
    assert_eq!(addr.len(), 70);
    assert_eq!(&addr[..6], "ab0000");
    assert_eq!(&addr[6..], &hash(64, "alice")[..]);
    assert!(addr.chars().all(|c| c.is_ascii_hexdigit()));
}

#[test]
// Address computation is deterministic: the same keys and configuration give
// the same address on every call.
fn test_compute_deterministic() {
    let addresser = DoubleKeyHashAddresser::new("prefix".to_string(), None);
    let key = ("a".to_string(), "b".to_string());
    let first = addresser.compute(&key).unwrap();
    let second = addresser.compute(&key).unwrap();
    assert_eq!(first, second);
}

#[test]
// A configuration whose prefix and segment lengths cannot sum to 70 is
// reported as an addresser error, not a malformed address.
fn test_misconfigured_lengths_error() {
    let addresser = DoubleKeyHashAddresser::new("prefix".to_string(), Some(100));
    let result = addresser.compute(&("a".to_string(), "b".to_string()));
    assert!(matches!(result, Err(SimpleStateError::AddresserError(_))));

    let triple = TripleKeyHashAddresser::new("prefix".to_string(), Some(60), Some(60));
    let result = triple.compute(&("a".to_string(), "b".to_string(), "c".to_string()));
    assert!(matches!(result, Err(SimpleStateError::AddresserError(_))));
}
