use merk::bytes::{compare_keys, copy_bytes, key_eq, key_lt, KeyOrder};
use merk::Error;

#[test]
fn order_is_lexicographic() {
    assert_eq!(compare_keys(b"", b""), KeyOrder::Same);
    assert_eq!(compare_keys(b"", b"a"), KeyOrder::Before);
    assert_eq!(compare_keys(b"a", b""), KeyOrder::After);
    assert_eq!(compare_keys(b"key", b"key2"), KeyOrder::Before);
    assert_eq!(compare_keys(b"key2", b"key3"), KeyOrder::Before);
    assert_eq!(compare_keys(b"key3", b"key2"), KeyOrder::After);
    assert_eq!(compare_keys(b"b", b"abc"), KeyOrder::After);
    assert_eq!(compare_keys(&[0, 255], &[1]), KeyOrder::Before);
    assert_eq!(compare_keys(&[0, 0, 3, 232], &[0, 0, 3, 232]), KeyOrder::Same);
    assert!(key_lt(b"a", b"b"));
    assert!(!key_lt(b"b", b"a"));
    assert!(!key_lt(b"a", b"a"));
    assert!(key_eq(b"abc", b"abc"));
    assert!(!key_eq(b"abc", b"abd"));
}

#[test]
fn order_agrees_with_the_standard_library() {
    let keys: Vec<Vec<u8>> = vec![
        vec![],
        vec![0],
        vec![0, 0],
        vec![0, 1],
        vec![1],
        vec![1, 0],
        vec![255],
        vec![255, 255],
        b"key".to_vec(),
        b"key1".to_vec(),
    ];
    for a in &keys {
        for b in &keys {
            let expected = match a.cmp(b) {
                std::cmp::Ordering::Less => KeyOrder::Before,
                std::cmp::Ordering::Equal => KeyOrder::Same,
                std::cmp::Ordering::Greater => KeyOrder::After,
            };
            assert_eq!(compare_keys(a, b), expected);
        }
    }
}

#[test]
fn copy_bytes_copies() {
    assert_eq!(copy_bytes(b"abc"), b"abc".to_vec());
    assert_eq!(copy_bytes(b""), Vec::<u8>::new());
}

#[test]
fn each_error_has_its_message() {
    let all = [
        Error::KeyNotFound,
        Error::DuplicateKeyInBatch,
        Error::KeyTooLong,
        Error::ValueTooLong,
        Error::DecodeError,
        Error::StoreError,
        Error::ProofInvalid,
    ];
    for (i, a) in all.iter().enumerate() {
        assert!(!a.message().is_empty());
        for b in &all[i + 1..] {
            assert_ne!(a.message(), b.message());
        }
    }
    assert_eq!(Error::DuplicateKeyInBatch.message(), "batch must not have duplicate keys");
}
