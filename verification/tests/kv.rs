use merk::hash::NULL_HASH;
use merk::KV;

#[test]
fn new_kv() {
    let kv = KV::new(vec![1, 2, 3], vec![4, 5, 6]);

    assert_eq!(kv.key(), &[1, 2, 3]);
    assert_eq!(kv.value(), &[4, 5, 6]);
    assert_ne!(kv.hash(), &NULL_HASH);
}

#[test]
fn with_value() {
    let kv = KV::new(vec![1, 2, 3], vec![4, 5, 6]).with_value(vec![7, 8, 9]);

    assert_eq!(kv.key(), &[1, 2, 3]);
    assert_eq!(kv.value(), &[7, 8, 9]);
    assert_ne!(kv.hash(), &NULL_HASH);
}

#[test]
fn from_fields_takes_the_hash_as_given() {
    let kv = KV::from_fields(vec![1], vec![2], [7u8; 20]);
    assert_eq!(kv.key(), &[1]);
    assert_eq!(kv.value(), &[2]);
    assert_eq!(kv.hash(), &[7u8; 20]);
    let kv = kv.with_value(vec![3]);
    assert_eq!(kv.hash(), &merk::kv_hash(&[1], &[3]));
    assert_eq!(kv.take_key(), vec![1]);
}
