use merk::hash::NULL_HASH;
use merk::{hash, kv_hash, HASH_LENGTH};

#[test]
fn null_hash_is_twenty_zero_bytes() {
    assert_eq!(HASH_LENGTH, 20);
    assert_eq!(NULL_HASH, [0u8; 20]);
}

#[test]
fn kv_hash_of_known_pairs() {
    assert_eq!(
        kv_hash(b"key", b"value"),
        [68, 251, 240, 50, 35, 85, 90, 204, 11, 199, 165, 59, 130, 199, 86, 141, 152, 170, 27, 26]
    );
    assert_eq!(
        kv_hash(b"", b""),
        [93, 183, 219, 10, 45, 136, 39, 149, 47, 220, 190, 248, 229, 184, 205, 165, 28, 95, 198, 187]
    );
    assert_eq!(
        kv_hash(&[1, 2, 3], &[4, 5, 6]),
        [44, 207, 168, 83, 90, 164, 155, 178, 18, 239, 152, 87, 31, 209, 217, 222, 50, 228, 52, 242]
    );
}

#[test]
fn kv_hash_prefixes_the_value_length_high_byte_first() {
    // 300 = 0x012c: the two length bytes differ
    let value = vec![9u8; 300];
    assert_eq!(
        kv_hash(b"k", &value),
        [3, 112, 41, 246, 109, 57, 219, 232, 251, 76, 169, 44, 218, 195, 172, 220, 184, 109, 118, 75]
    );
}

#[test]
fn kv_hash_at_the_length_limits() {
    let key = vec![1u8; 255];
    let value = vec![2u8; 65535];
    assert_ne!(kv_hash(&key, &value), NULL_HASH);
    assert_ne!(kv_hash(&key, &value), kv_hash(&key[..254], &value));
}

#[test]
fn node_hash_of_a_leaf() {
    let kv = kv_hash(b"key", b"value");
    let leaf = hash(&kv, None, None);
    assert_eq!(
        leaf,
        [185, 183, 13, 111, 85, 92, 81, 49, 206, 229, 223, 70, 181, 11, 80, 232, 27, 178, 79, 155]
    );
    // a missing child counts as the null digest
    assert_eq!(hash(&kv, Some(&NULL_HASH), Some(&NULL_HASH)), leaf);
    assert_eq!(hash(&kv, Some(&NULL_HASH), None), leaf);
}

#[test]
fn node_hash_with_children() {
    let kv = kv_hash(b"key", b"value");
    let mut left = [0u8; 20];
    let mut right = [0u8; 20];
    for i in 0..20 {
        left[i] = i as u8;
        right[i] = 100 + i as u8;
    }
    assert_eq!(
        hash(&kv, Some(&left), Some(&right)),
        [247, 148, 128, 82, 115, 196, 239, 158, 253, 181, 206, 233, 180, 171, 76, 208, 135, 185, 213, 151]
    );
    // the sides are not interchangeable
    assert_ne!(hash(&kv, Some(&left), Some(&right)), hash(&kv, Some(&right), Some(&left)));
}

#[test]
fn what_is_hashed_for_a_pair() {
    assert_eq!(
        merk::hash::kv_hash_input(b"key", b"value"),
        vec![3, b'k', b'e', b'y', 0, 5, b'v', b'a', b'l', b'u', b'e']
    );
    assert_eq!(merk::hash::kv_hash_input(b"", b""), vec![0, 0, 0]);
    let long = merk::hash::kv_hash_input(&[7u8; 255], &[9u8; 65535]);
    assert_eq!(long.len(), 1 + 255 + 2 + 65535);
    assert_eq!(long[0], 255);
    assert_eq!(&long[256..258], &[255, 255]);
    let mid = merk::hash::kv_hash_input(b"k", &[9u8; 300]);
    assert_eq!(&mid[..4], &[1, b'k', 1, 44]);
}

#[test]
fn what_is_hashed_for_a_node() {
    let kv = [1u8; 20];
    let left = [2u8; 20];
    let mut expected = vec![1u8; 20];
    expected.extend_from_slice(&[2u8; 20]);
    expected.extend_from_slice(&[0u8; 20]);
    assert_eq!(merk::hash::node_hash_input(&kv, Some(&left), None), expected);
    assert_eq!(merk::hash::node_hash_input(&kv, None, None).len(), 60);
}
