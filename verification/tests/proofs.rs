use merk::batch::{TreeBatchEntry, TreeOp};
use merk::proofs::{verify, Op};
use merk::store::memorydb::MemoryDb;
use merk::{Error, Merk};

fn six_keys() -> Merk<MemoryDb> {
    let mut merk = Merk::new(MemoryDb::new()).unwrap();
    let mut batch: Vec<TreeBatchEntry> = vec![
        (b"key1", TreeOp::Put(b"value1".to_vec())),
        (b"key2", TreeOp::Put(b"value2".to_vec())),
        (b"key3", TreeOp::Put(b"value3".to_vec())),
        (b"key4", TreeOp::Put(b"value4".to_vec())),
        (b"key5", TreeOp::Put(b"value5".to_vec())),
        (b"key6", TreeOp::Put(b"value6".to_vec())),
    ];
    merk.apply(&mut batch).unwrap();
    merk
}

const SIX_KEYS_ROOT: [u8; 20] = [
    164, 172, 235, 50, 254, 105, 16, 195, 220, 18, 217, 39, 44, 215, 194, 160, 253, 84, 27, 75,
];

#[test]
fn merk_proof() {
    let mut merk = six_keys();

    let proof = merk.range_proof(b"key", b"key6").unwrap();

    verify(
        &[
            164, 172, 235, 50, 254, 105, 16, 195, 220, 18, 217, 39, 44, 215, 194, 160, 253, 84, 27,
            75,
        ],
        &proof,
    )
    .unwrap();
}

#[test]
fn proof_reports_all_six_pairs_in_order() {
    let mut merk = six_keys();
    let proof = merk.range_proof(b"key", b"key6").unwrap();
    let pairs = verify(&merk.root_hash(), &proof).unwrap();
    let expected: Vec<(Vec<u8>, Vec<u8>)> = (1..=6)
        .map(|i| (format!("key{}", i).into_bytes(), format!("value{}", i).into_bytes()))
        .collect();
    assert_eq!(pairs, expected);
}

#[test]
fn proof_stream_for_a_narrow_range() {
    let mut merk = six_keys();
    // the root is key4, over key2 (key1, key3) and key6 (key5, -)
    let proof = merk.range_proof(b"key5", b"key5").unwrap();
    assert_eq!(proof.len(), 7);
    assert_eq!(proof[0], Op::PushLeaf(b"key4".to_vec(), b"value4".to_vec()));
    assert!(matches!(proof[1], Op::PushHash(_, 2)));
    assert_eq!(proof[2], Op::ParentLeft);
    assert_eq!(proof[3], Op::PushLeaf(b"key6".to_vec(), b"value6".to_vec()));
    assert_eq!(proof[4], Op::PushLeaf(b"key5".to_vec(), b"value5".to_vec()));
    assert_eq!(proof[5], Op::ParentLeft);
    assert_eq!(proof[6], Op::ParentRight);

    let pairs = verify(&SIX_KEYS_ROOT, &proof).unwrap();
    let keys: Vec<Vec<u8>> = pairs.into_iter().map(|p| p.0).collect();
    assert_eq!(keys, vec![b"key4".to_vec(), b"key5".to_vec(), b"key6".to_vec()]);
}

#[test]
fn proof_of_the_empty_tree() {
    let mut merk = Merk::new(MemoryDb::new()).unwrap();
    let proof = merk.range_proof(b"a", b"z").unwrap();
    assert_eq!(proof, vec![Op::PushHash([0u8; 20], 0)]);
    assert_eq!(verify(&[0u8; 20], &proof), Ok(vec![]));
}

#[test]
fn verify_rejects_a_wrong_root() {
    let mut merk = six_keys();
    let proof = merk.range_proof(b"key", b"key6").unwrap();
    let mut root = merk.root_hash();
    root[0] ^= 1;
    assert_eq!(verify(&root, &proof), Err(Error::ProofInvalid));
    assert_eq!(verify(&root[..19], &proof), Err(Error::ProofInvalid));
}

#[test]
fn verify_rejects_broken_streams() {
    // a parent operation on a stack that is too short
    assert_eq!(verify(&[0u8; 20], &vec![Op::ParentLeft]), Err(Error::ProofInvalid));
    assert_eq!(
        verify(&[0u8; 20], &vec![Op::PushHash([0u8; 20], 0), Op::ParentRight]),
        Err(Error::ProofInvalid)
    );
    // nothing left, and more than one entry left
    assert_eq!(verify(&[0u8; 20], &vec![]), Err(Error::ProofInvalid));
    assert_eq!(
        verify(&[0u8; 20], &vec![Op::PushHash([0u8; 20], 0), Op::PushHash([0u8; 20], 0)]),
        Err(Error::ProofInvalid)
    );
    // a child under a summary
    assert_eq!(
        verify(
            &[0u8; 20],
            &vec![Op::PushHash([1u8; 20], 1), Op::PushHash([2u8; 20], 1), Op::ParentLeft]
        ),
        Err(Error::ProofInvalid)
    );
    // pairs out of order: a left child with a greater key
    let out_of_order = vec![
        Op::PushLeaf(b"a".to_vec(), b"1".to_vec()),
        Op::PushLeaf(b"b".to_vec(), b"2".to_vec()),
        Op::ParentLeft,
    ];
    assert_eq!(verify(&[0u8; 20], &out_of_order), Err(Error::ProofInvalid));
    // a second left child
    let twice = vec![
        Op::PushLeaf(b"m".to_vec(), b"1".to_vec()),
        Op::PushHash([1u8; 20], 1),
        Op::ParentLeft,
        Op::PushHash([2u8; 20], 1),
        Op::ParentLeft,
    ];
    assert_eq!(verify(&[0u8; 20], &twice), Err(Error::ProofInvalid));
    // a height that does not fit a byte
    let too_high = vec![
        Op::PushLeaf(b"m".to_vec(), b"1".to_vec()),
        Op::PushHash([1u8; 20], 255),
        Op::ParentRight,
    ];
    assert_eq!(verify(&[0u8; 20], &too_high), Err(Error::ProofInvalid));
    // pairs too long to hash
    assert_eq!(
        verify(&[0u8; 20], &vec![Op::PushLeaf(vec![0u8; 256], vec![])]),
        Err(Error::KeyTooLong)
    );
    assert_eq!(
        verify(&[0u8; 20], &vec![Op::PushLeaf(vec![], vec![0u8; 65536])]),
        Err(Error::ValueTooLong)
    );
}

#[test]
fn verify_a_proof_written_by_hand() {
    // one node "b" over the leaves "a" and "c"
    let kv = |k: &[u8], v: &[u8]| merk::kv_hash(k, v);
    let a = merk::hash(&kv(b"a", b"1"), None, None);
    let c = merk::hash(&kv(b"c", b"3"), None, None);
    let root = merk::hash(&kv(b"b", b"2"), Some(&a), Some(&c));
    let proof = vec![
        Op::PushLeaf(b"b".to_vec(), b"2".to_vec()),
        Op::PushLeaf(b"a".to_vec(), b"1".to_vec()),
        Op::ParentLeft,
        Op::PushHash(c, 1),
        Op::ParentRight,
    ];
    assert_eq!(
        verify(&root, &proof),
        Ok(vec![(b"a".to_vec(), b"1".to_vec()), (b"b".to_vec(), b"2".to_vec())])
    );
}

#[test]
fn proofs_of_many_ranges_show_what_the_range_holds() {
    let mut merk = Merk::new(MemoryDb::new()).unwrap();
    let keys: Vec<Vec<u8>> = (0..60u32).map(|i| (i * 5).to_be_bytes().to_vec()).collect();
    let mut batch: Vec<TreeBatchEntry> =
        keys.iter().map(|k| (&k[..], TreeOp::Put(vec![k[3], 1]))).collect();
    merk.apply(&mut batch).unwrap();
    let mut drop: Vec<TreeBatchEntry> =
        keys.iter().step_by(7).map(|k| (&k[..], TreeOp::Delete)).collect();
    merk.apply(&mut drop).unwrap();
    let held: Vec<&Vec<u8>> =
        keys.iter().enumerate().filter(|(i, _)| i % 7 != 0).map(|(_, k)| k).collect();
    let root = merk.root_hash();

    for (start, end) in [(0u32, 400u32), (3, 3), (10, 10), (11, 99), (100, 105), (290, 1000), (50, 20)] {
        let start = start.to_be_bytes();
        let end = end.to_be_bytes();
        let proof = merk.range_proof(&start, &end).unwrap();
        let pairs = verify(&root, &proof).unwrap();
        // by ascending key, and pairs of the tree
        for pair in pairs.windows(2) {
            assert!(pair[0].0 < pair[1].0);
        }
        for (k, v) in &pairs {
            assert_eq!(&merk.get(k).unwrap(), v);
        }
        // every pair of the range is among them
        let shown: Vec<&Vec<u8>> = pairs.iter().map(|p| &p.0).collect();
        for k in &held {
            if &k[..] >= &start[..] && &k[..] <= &end[..] {
                assert!(shown.contains(k));
            }
        }
    }
}

#[test]
fn the_same_tree_and_range_give_the_same_proof() {
    let mut merk = six_keys();
    let first = merk.range_proof(b"key2", b"key4").unwrap();
    let second = merk.range_proof(b"key2", b"key4").unwrap();
    assert_eq!(first, second);
    let mut again = merk.reopen().unwrap();
    assert_eq!(again.range_proof(b"key2", b"key4").unwrap(), first);
}
