use merk::batch::{TreeBatchEntry, TreeOp};
use merk::store::memorydb::MemoryDb;
use merk::{Error, Merk};

fn make_temp_db() -> Merk<MemoryDb> {
    Merk::new(MemoryDb::new()).unwrap()
}

#[test]
fn merk_simple_put() {
    let mut merk = make_temp_db();
    let mut batch: Vec<TreeBatchEntry> = vec![
        (b"key", TreeOp::Put(b"value".to_vec())),
        (b"key2", TreeOp::Put(b"value2".to_vec())),
        (b"key3", TreeOp::Put(b"value3".to_vec())),
    ];
    merk.apply(&mut batch).unwrap();
}

#[test]
fn merk_range_inclusive() {
    let mut merk = make_temp_db();
    let mut batch: Vec<TreeBatchEntry> = vec![
        (b"key", TreeOp::Put(b"value".to_vec())),
        (b"key2", TreeOp::Put(b"value2".to_vec())),
        (b"key3", TreeOp::Put(b"value3".to_vec())),
    ];
    merk.apply(&mut batch).unwrap();

    let mut i = 0;
    for node in merk.map_range(b"key", b"key3").unwrap() {
        let expected_key = batch[i].0;
        assert_eq!(node.key, expected_key);
        i += 1;
    }
    assert_eq!(i, 3);
}

#[test]
fn merk_delete_1k() {
    let mut merk = make_temp_db();

    let mut keys: Vec<[u8; 4]> = Vec::with_capacity(1001);
    let mut batch: Vec<TreeBatchEntry> = Vec::with_capacity(1001);
    for i in 0..=1000 {
        keys.push((i as u32).to_be_bytes());
    }
    for i in 0..=1000 {
        batch.push((&keys[i], TreeOp::Put(b"xyz".to_vec())));
    }
    merk.apply(&mut batch).unwrap();

    batch.clear();
    for i in 0..1000 {
        batch.push((&keys[i], TreeOp::Delete));
    }
    merk.apply(&mut batch).unwrap();

    assert_eq!(merk.tree.as_ref().unwrap().key(), &keys[1000]);
    assert_eq!(&merk.tree.as_ref().unwrap().height(), &(1 as u8));
}

#[test]
fn merk_load() {
    let mut keys: Vec<[u8; 4]> = Vec::with_capacity(100);
    for i in 0..100 {
        keys.push((i as u32).to_be_bytes());
    }

    let store = {
        let mut merk = Merk::new(MemoryDb::new()).unwrap();

        let mut batch: Vec<TreeBatchEntry> = Vec::with_capacity(100);
        for i in 0..100 {
            batch.push((&keys[i], TreeOp::Put(b"xyz".to_vec())));
        }
        merk.apply(&mut batch).unwrap();
        merk.into_store()
    };

    {
        let merk = Merk::new(store).unwrap();

        for key in keys.iter() {
            assert_eq!(merk.get(key).unwrap(), b"xyz");
        }
    }
}

#[test]
fn three_key_put_shape() {
    let mut merk = make_temp_db();
    let mut batch: Vec<TreeBatchEntry> = vec![
        (b"key3", TreeOp::Put(b"value3".to_vec())),
        (b"key", TreeOp::Put(b"value".to_vec())),
        (b"key2", TreeOp::Put(b"value2".to_vec())),
    ];
    merk.apply(&mut batch).unwrap();
    assert_eq!(merk.get(b"key2").unwrap(), b"value2");
    assert_eq!(merk.height(), 2);
    assert_eq!(merk.tree.as_ref().unwrap().key(), b"key2");
}

#[test]
fn six_keys_root_hash() {
    let mut merk = make_temp_db();
    let mut batch: Vec<TreeBatchEntry> = vec![
        (b"key1", TreeOp::Put(b"value1".to_vec())),
        (b"key2", TreeOp::Put(b"value2".to_vec())),
        (b"key3", TreeOp::Put(b"value3".to_vec())),
        (b"key4", TreeOp::Put(b"value4".to_vec())),
        (b"key5", TreeOp::Put(b"value5".to_vec())),
        (b"key6", TreeOp::Put(b"value6".to_vec())),
    ];
    merk.apply(&mut batch).unwrap();
    assert_eq!(
        merk.root_hash(),
        [164, 172, 235, 50, 254, 105, 16, 195, 220, 18, 217, 39, 44, 215, 194, 160, 253, 84, 27, 75]
    );
}

#[test]
fn duplicate_keys_are_rejected() {
    let mut merk = make_temp_db();
    let mut first: Vec<TreeBatchEntry> = vec![(b"a", TreeOp::Put(b"1".to_vec()))];
    merk.apply(&mut first).unwrap();
    let root = merk.root_hash();

    let mut batch: Vec<TreeBatchEntry> = vec![
        (b"k", TreeOp::Put(b"1".to_vec())),
        (b"k", TreeOp::Put(b"2".to_vec())),
    ];
    assert_eq!(merk.apply(&mut batch), Err(Error::DuplicateKeyInBatch));
    assert_eq!(merk.root_hash(), root);
    assert_eq!(merk.get(b"k"), Err(Error::KeyNotFound));
    assert_eq!(merk.get(b"a").unwrap(), b"1");
}

#[test]
fn length_limits() {
    let mut merk = make_temp_db();
    let key255 = vec![7u8; 255];
    let key256 = vec![7u8; 256];
    let value_max = vec![1u8; 65535];
    let value_over = vec![1u8; 65536];

    let mut ok: Vec<TreeBatchEntry> = vec![(&key255, TreeOp::Put(value_max.clone()))];
    merk.apply(&mut ok).unwrap();
    assert_eq!(merk.get(&key255).unwrap(), value_max);

    let mut long_key: Vec<TreeBatchEntry> = vec![(&key256, TreeOp::Put(b"v".to_vec()))];
    assert_eq!(merk.apply(&mut long_key), Err(Error::KeyTooLong));
    assert_eq!(merk.get(&key256), Err(Error::KeyNotFound));

    let mut long_value: Vec<TreeBatchEntry> = vec![(b"k", TreeOp::Put(value_over))];
    assert_eq!(merk.apply(&mut long_value), Err(Error::ValueTooLong));
    assert_eq!(merk.get(b"k"), Err(Error::KeyNotFound));
}

#[test]
fn empty_tree_boundaries() {
    let mut merk = make_temp_db();
    let mut none: Vec<TreeBatchEntry> = vec![];
    merk.apply(&mut none).unwrap();
    assert!(merk.tree.is_none());
    assert_eq!(merk.root_hash(), [0u8; 20]);

    let mut missing: Vec<TreeBatchEntry> = vec![(b"nothing", TreeOp::Delete)];
    merk.apply(&mut missing).unwrap();
    assert!(merk.tree.is_none());

    let mut one: Vec<TreeBatchEntry> = vec![(b"k", TreeOp::Put(b"v".to_vec()))];
    merk.apply(&mut one).unwrap();
    assert_eq!(merk.height(), 1);
    assert_eq!(merk.tree.as_ref().unwrap().key(), b"k");
    let root = merk.root_hash();

    // the same pair again leaves the digest as it is
    let mut same: Vec<TreeBatchEntry> = vec![(b"k", TreeOp::Put(b"v".to_vec()))];
    merk.apply(&mut same).unwrap();
    assert_eq!(merk.root_hash(), root);

    // deleting the last key empties the tree and the store
    let mut last: Vec<TreeBatchEntry> = vec![(b"k", TreeOp::Delete)];
    merk.apply(&mut last).unwrap();
    assert!(merk.tree.is_none());
    assert_eq!(merk.get(b"k"), Err(Error::KeyNotFound));
    let store = merk.into_store();
    assert_eq!(store.len(), 0);
}

#[test]
fn a_scan_over_the_root_pointer_fails_to_decode() {
    let mut merk = make_temp_db();
    let mut batch: Vec<TreeBatchEntry> = vec![(b"key", TreeOp::Put(b"value".to_vec()))];
    merk.apply(&mut batch).unwrap();
    // the reserved key sorts before "key" and holds no node
    assert_eq!(merk.map_range(&[0], b"key"), Err(Error::DecodeError));
    assert_eq!(merk.map_range(&[1], b"key").unwrap().len(), 1);
    assert!(merk.map_range(b"kez", b"zzz").unwrap().is_empty());
}
