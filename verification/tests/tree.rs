use merk::batch::{TreeBatchEntry, TreeOp};
use merk::hash::NULL_HASH;
use merk::sparse_tree::get_node;
use merk::store::memorydb::MemoryDb;
use merk::store::Database;
use merk::{Error, Link, Merk, SparseTree};
use std::collections::BTreeMap;

const ROOT_KEY: &[u8] = &[0, 114, 111, 111, 116];

/// Walks the stored tree below `link`, checks order, balance, heights and
/// digests at every node, and collects the pairs.
fn check_subtree(
    db: &MemoryDb,
    link: &Link,
    lo: Option<&[u8]>,
    hi: Option<&[u8]>,
    pairs: &mut BTreeMap<Vec<u8>, Vec<u8>>,
) {
    let node = get_node(db, &link.key).unwrap();
    assert_eq!(node.key, link.key);
    if let Some(lo) = lo {
        assert!(lo < &node.key[..]);
    }
    if let Some(hi) = hi {
        assert!(&node.key[..] < hi);
    }
    assert_eq!(node.kv_hash, merk::kv_hash(&node.key, &node.value));
    assert_eq!(node.hash(), link.hash);
    assert_eq!(node.height(), link.height);
    let balance = node.child_height(false) as i32 - node.child_height(true) as i32;
    assert!(balance.abs() <= 1);
    if let Some(left) = &node.left {
        check_subtree(db, left, lo, Some(&node.key), pairs);
    }
    assert!(pairs.insert(node.key.clone(), node.value.clone()).is_none());
    if let Some(right) = &node.right {
        check_subtree(db, right, Some(&node.key), hi, pairs);
    }
}

/// Checks the whole handle against the pairs it should hold.
fn check(merk: &Merk<MemoryDb>, model: &BTreeMap<Vec<u8>, Vec<u8>>) {
    let mut pairs = BTreeMap::new();
    match &merk.tree {
        Some(root) => {
            assert_eq!(merk.db.get(ROOT_KEY), Some(root.key().to_vec()));
            assert_eq!(get_node(&merk.db, root.key()).unwrap(), *root.node());
            let link = root.node().as_link();
            assert_eq!(link.hash, merk.root_hash());
            assert_eq!(link.height, merk.height());
            check_subtree(&merk.db, &link, None, None, &mut pairs);
            assert_eq!(merk.db.len(), pairs.len() + 1);
        }
        None => {
            assert_eq!(merk.db.get(ROOT_KEY), None);
            assert_eq!(merk.db.len(), 0);
            assert_eq!(merk.root_hash(), NULL_HASH);
            assert_eq!(merk.height(), 0);
        }
    }
    assert_eq!(&pairs, model);
    for (k, v) in model {
        assert_eq!(merk.get(k).as_ref(), Ok(v));
    }
}

fn apply_both(
    merk: &mut Merk<MemoryDb>,
    model: &mut BTreeMap<Vec<u8>, Vec<u8>>,
    ops: &[(Vec<u8>, Option<Vec<u8>>)],
) {
    let mut batch: Vec<TreeBatchEntry> = Vec::new();
    for (k, op) in ops {
        match op {
            Some(v) => {
                batch.push((k, TreeOp::Put(v.clone())));
                model.insert(k.clone(), v.clone());
            }
            None => {
                batch.push((k, TreeOp::Delete));
                model.remove(k);
            }
        }
    }
    merk.apply(&mut batch).unwrap();
    check(merk, model);
}

fn key(i: u32) -> Vec<u8> {
    i.to_be_bytes().to_vec()
}

#[test]
fn single_inserts_in_ascending_order_stay_balanced() {
    let mut merk = Merk::new(MemoryDb::new()).unwrap();
    let mut model = BTreeMap::new();
    for i in 0..64 {
        apply_both(&mut merk, &mut model, &[(key(i), Some(vec![i as u8]))]);
    }
    assert_eq!(merk.height(), 7);
}

#[test]
fn single_inserts_in_descending_order_stay_balanced() {
    let mut merk = Merk::new(MemoryDb::new()).unwrap();
    let mut model = BTreeMap::new();
    for i in (0..64).rev() {
        apply_both(&mut merk, &mut model, &[(key(i), Some(vec![i as u8]))]);
    }
    assert_eq!(merk.height(), 7);
}

#[test]
fn double_rotations() {
    // 1, 3, 2 forces a rotation of the right child to the right first
    let mut merk = Merk::new(MemoryDb::new()).unwrap();
    let mut model = BTreeMap::new();
    for i in [1, 3, 2] {
        apply_both(&mut merk, &mut model, &[(key(i), Some(vec![1]))]);
    }
    assert_eq!(merk.tree.as_ref().unwrap().key(), &key(2)[..]);
    assert_eq!(merk.height(), 2);
    // and 3, 1, 2 its mirror image
    let mut merk = Merk::new(MemoryDb::new()).unwrap();
    let mut model = BTreeMap::new();
    for i in [3, 1, 2] {
        apply_both(&mut merk, &mut model, &[(key(i), Some(vec![1]))]);
    }
    assert_eq!(merk.tree.as_ref().unwrap().key(), &key(2)[..]);
    assert_eq!(merk.height(), 2);
}

#[test]
fn deleting_a_node_with_two_children_promotes_its_successor() {
    let mut merk = Merk::new(MemoryDb::new()).unwrap();
    let mut model = BTreeMap::new();
    let all: Vec<(Vec<u8>, Option<Vec<u8>>)> = (1..=7).map(|i| (key(i), Some(vec![i as u8]))).collect();
    apply_both(&mut merk, &mut model, &all);
    assert_eq!(merk.tree.as_ref().unwrap().key(), &key(4)[..]);
    apply_both(&mut merk, &mut model, &[(key(4), None)]);
    assert_eq!(merk.tree.as_ref().unwrap().key(), &key(5)[..]);
    assert_eq!(merk.get(&key(4)), Err(Error::KeyNotFound));
    apply_both(&mut merk, &mut model, &[(key(5), None)]);
    assert_eq!(merk.tree.as_ref().unwrap().key(), &key(6)[..]);
}

#[test]
fn mixed_batches_against_a_model() {
    let mut merk = Merk::new(MemoryDb::new()).unwrap();
    let mut model = BTreeMap::new();
    let mut seed: u32 = 12345;
    let mut next = move || {
        seed = seed.wrapping_mul(1103515245).wrapping_add(12345);
        (seed >> 8) & 0xffff
    };
    for round in 0..60 {
        let size = (next() % 40) as usize;
        let mut ops: BTreeMap<Vec<u8>, Option<Vec<u8>>> = BTreeMap::new();
        for _ in 0..size {
            let k = key(next() % 200);
            if next() % 3 == 0 {
                ops.insert(k, None);
            } else {
                ops.insert(k, Some(vec![round as u8, (next() % 256) as u8]));
            }
        }
        // hand the batch over unsorted
        let mut list: Vec<(Vec<u8>, Option<Vec<u8>>)> = ops.into_iter().collect();
        list.reverse();
        apply_both(&mut merk, &mut model, &list);
    }
    // and take everything out again
    let rest: Vec<(Vec<u8>, Option<Vec<u8>>)> = model.keys().map(|k| (k.clone(), None)).collect();
    apply_both(&mut merk, &mut model, &rest);
    assert!(merk.tree.is_none());
}

#[test]
fn a_large_batch_against_a_small_tree() {
    let mut merk = Merk::new(MemoryDb::new()).unwrap();
    let mut model = BTreeMap::new();
    apply_both(&mut merk, &mut model, &[(key(5000), Some(vec![1]))]);
    let many: Vec<(Vec<u8>, Option<Vec<u8>>)> = (6000..7000).map(|i| (key(i), Some(vec![2]))).collect();
    apply_both(&mut merk, &mut model, &many);
    let fewer: Vec<(Vec<u8>, Option<Vec<u8>>)> = (6000..6990).map(|i| (key(i), None)).collect();
    apply_both(&mut merk, &mut model, &fewer);
    assert_eq!(model.len(), 11);
    assert_eq!(merk.height(), 4);
}

#[test]
fn the_order_of_a_batch_does_not_matter() {
    let pairs: Vec<(Vec<u8>, Vec<u8>)> = (0..50).map(|i| (key(i * 3), vec![i as u8])).collect();
    let digest_of = |order: &[usize]| {
        let mut merk = Merk::new(MemoryDb::new()).unwrap();
        let mut batch: Vec<TreeBatchEntry> =
            order.iter().map(|&i| (&pairs[i].0[..], TreeOp::Put(pairs[i].1.clone()))).collect();
        merk.apply(&mut batch).unwrap();
        merk.root_hash()
    };
    let forward: Vec<usize> = (0..50).collect();
    let backward: Vec<usize> = (0..50).rev().collect();
    let shuffled: Vec<usize> = (0..50).map(|i| (i * 17 + 5) % 50).collect();
    assert_eq!(digest_of(&forward), digest_of(&backward));
    assert_eq!(digest_of(&forward), digest_of(&shuffled));
}

#[test]
fn a_reopened_handle_has_the_same_root() {
    let mut merk = Merk::new(MemoryDb::new()).unwrap();
    let mut model = BTreeMap::new();
    let all: Vec<(Vec<u8>, Option<Vec<u8>>)> = (0..100).map(|i| (key(i), Some(b"xyz".to_vec()))).collect();
    apply_both(&mut merk, &mut model, &all);
    let root = merk.root_hash();
    let height = merk.height();
    let again = merk.reopen().unwrap();
    assert_eq!(again.root_hash(), root);
    assert_eq!(again.height(), height);
    check(&again, &model);
    let mut third = Merk::new(again.into_store()).unwrap();
    assert_eq!(third.root_hash(), root);
    apply_both(&mut third, &mut model, &[(key(7), None), (key(200), Some(vec![1]))]);
    assert_ne!(third.root_hash(), root);
}

#[test]
fn opening_a_store_with_a_dangling_root_fails() {
    let mut db = MemoryDb::new();
    db.put(ROOT_KEY, b"gone".to_vec()).unwrap();
    assert!(matches!(Merk::new(db), Err(Error::KeyNotFound)));
    let mut db = MemoryDb::new();
    db.put(ROOT_KEY, b"junk".to_vec()).unwrap();
    db.put(b"junk", vec![1, 2, 3]).unwrap();
    assert!(matches!(Merk::new(db), Err(Error::DecodeError)));
}

#[test]
fn unchecked_apply_takes_a_sorted_batch() {
    let mut merk = Merk::new(MemoryDb::new()).unwrap();
    let batch: Vec<TreeBatchEntry> = vec![
        (b"a", TreeOp::Put(b"1".to_vec())),
        (b"b", TreeOp::Put(b"2".to_vec())),
        (b"c", TreeOp::Delete),
    ];
    merk.apply_unchecked(&batch).unwrap();
    assert_eq!(merk.get(b"a").unwrap(), b"1");
    assert_eq!(merk.get(b"b").unwrap(), b"2");
    assert_eq!(merk.get(b"c"), Err(Error::KeyNotFound));
    let long = vec![0u8; 256];
    let bad: Vec<TreeBatchEntry> = vec![(&long, TreeOp::Delete)];
    assert_eq!(merk.apply_unchecked(&bad), Err(Error::KeyTooLong));
}

#[test]
fn get_reads_the_store_not_the_batch_in_flight() {
    let mut merk = Merk::new(MemoryDb::new()).unwrap();
    let mut first: Vec<TreeBatchEntry> = vec![(b"k", TreeOp::Put(b"old".to_vec()))];
    merk.apply(&mut first).unwrap();
    assert_eq!(merk.get(b"k").unwrap(), b"old");
    let mut second: Vec<TreeBatchEntry> = vec![(b"k", TreeOp::Put(b"new".to_vec()))];
    merk.apply(&mut second).unwrap();
    assert_eq!(merk.get(b"k").unwrap(), b"new");
}

#[test]
fn branch_to_a_key() {
    let mut merk = Merk::new(MemoryDb::new()).unwrap();
    let mut batch: Vec<TreeBatchEntry> = Vec::new();
    let keys: Vec<Vec<u8>> = (1..=7).map(key).collect();
    for k in &keys {
        batch.push((k, TreeOp::Put(b"v".to_vec())));
    }
    merk.apply(&mut batch).unwrap();
    let path = |k: u32| -> Vec<Vec<u8>> {
        merk.map_branch(&key(k)).unwrap().into_iter().map(|n| n.key).collect()
    };
    assert_eq!(path(4), vec![key(4)]);
    assert_eq!(path(1), vec![key(4), key(2), key(1)]);
    assert_eq!(path(6), vec![key(4), key(6)]);
    assert_eq!(path(7), vec![key(4), key(6), key(7)]);
    assert_eq!(path(0), vec![key(4), key(2), key(1)]);
    let empty = Merk::new(MemoryDb::new()).unwrap();
    assert!(empty.map_branch(b"k").unwrap().is_empty());
}

#[test]
fn sparse_tree_apply_modified_and_prune() {
    let mut db = MemoryDb::new();
    let mut root: Option<Box<SparseTree>> = None;
    let batch: Vec<TreeBatchEntry> = vec![
        (b"a", TreeOp::Put(b"1".to_vec())),
        (b"b", TreeOp::Put(b"2".to_vec())),
        (b"c", TreeOp::Put(b"3".to_vec())),
    ];
    let mut destroyed: Vec<Vec<u8>> = Vec::new();
    SparseTree::apply(&mut root, &db, &batch, &mut destroyed).unwrap();
    assert!(destroyed.is_empty());
    let tree = root.as_mut().unwrap();
    assert_eq!(tree.key(), b"b");
    assert_eq!(tree.value(), b"2");
    assert_eq!(tree.height(), 2);
    let a = merk::hash(&merk::kv_hash(b"a", b"1"), None, None);
    let c = merk::hash(&merk::kv_hash(b"c", b"3"), None, None);
    assert_eq!(tree.hash(), merk::hash(&merk::kv_hash(b"b", b"2"), Some(&a), Some(&c)));

    // all three nodes are new
    let mut writes = tree.modified().unwrap();
    writes.sort();
    let keys: Vec<Vec<u8>> = writes.iter().map(|w| w.0.clone()).collect();
    assert_eq!(keys, vec![b"a".to_vec(), b"b".to_vec(), b"c".to_vec()]);
    assert_eq!(writes[1].1, tree.node().encode().unwrap());
    db.write_batch(writes).unwrap();

    // after pruning nothing is left to write, and the children come from the store
    tree.prune();
    assert!(tree.modified().unwrap().is_empty());
    assert_eq!(tree.height(), 2);
    let more: Vec<TreeBatchEntry> = vec![
        (b"a", TreeOp::Delete),
        (b"aa", TreeOp::Delete),
        (b"d", TreeOp::Put(b"4".to_vec())),
    ];
    SparseTree::apply(&mut root, &db, &more, &mut destroyed).unwrap();
    // only what the tree held is destroyed
    assert_eq!(destroyed, vec![b"a".to_vec()]);
    let tree = root.as_ref().unwrap();
    assert_eq!(tree.key(), b"c");
    assert_eq!(tree.height(), 2);
    let mut writes = tree.modified().unwrap();
    writes.sort();
    let keys: Vec<Vec<u8>> = writes.iter().map(|w| w.0.clone()).collect();
    assert_eq!(keys, vec![b"b".to_vec(), b"c".to_vec(), b"d".to_vec()]);
}
