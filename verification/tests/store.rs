use merk::store::memorydb::MemoryDb;
use merk::store::Database;

fn pair(k: &[u8], v: &[u8]) -> (Vec<u8>, Vec<u8>) {
    (k.to_vec(), v.to_vec())
}

#[test]
fn put_get_delete() {
    let mut db = MemoryDb::new();
    assert_eq!(db.len(), 0);
    assert_eq!(db.get(b"a"), None);
    db.put(b"b", b"2".to_vec()).unwrap();
    db.put(b"a", b"1".to_vec()).unwrap();
    db.put(b"c", b"3".to_vec()).unwrap();
    assert_eq!(db.len(), 3);
    assert_eq!(db.get(b"a"), Some(b"1".to_vec()));
    assert_eq!(db.get(b"b"), Some(b"2".to_vec()));
    assert_eq!(db.get(b"c"), Some(b"3".to_vec()));
    assert_eq!(db.get(b"ab"), None);

    // overwrite
    db.put(b"b", b"two".to_vec()).unwrap();
    assert_eq!(db.len(), 3);
    assert_eq!(db.get(b"b"), Some(b"two".to_vec()));

    // delete, also of what is not there
    db.delete(b"b").unwrap();
    db.delete(b"nothing").unwrap();
    assert_eq!(db.len(), 2);
    assert_eq!(db.get(b"b"), None);
    assert_eq!(db.get(b"a"), Some(b"1".to_vec()));
    assert_eq!(db.get(b"c"), Some(b"3".to_vec()));
}

#[test]
fn write_batch_writes_all_later_over_earlier() {
    let mut db = MemoryDb::new();
    db.put(b"x", b"old".to_vec()).unwrap();
    db.write_batch(vec![pair(b"b", b"1"), pair(b"a", b"2"), pair(b"x", b"new"), pair(b"b", b"3")])
        .unwrap();
    assert_eq!(db.len(), 3);
    assert_eq!(db.get(b"a"), Some(b"2".to_vec()));
    assert_eq!(db.get(b"b"), Some(b"3".to_vec()));
    assert_eq!(db.get(b"x"), Some(b"new".to_vec()));
    db.write_batch(vec![]).unwrap();
    assert_eq!(db.len(), 3);
}

#[test]
fn iter_is_inclusive_and_ascending() {
    let mut db = MemoryDb::new();
    for k in [&b"d"[..], b"b", b"a", b"c", b"bb", b"", b"e"] {
        db.put(k, k.to_vec()).unwrap();
    }
    let keys = |start: &[u8], end: &[u8]| -> Vec<Vec<u8>> {
        db.iter(start, end).into_iter().map(|(k, _)| k).collect()
    };
    assert_eq!(keys(b"b", b"d"), vec![b"b".to_vec(), b"bb".to_vec(), b"c".to_vec(), b"d".to_vec()]);
    assert_eq!(keys(b"bb", b"bb"), vec![b"bb".to_vec()]);
    assert_eq!(keys(b"ba", b"bz"), vec![b"bb".to_vec()]);
    assert_eq!(keys(b"d", b"b"), Vec::<Vec<u8>>::new());
    assert_eq!(keys(b"f", b"z"), Vec::<Vec<u8>>::new());
    assert_eq!(keys(b"", b"a"), vec![b"".to_vec(), b"a".to_vec()]);
    assert_eq!(keys(b"", b"\xff").len(), 7);
    for (k, v) in db.iter(b"", b"\xff") {
        assert_eq!(k, v);
    }
}

#[test]
fn many_keys_stay_in_order() {
    let mut db = MemoryDb::new();
    for i in (0..500u32).rev() {
        db.put(&(i * 7919 % 500).to_be_bytes(), i.to_be_bytes().to_vec()).unwrap();
    }
    assert_eq!(db.len(), 500);
    let all = db.iter(&0u32.to_be_bytes(), &499u32.to_be_bytes());
    assert_eq!(all.len(), 500);
    for (i, (k, _)) in all.iter().enumerate() {
        assert_eq!(k, &(i as u32).to_be_bytes());
    }
    for i in 0..500u32 {
        if i % 2 == 0 {
            db.delete(&i.to_be_bytes()).unwrap();
        }
    }
    assert_eq!(db.len(), 250);
    assert_eq!(db.get(&4u32.to_be_bytes()), None);
    assert!(db.get(&5u32.to_be_bytes()).is_some());
}
