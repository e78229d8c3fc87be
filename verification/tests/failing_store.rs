use merk::batch::{TreeBatchEntry, TreeOp};
use merk::store::memorydb::MemoryDb;
use merk::store::{Database, DbBatch};
use merk::{Error, Merk};

/// A store that refuses every write after the first `writes_left`.
struct Flaky {
    inner: MemoryDb,
    writes_left: usize,
}

impl Flaky {
    fn spend(&mut self) -> Result<(), Error> {
        if self.writes_left == 0 {
            return Err(Error::StoreError);
        }
        self.writes_left -= 1;
        Ok(())
    }
}

impl Database for Flaky {
    fn put(&mut self, key: &[u8], value: Vec<u8>) -> Result<(), Error> {
        self.spend()?;
        self.inner.put(key, value)
    }

    fn delete(&mut self, key: &[u8]) -> Result<(), Error> {
        self.spend()?;
        self.inner.delete(key)
    }

    fn get(&self, key: &[u8]) -> Option<Vec<u8>> {
        self.inner.get(key)
    }

    fn write_batch(&mut self, batch: DbBatch) -> Result<(), Error> {
        self.spend()?;
        self.inner.write_batch(batch)
    }

    fn iter(&self, start: &[u8], end: &[u8]) -> Vec<(Vec<u8>, Vec<u8>)> {
        self.inner.iter(start, end)
    }
}

#[test]
fn a_refused_write_list_changes_nothing_in_the_store() {
    let mut merk = Merk::new(Flaky { inner: MemoryDb::new(), writes_left: 0 }).unwrap();
    let mut batch: Vec<TreeBatchEntry> = vec![(b"k", TreeOp::Put(b"v".to_vec()))];
    assert_eq!(merk.apply(&mut batch), Err(Error::StoreError));
    assert_eq!(merk.db.inner.len(), 0);
    assert_eq!(merk.get(b"k"), Err(Error::KeyNotFound));
}

#[test]
fn a_refused_root_pointer_is_a_store_error() {
    // the list of records goes through, the root pointer does not
    let mut merk = Merk::new(Flaky { inner: MemoryDb::new(), writes_left: 1 }).unwrap();
    let mut batch: Vec<TreeBatchEntry> = vec![(b"k", TreeOp::Put(b"v".to_vec()))];
    assert_eq!(merk.apply(&mut batch), Err(Error::StoreError));
}

#[test]
fn a_store_that_takes_every_write_works_as_the_memory_store() {
    let mut merk = Merk::new(Flaky { inner: MemoryDb::new(), writes_left: 100 }).unwrap();
    let mut batch: Vec<TreeBatchEntry> = vec![
        (b"b", TreeOp::Put(b"2".to_vec())),
        (b"a", TreeOp::Put(b"1".to_vec())),
    ];
    merk.apply(&mut batch).unwrap();
    let mut second: Vec<TreeBatchEntry> = vec![(b"a", TreeOp::Delete)];
    merk.apply(&mut second).unwrap();
    assert_eq!(merk.get(b"a"), Err(Error::KeyNotFound));
    assert_eq!(merk.get(b"b").unwrap(), b"2");
    // the record of "b", and the root pointer
    assert_eq!(merk.db.inner.len(), 2);
    // one write list and one root pointer for each batch, and one removal
    // for the key that the second batch destroyed
    assert_eq!(merk.db.writes_left, 100 - 2 - 3);
}
