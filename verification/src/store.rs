//! The key-indexed byte store that the tree is kept in.

use crate::bytes::{lex_le, lex_lt};
use crate::error::Error;
use vstd::prelude::*;

verus! {

pub mod memorydb;

/// A list of entries to write: key and value.
pub type DbBatch = Vec<(Vec<u8>, Vec<u8>)>;

/// The entries of a written list, later ones over earlier ones, laid over
/// the map `m`.
pub open spec fn write_all(m: Map<Seq<u8>, Seq<u8>>, batch: Seq<(Vec<u8>, Vec<u8>)>) -> Map<
    Seq<u8>,
    Seq<u8>,
>
    decreases batch.len(),
{
    if batch.len() == 0 {
        m
    } else {
        write_all(m, batch.drop_last()).insert(batch.last().0@, batch.last().1@)
    }
}

/// The keys of the listed entries ascend strictly.
pub open spec fn ascending(entries: Seq<(Vec<u8>, Vec<u8>)>) -> bool {
    forall|i: int, j: int|
        0 <= i < j < entries.len() ==> lex_lt(#[trigger] entries[i].0@, #[trigger] entries[j].0@)
}

/// `k` lies in the inclusive range from `start` to `end`.
pub open spec fn in_range(start: Seq<u8>, k: Seq<u8>, end: Seq<u8>) -> bool {
    lex_le(start, k) && lex_le(k, end)
}

/// `entries` lists, by ascending key, exactly what `m` holds in the
/// inclusive range from `start` to `end`.
pub open spec fn lists_range(
    entries: Seq<(Vec<u8>, Vec<u8>)>,
    m: Map<Seq<u8>, Seq<u8>>,
    start: Seq<u8>,
    end: Seq<u8>,
) -> bool {
    &&& ascending(entries)
    &&& forall|i: int|
        0 <= i < entries.len() ==> {
            &&& in_range(start, #[trigger] entries[i].0@, end)
            &&& m.contains_key(entries[i].0@)
            &&& m[entries[i].0@] == entries[i].1@
        }
    &&& forall|k: Seq<u8>|
        m.contains_key(k) && in_range(start, k, end) ==> exists|i: int|
            0 <= i < entries.len() && #[trigger] entries[i].0@ == k
}

/// A store of byte values under byte keys. A store is read as the map that
/// `contents` gives; each method says what it does to that map. A write that
/// fails leaves the map as it was.
///
/// What is proved of a handle over a store rests on these contracts. A
/// store of this library is verified against them. A store written outside
/// it, such as one on disk, is taken to meet them: it gives the two
/// specification functions no meaning of its own, and nothing checks its
/// methods.
pub trait Database: Send + Sync {
    /// What the store holds. The body given here stands for stores that
    /// cannot say what they hold; code over any store knows nothing of it.
    open spec fn contents(&self) -> Map<Seq<u8>, Seq<u8>> {
        Map::empty()
    }

    /// What the store needs to hold of itself for its methods to work.
    open spec fn inv(&self) -> bool {
        true
    }

    /// The store refuses no write. A store in memory can say so of itself;
    /// one that writes to a disk cannot.
    open spec fn never_fails(&self) -> bool {
        false
    }

    /// Writes `value` under `key`, over what was there.
    fn put(&mut self, key: &[u8], value: Vec<u8>) -> (r: Result<(), Error>)
        requires
            old(self).inv(),
        ensures
            final(self).inv(),
            final(self).never_fails() == old(self).never_fails(),
            old(self).never_fails() ==> r is Ok,
            match r {
                Ok(_) => final(self).contents() == old(self).contents().insert(key@, value@),
                Err(e) => e == Error::StoreError && final(self).contents() == old(
                    self,
                ).contents(),
            },
    ;

    /// Removes `key`; it need not be there.
    fn delete(&mut self, key: &[u8]) -> (r: Result<(), Error>)
        requires
            old(self).inv(),
        ensures
            final(self).inv(),
            final(self).never_fails() == old(self).never_fails(),
            old(self).never_fails() ==> r is Ok,
            match r {
                Ok(_) => final(self).contents() == old(self).contents().remove(key@),
                Err(e) => e == Error::StoreError && final(self).contents() == old(
                    self,
                ).contents(),
            },
    ;

    /// The bytes stored under `key`, if any.
    fn get(&self, key: &[u8]) -> (r: Option<Vec<u8>>)
        requires
            self.inv(),
        ensures
            match r {
                Some(v) => self.contents().contains_key(key@) && self.contents()[key@] == v@,
                None => !self.contents().contains_key(key@),
            },
    ;

    /// Writes all the entries, or none of them.
    fn write_batch(&mut self, batch: DbBatch) -> (r: Result<(), Error>)
        requires
            old(self).inv(),
        ensures
            final(self).inv(),
            final(self).never_fails() == old(self).never_fails(),
            old(self).never_fails() ==> r is Ok,
            match r {
                Ok(_) => final(self).contents() == write_all(old(self).contents(), batch@),
                Err(e) => e == Error::StoreError && final(self).contents() == old(
                    self,
                ).contents(),
            },
    ;

    /// The entries with keys from `start` to `end`, both included, by
    /// ascending key.
    fn iter(&self, start: &[u8], end: &[u8]) -> (r: Vec<(Vec<u8>, Vec<u8>)>)
        requires
            self.inv(),
        ensures
            lists_range(r@, self.contents(), start@, end@),
    ;
}

} // verus!
