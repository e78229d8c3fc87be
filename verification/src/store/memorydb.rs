//! A store in memory, ordered by key.

use crate::bytes::{
    compare_keys, copy_bytes, lemma_lex_asymmetric, lemma_lex_transitive, lex_le, lex_lt, KeyOrder,
};
use crate::error::Error;
use crate::store::{ascending, in_range, write_all, Database, DbBatch};
use vstd::prelude::*;

verus! {

/// A store in memory. Its entries stand in a vector, by strictly ascending
/// key.
pub struct MemoryDb {
    entries: Vec<(Vec<u8>, Vec<u8>)>,
}

/// Some entry has the key `k`.
pub open spec fn has_key(entries: Seq<(Vec<u8>, Vec<u8>)>, k: Seq<u8>) -> bool {
    exists|i: int| 0 <= i < entries.len() && #[trigger] entries[i].0@ == k
}

/// An index at which the key `k` stands.
pub open spec fn index_of(entries: Seq<(Vec<u8>, Vec<u8>)>, k: Seq<u8>) -> int {
    choose|i: int| 0 <= i < entries.len() && #[trigger] entries[i].0@ == k
}

/// The map that a list of entries stands for.
pub open spec fn entries_map(entries: Seq<(Vec<u8>, Vec<u8>)>) -> Map<Seq<u8>, Seq<u8>> {
    Map::new(|k: Seq<u8>| has_key(entries, k), |k: Seq<u8>| entries[index_of(entries, k)].1@)
}

proof fn lemma_unique_index(entries: Seq<(Vec<u8>, Vec<u8>)>, i: int)
    requires
        ascending(entries),
        0 <= i < entries.len(),
    ensures
        has_key(entries, entries[i].0@),
        index_of(entries, entries[i].0@) == i,
        entries_map(entries).contains_key(entries[i].0@),
        entries_map(entries)[entries[i].0@] == entries[i].1@,
{
    let k = entries[i].0@;
    let j = index_of(entries, k);
    if j < i {
        lemma_lex_asymmetric(entries[j].0@, entries[i].0@);
    } else if i < j {
        lemma_lex_asymmetric(entries[i].0@, entries[j].0@);
    }
}

impl MemoryDb {
    /// An empty store.
    pub fn new() -> (db: Self)
        ensures
            db.inv(),
            db.contents() == Map::<Seq<u8>, Seq<u8>>::empty(),
    {
        let db = MemoryDb { entries: Vec::new() };
        assert(db.contents() =~= Map::<Seq<u8>, Seq<u8>>::empty());
        db
    }

    /// How many entries the store holds.
    pub fn len(&self) -> (n: usize)
        requires
            self.inv(),
        ensures
            n == self.contents().dom().len(),
            self.contents().dom().finite(),
    {
        proof {
            lemma_entries_len(self.entries@);
        }
        self.entries.len()
    }

    /// The first index whose key is not before `key`, and whether `key`
    /// stands there.
    fn position(&self, key: &[u8]) -> (r: (usize, bool))
        requires
            ascending(self.entries@),
        ensures
            r.0 <= self.entries@.len(),
            forall|j: int| 0 <= j < r.0 ==> lex_lt(#[trigger] self.entries@[j].0@, key@),
            forall|j: int|
                r.0 <= j < self.entries@.len() ==> lex_le(key@, #[trigger] self.entries@[j].0@),
            r.1 <==> (r.0 < self.entries@.len() && self.entries@[r.0 as int].0@ == key@),
            r.1 <==> has_key(self.entries@, key@),
    {
        let mut lo: usize = 0;
        let mut hi: usize = self.entries.len();
        let mut found = false;
        while lo < hi
            invariant
                ascending(self.entries@),
                lo <= hi <= self.entries@.len(),
                forall|j: int| 0 <= j < lo ==> lex_lt(#[trigger] self.entries@[j].0@, key@),
                forall|j: int|
                    hi <= j < self.entries@.len() ==> lex_le(
                        key@,
                        #[trigger] self.entries@[j].0@,
                    ),
                found ==> lo == hi && lo < self.entries@.len() && self.entries@[lo as int].0@
                    == key@,
                !found ==> forall|j: int|
                    hi <= j < self.entries@.len() ==> lex_lt(
                        key@,
                        #[trigger] self.entries@[j].0@,
                    ),
            decreases hi - lo,
        {
            let mid = lo + (hi - lo) / 2;
            let ghost mk = self.entries@[mid as int].0@;
            match compare_keys(self.entries[mid].0.as_slice(), key) {
                KeyOrder::Before => {
                    assert forall|j: int| 0 <= j < mid + 1 implies lex_lt(
                        #[trigger] self.entries@[j].0@,
                        key@,
                    ) by {
                        if j < mid {
                            lemma_lex_transitive(self.entries@[j].0@, mk, key@);
                        }
                    }
                    lo = mid + 1;
                },
                KeyOrder::After => {
                    assert forall|j: int| mid <= j < self.entries@.len() implies lex_lt(
                        key@,
                        #[trigger] self.entries@[j].0@,
                    ) by {
                        if mid < j {
                            lemma_lex_transitive(key@, mk, self.entries@[j].0@);
                        }
                    }
                    hi = mid;
                },
                KeyOrder::Same => {
                    assert forall|j: int| mid <= j < self.entries@.len() implies lex_le(
                        key@,
                        #[trigger] self.entries@[j].0@,
                    ) by {}
                    lo = mid;
                    hi = mid;
                    found = true;
                },
            }
        }
        proof {
            if !found {
                if has_key(self.entries@, key@) {
                    let j = index_of(self.entries@, key@);
                    crate::bytes::lemma_lex_irreflexive(key@);
                }
                if lo < self.entries@.len() && self.entries@[lo as int].0@ == key@ {
                    crate::bytes::lemma_lex_irreflexive(key@);
                }
            }
        }
        (lo, found)
    }
}

proof fn lemma_entries_len(entries: Seq<(Vec<u8>, Vec<u8>)>)
    requires
        ascending(entries),
    ensures
        entries_map(entries).dom().finite(),
        entries_map(entries).dom().len() == entries.len(),
    decreases entries.len(),
{
    if entries.len() == 0 {
        assert(entries_map(entries).dom() =~= Set::<Seq<u8>>::empty());
    } else {
        let front = entries.drop_last();
        let last = entries.last();
        lemma_entries_len(front);
        assert(!has_key(front, last.0@)) by {
            if has_key(front, last.0@) {
                let j = index_of(front, last.0@);
                assert(front[j] == entries[j]);
                lemma_lex_asymmetric(entries[j].0@, entries[entries.len() - 1].0@);
            }
        }
        assert(entries_map(entries).dom() =~= entries_map(front).dom().insert(last.0@)) by {
            assert forall|k: Seq<u8>| has_key(entries, k) <==> (has_key(front, k) || k
                == last.0@) by {
                if has_key(entries, k) {
                    let j = index_of(entries, k);
                    if j < front.len() {
                        assert(front[j].0@ == k);
                    }
                }
                if has_key(front, k) {
                    let j = index_of(front, k);
                    assert(entries[j].0@ == k);
                }
                if k == last.0@ {
                    assert(entries[entries.len() - 1].0@ == k);
                }
            }
        }
    }
}

proof fn lemma_insert_entry(
    before: Seq<(Vec<u8>, Vec<u8>)>,
    after: Seq<(Vec<u8>, Vec<u8>)>,
    p: int,
    entry: (Vec<u8>, Vec<u8>),
)
    requires
        ascending(before),
        0 <= p <= before.len(),
        forall|j: int| 0 <= j < p ==> lex_lt(#[trigger] before[j].0@, entry.0@),
        forall|j: int| p <= j < before.len() ==> lex_lt(entry.0@, #[trigger] before[j].0@),
        after == before.insert(p, entry),
    ensures
        ascending(after),
        entries_map(after) == entries_map(before).insert(entry.0@, entry.1@),
{
    let old_at = |j: int| if j < p { j } else { j - 1 };
    assert forall|i: int, j: int| 0 <= i < j < after.len() implies lex_lt(
        #[trigger] after[i].0@,
        #[trigger] after[j].0@,
    ) by {
        if i != p && j != p {
            assert(after[i] == before[old_at(i)]);
            assert(after[j] == before[old_at(j)]);
        } else if i == p {
            assert(after[j] == before[j - 1]);
        } else {
            assert(after[i] == before[i]);
        }
    }
    assert forall|k: Seq<u8>| has_key(after, k) <==> (has_key(before, k) || k == entry.0@) by {
        if has_key(after, k) {
            let j = index_of(after, k);
            if j != p {
                assert(before[old_at(j)].0@ == k);
            }
        }
        if has_key(before, k) {
            let j = index_of(before, k);
            let j2 = if j < p { j } else { j + 1 };
            assert(after[j2].0@ == k);
        }
        if k == entry.0@ {
            assert(after[p].0@ == k);
        }
    }
    assert forall|k: Seq<u8>| has_key(after, k) implies #[trigger] entries_map(after)[k] == (
    entries_map(before).insert(entry.0@, entry.1@))[k] by {
        let j = index_of(after, k);
        lemma_unique_index(after, j);
        if j != p {
            assert(after[j] == before[old_at(j)]);
            lemma_unique_index(before, old_at(j));
            lemma_lex_asymmetric_either(before[old_at(j)].0@, entry.0@);
        }
    }
    assert(entries_map(after) =~= entries_map(before).insert(entry.0@, entry.1@));
}

proof fn lemma_lex_asymmetric_either(a: Seq<u8>, b: Seq<u8>)
    requires
        lex_lt(a, b) || lex_lt(b, a),
    ensures
        a != b,
{
    if lex_lt(a, b) {
        lemma_lex_asymmetric(a, b);
    } else {
        lemma_lex_asymmetric(b, a);
    }
}

proof fn lemma_update_entry(
    before: Seq<(Vec<u8>, Vec<u8>)>,
    after: Seq<(Vec<u8>, Vec<u8>)>,
    p: int,
    entry: (Vec<u8>, Vec<u8>),
)
    requires
        ascending(before),
        0 <= p < before.len(),
        before[p].0@ == entry.0@,
        after == before.update(p, entry),
    ensures
        ascending(after),
        entries_map(after) == entries_map(before).insert(entry.0@, entry.1@),
{
    assert forall|i: int, j: int| 0 <= i < j < after.len() implies lex_lt(
        #[trigger] after[i].0@,
        #[trigger] after[j].0@,
    ) by {
        assert(after[i].0@ == before[i].0@);
        assert(after[j].0@ == before[j].0@);
    }
    assert forall|k: Seq<u8>| has_key(after, k) <==> (has_key(before, k) || k == entry.0@) by {
        if has_key(after, k) {
            let j = index_of(after, k);
            assert(before[j].0@ == k);
        }
        if has_key(before, k) {
            let j = index_of(before, k);
            assert(after[j].0@ == k);
        }
        if k == entry.0@ {
            assert(after[p].0@ == k);
        }
    }
    assert forall|k: Seq<u8>| has_key(after, k) implies #[trigger] entries_map(after)[k] == (
    entries_map(before).insert(entry.0@, entry.1@))[k] by {
        let j = index_of(after, k);
        lemma_unique_index(after, j);
        if j != p {
            assert(after[j] == before[j]);
            lemma_unique_index(before, j);
            lemma_unique_index(before, p);
        }
    }
    assert(entries_map(after) =~= entries_map(before).insert(entry.0@, entry.1@));
}

proof fn lemma_remove_entry(
    before: Seq<(Vec<u8>, Vec<u8>)>,
    after: Seq<(Vec<u8>, Vec<u8>)>,
    p: int,
)
    requires
        ascending(before),
        0 <= p < before.len(),
        after == before.remove(p),
    ensures
        ascending(after),
        entries_map(after) == entries_map(before).remove(before[p].0@),
{
    let k0 = before[p].0@;
    let old_at = |j: int| if j < p { j } else { j + 1 };
    assert forall|i: int, j: int| 0 <= i < j < after.len() implies lex_lt(
        #[trigger] after[i].0@,
        #[trigger] after[j].0@,
    ) by {
        assert(after[i] == before[old_at(i)]);
        assert(after[j] == before[old_at(j)]);
    }
    assert forall|k: Seq<u8>| has_key(after, k) <==> (has_key(before, k) && k != k0) by {
        if has_key(after, k) {
            let j = index_of(after, k);
            assert(after[j] == before[old_at(j)]);
            assert(before[old_at(j)].0@ == k);
            if old_at(j) < p {
                lemma_lex_asymmetric(before[old_at(j)].0@, before[p].0@);
            } else {
                lemma_lex_asymmetric(before[p].0@, before[old_at(j)].0@);
            }
        }
        if has_key(before, k) && k != k0 {
            let j = index_of(before, k);
            let j2 = if j < p { j } else { j - 1 };
            assert(after[j2] == before[j]);
            assert(after[j2].0@ == k);
        }
    }
    assert forall|k: Seq<u8>| has_key(after, k) implies #[trigger] entries_map(after)[k]
        == entries_map(before)[k] by {
        let j = index_of(after, k);
        lemma_unique_index(after, j);
        assert(after[j] == before[old_at(j)]);
        lemma_unique_index(before, old_at(j));
    }
    assert(entries_map(after) =~= entries_map(before).remove(k0));
}

impl Database for MemoryDb {
    closed spec fn contents(&self) -> Map<Seq<u8>, Seq<u8>> {
        entries_map(self.entries@)
    }

    closed spec fn inv(&self) -> bool {
        ascending(self.entries@)
    }

    open spec fn never_fails(&self) -> bool {
        true
    }

    fn put(&mut self, key: &[u8], value: Vec<u8>) -> (r: Result<(), Error>) {
        let (p, found) = self.position(key);
        let ghost before = self.entries@;
        let entry = (copy_bytes(key), value);
        if found {
            self.entries[p] = entry;
            proof {
                lemma_update_entry(before, self.entries@, p as int, entry);
            }
        } else {
            proof {
                assert forall|j: int| p <= j < before.len() implies lex_lt(
                    key@,
                    #[trigger] before[j].0@,
                ) by {
                    if before[j].0@ == key@ {
                        assert(has_key(before, key@));
                    }
                }
                lemma_insert_entry(before, before.insert(p as int, entry), p as int, entry);
            }
            self.entries.insert(p, entry);
        }
        Ok(())
    }

    fn delete(&mut self, key: &[u8]) -> (r: Result<(), Error>) {
        let (p, found) = self.position(key);
        let ghost before = self.entries@;
        if found {
            proof {
                lemma_remove_entry(before, before.remove(p as int), p as int);
            }
            self.entries.remove(p);
        } else {
            assert(entries_map(before) =~= entries_map(before).remove(key@));
        }
        Ok(())
    }

    fn get(&self, key: &[u8]) -> (r: Option<Vec<u8>>) {
        let (p, found) = self.position(key);
        if found {
            proof {
                lemma_unique_index(self.entries@, p as int);
            }
            Some(copy_bytes(self.entries[p].1.as_slice()))
        } else {
            None
        }
    }

    fn write_batch(&mut self, batch: DbBatch) -> (r: Result<(), Error>) {
        let mut i: usize = 0;
        let ghost start = self.contents();
        while i < batch.len()
            invariant
                i <= batch@.len(),
                self.inv(),
                self.contents() == write_all(start, batch@.subrange(0, i as int)),
            decreases batch@.len() - i,
        {
            let key = copy_bytes(batch[i].0.as_slice());
            let value = copy_bytes(batch[i].1.as_slice());
            let _ = self.put(key.as_slice(), value);
            i += 1;
            proof {
                let cur = batch@.subrange(0, i as int);
                assert(cur.drop_last() =~= batch@.subrange(0, i - 1));
                assert(cur.last() == batch@[i - 1]);
            }
        }
        assert(batch@.subrange(0, i as int) =~= batch@);
        Ok(())
    }

    fn iter(&self, start: &[u8], end: &[u8]) -> (r: Vec<(Vec<u8>, Vec<u8>)>) {
        let mut out: Vec<(Vec<u8>, Vec<u8>)> = Vec::new();
        let (first, _) = self.position(start);
        let mut i: usize = first;
        let ghost e = self.entries@;
        while i < self.entries.len() && compare_keys(self.entries[i].0.as_slice(), end)
            != KeyOrder::After
            invariant
                e == self.entries@,
                ascending(e),
                first <= i <= e.len(),
                forall|j: int| 0 <= j < first ==> lex_lt(#[trigger] e[j].0@, start@),
                forall|j: int| first <= j < e.len() ==> lex_le(start@, #[trigger] e[j].0@),
                out@.len() == i - first,
                forall|j: int|
                    0 <= j < out@.len() ==> (#[trigger] out@[j]).0@ == e[first + j].0@ && out@[j].1@
                        == e[first + j].1@,
                forall|j: int| first <= j < i ==> lex_le(#[trigger] e[j].0@, end@),
            decreases e.len() - i,
        {
            out.push(
                (
                    copy_bytes(self.entries[i].0.as_slice()),
                    copy_bytes(self.entries[i].1.as_slice()),
                ),
            );
            i += 1;
        }
        proof {
            assert forall|a: int, b: int| 0 <= a < b < out@.len() implies lex_lt(
                #[trigger] out@[a].0@,
                #[trigger] out@[b].0@,
            ) by {
                assert(out@[a].0@ == e[first + a].0@);
                assert(out@[b].0@ == e[first + b].0@);
            }
            assert forall|j: int| 0 <= j < out@.len() implies {
                &&& in_range(start@, #[trigger] out@[j].0@, end@)
                &&& self.contents().contains_key(out@[j].0@)
                &&& self.contents()[out@[j].0@] == out@[j].1@
            } by {
                assert(out@[j].0@ == e[first + j].0@);
                lemma_unique_index(e, first + j);
            }
            assert forall|k: Seq<u8>|
                self.contents().contains_key(k) && in_range(start@, k, end@) implies exists|
                j: int,
            |
                0 <= j < out@.len() && #[trigger] out@[j].0@ == k by {
                let p = index_of(e, k);
                if p < first {
                    lemma_lex_asymmetric(e[p].0@, start@);
                }
                if p >= i {
                    // the scan stopped at an entry behind `end`
                    lemma_lex_asymmetric(end@, e[i as int].0@);
                    if p > i {
                        lemma_lex_transitive(end@, e[i as int].0@, e[p].0@);
                        lemma_lex_asymmetric(end@, e[p].0@);
                    }
                }
                assert(out@[p - first].0@ == k);
            }
        }
        out
    }
}

} // verus!
