//! Bringing a batch into the order of its keys.

use crate::batch::{batch_view, EntryView, TreeBatchEntry};
use crate::bytes::{compare_keys, lex_lt, KeyOrder};
use std::cmp::Ordering;
use vstd::prelude::*;

verus! {

/// No entry of the batch stands behind one whose key sorts after its own.
pub open spec fn weakly_sorted(b: Seq<EntryView>) -> bool {
    forall|i: int, j: int| 0 <= i < j < b.len() ==> !lex_lt(#[trigger] b[j].0, #[trigger] b[i].0)
}

/// How two entries compare by their keys.
pub fn entry_order(a: &TreeBatchEntry, b: &TreeBatchEntry) -> (o: Ordering)
    ensures
        o == Ordering::Less <==> lex_lt(a.0@, b.0@),
        o == Ordering::Equal <==> a.0@ == b.0@,
        o == Ordering::Greater <==> lex_lt(b.0@, a.0@),
{
    match compare_keys(a.0, b.0) {
        KeyOrder::Before => Ordering::Less,
        KeyOrder::Same => Ordering::Equal,
        KeyOrder::After => Ordering::Greater,
    }
}

/// Calls `slice::sort_by` of the standard library with `entry_order`, which
/// is a total order on the keys. As the documentation of `sort_by` says,
/// the entries are then in that order, and they are the entries of before,
/// each as often as before.
#[verifier::external_body]
pub(crate) fn sort_by_key(batch: &mut Vec<TreeBatchEntry>)
    ensures
        weakly_sorted(batch_view(final(batch)@)),
        final(batch)@.to_multiset() == old(batch)@.to_multiset(),
{
    batch.sort_by(|a, b| entry_order(a, b));
}

} // verus!
