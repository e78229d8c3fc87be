//! Batches of operations on the tree, and what a batch does to the pairs
//! that the tree holds.

use crate::bytes::{
    between, lemma_lex_asymmetric, lemma_lex_irreflexive, lemma_lex_total, lemma_lex_transitive,
    lex_lt,
};
use vstd::prelude::*;

verus! {

/// One operation on a key.
#[derive(Debug, PartialEq, Eq)]
pub enum TreeOp {
    /// Stores the value under the key, over what was there.
    Put(Vec<u8>),
    /// Removes the key; it need not be there.
    Delete,
}

/// A key and the operation on it.
pub type TreeBatchEntry<'a> = (&'a [u8], TreeOp);

/// An operation as a mathematical value: the value to put, or none for a
/// deletion.
pub type OpView = Option<Seq<u8>>;

/// A batch entry as a mathematical value.
pub type EntryView = (Seq<u8>, Option<Seq<u8>>);

/// The view of an operation.
pub open spec fn op_view(op: TreeOp) -> OpView {
    match op {
        TreeOp::Put(v) => Some(v@),
        TreeOp::Delete => None,
    }
}

/// The view of a batch entry.
pub open spec fn entry_view(e: TreeBatchEntry) -> EntryView {
    (e.0@, op_view(e.1))
}

/// The view of a batch.
pub open spec fn batch_view(b: Seq<TreeBatchEntry>) -> Seq<EntryView> {
    Seq::new(b.len(), |i: int| entry_view(b[i]))
}

/// The keys of the batch ascend strictly.
pub open spec fn sorted(b: Seq<EntryView>) -> bool {
    forall|i: int, j: int| 0 <= i < j < b.len() ==> lex_lt(#[trigger] b[i].0, #[trigger] b[j].0)
}

/// No key of the batch holds more than 255 bytes.
pub open spec fn keys_sized(b: Seq<EntryView>) -> bool {
    forall|i: int| 0 <= i < b.len() ==> (#[trigger] b[i]).0.len() <= 255
}

/// No value of the batch holds more than 65 535 bytes.
pub open spec fn values_sized(b: Seq<EntryView>) -> bool {
    forall|i: int|
        0 <= i < b.len() ==> ((#[trigger] b[i]).1 matches Some(v) ==> v.len() <= 65535)
}

/// Keys and values of the batch are short enough.
pub open spec fn sized(b: Seq<EntryView>) -> bool {
    keys_sized(b) && values_sized(b)
}

/// Every key of the batch lies strictly between the bounds.
pub open spec fn within(b: Seq<EntryView>, lo: Option<Seq<u8>>, hi: Option<Seq<u8>>) -> bool {
    forall|i: int| 0 <= i < b.len() ==> between(lo, (#[trigger] b[i]).0, hi)
}

/// The batch has an entry for the key `k`.
pub open spec fn touches(b: Seq<EntryView>, k: Seq<u8>) -> bool {
    exists|i: int| 0 <= i < b.len() && (#[trigger] b[i]).0 == k
}

/// An index at which the batch has the key `k`.
pub open spec fn entry_index(b: Seq<EntryView>, k: Seq<u8>) -> int {
    choose|i: int| 0 <= i < b.len() && (#[trigger] b[i]).0 == k
}

/// The operation that the batch has for the key `k`.
pub open spec fn op_for(b: Seq<EntryView>, k: Seq<u8>) -> OpView {
    b[entry_index(b, k)].1
}

/// The pairs after the batch: a key that the batch puts has the value put;
/// a key that the batch deletes is gone; every other key is as before.
pub open spec fn apply_batch(m: Map<Seq<u8>, Seq<u8>>, b: Seq<EntryView>) -> Map<
    Seq<u8>,
    Seq<u8>,
> {
    Map::new(
        |k: Seq<u8>|
            if touches(b, k) {
                op_for(b, k) is Some
            } else {
                m.contains_key(k)
            },
        |k: Seq<u8>|
            if touches(b, k) {
                op_for(b, k).unwrap()
            } else {
                m[k]
            },
    )
}

/// The number of entries of a sorted batch whose keys sort before `k`.
pub open spec fn lower(b: Seq<EntryView>, k: Seq<u8>) -> int
    decreases b.len(),
{
    if b.len() == 0 {
        0
    } else if lex_lt(b.last().0, k) {
        b.len() as int
    } else {
        lower(b.drop_last(), k)
    }
}

/// The sorted batch has an entry for the key `k`.
pub open spec fn hits(b: Seq<EntryView>, k: Seq<u8>) -> bool {
    0 <= lower(b, k) < b.len() && b[lower(b, k)].0 == k
}

/// The entries of a sorted batch whose keys sort before `k`.
pub open spec fn before(b: Seq<EntryView>, k: Seq<u8>) -> Seq<EntryView> {
    b.subrange(0, lower(b, k))
}

/// Where the entries of a sorted batch begin whose keys sort behind `k`.
pub open spec fn behind_from(b: Seq<EntryView>, k: Seq<u8>) -> int {
    if hits(b, k) {
        lower(b, k) + 1
    } else {
        lower(b, k)
    }
}

/// The entries of a sorted batch whose keys sort behind `k`.
pub open spec fn behind(b: Seq<EntryView>, k: Seq<u8>) -> Seq<EntryView> {
    b.subrange(behind_from(b, k), b.len() as int)
}

/// The entries of the batch that put a value, in the order of the batch.
pub open spec fn puts(b: Seq<EntryView>) -> Seq<EntryView>
    decreases b.len(),
{
    if b.len() == 0 {
        Seq::empty()
    } else if b.last().1 is Some {
        puts(b.drop_last()).push(b.last())
    } else {
        puts(b.drop_last())
    }
}

/// Every entry of the batch puts a value.
pub open spec fn all_puts(b: Seq<EntryView>) -> bool {
    forall|i: int| 0 <= i < b.len() ==> (#[trigger] b[i]).1 is Some
}

/// The number of binary digits of `n`: the height of the balanced tree of
/// `n` nodes.
pub open spec fn bits(n: nat) -> nat
    decreases n,
{
    if n == 0 {
        0
    } else {
        1 + bits(n / 2)
    }
}

/// A greater number has no fewer binary digits.
pub proof fn lemma_bits_monotonic(a: nat, b: nat)
    requires
        a <= b,
    ensures
        bits(a) <= bits(b),
    decreases b,
{
    if a > 0 {
        lemma_bits_monotonic(a / 2, b / 2);
    }
}

/// A number has at most one binary digit more than the number before it.
pub proof fn lemma_bits_step(n: nat)
    requires
        n >= 1,
    ensures
        bits(n) <= bits((n - 1) as nat) + 1,
    decreases n,
{
    if n >= 2 {
        lemma_bits_step(n / 2);
        lemma_bits_monotonic((n / 2 - 1) as nat, ((n - 1) / 2) as nat);
    }
}

proof fn lemma_bits_below(n: nat, k: nat)
    requires
        n < vstd::arithmetic::power2::pow2(k),
    ensures
        bits(n) <= k,
    decreases k,
{
    vstd::arithmetic::power2::lemma2_to64();
    if n > 0 {
        if k == 0 {
        } else {
            vstd::arithmetic::power2::lemma_pow2_unfold(k);
            lemma_bits_below(n / 2, (k - 1) as nat);
        }
    }
}

/// A number that fits 64 bits has at most 64 binary digits.
pub proof fn lemma_bits_64(n: nat)
    requires
        n <= u64::MAX,
    ensures
        bits(n) <= 64,
{
    vstd::arithmetic::power2::lemma2_to64_rest();
    lemma_bits_below(n, 64);
}

/// In a sorted batch each key stands once.
pub proof fn lemma_touch(b: Seq<EntryView>, j: int)
    requires
        sorted(b),
        0 <= j < b.len(),
    ensures
        touches(b, b[j].0),
        entry_index(b, b[j].0) == j,
        op_for(b, b[j].0) == b[j].1,
{
    let i = entry_index(b, b[j].0);
    if i < j {
        lemma_lex_asymmetric(b[i].0, b[j].0);
    } else if j < i {
        lemma_lex_asymmetric(b[j].0, b[i].0);
    }
}

/// Where `lower` cuts a sorted batch: the keys before the cut sort before
/// `k`, those from the cut on do not.
pub proof fn lemma_lower(b: Seq<EntryView>, k: Seq<u8>)
    requires
        sorted(b),
    ensures
        0 <= lower(b, k) <= b.len(),
        forall|j: int| 0 <= j < lower(b, k) ==> lex_lt((#[trigger] b[j]).0, k),
        forall|j: int| lower(b, k) <= j < b.len() ==> !lex_lt((#[trigger] b[j]).0, k),
    decreases b.len(),
{
    if b.len() > 0 {
        let front = b.drop_last();
        assert(sorted(front)) by {
            assert forall|i: int, j: int| 0 <= i < j < front.len() implies lex_lt(
                #[trigger] front[i].0,
                #[trigger] front[j].0,
            ) by {
                assert(front[i] == b[i] && front[j] == b[j]);
            }
        }
        if lex_lt(b.last().0, k) {
            assert forall|j: int| 0 <= j < b.len() implies lex_lt((#[trigger] b[j]).0, k) by {
                if j < b.len() - 1 {
                    lemma_lex_transitive(b[j].0, b[b.len() - 1].0, k);
                }
            }
        } else {
            lemma_lower(front, k);
            assert forall|j: int| 0 <= j < lower(b, k) implies lex_lt((#[trigger] b[j]).0, k) by {
                assert(front[j] == b[j]);
            }
            assert forall|j: int| lower(b, k) <= j < b.len() implies !lex_lt(
                (#[trigger] b[j]).0,
                k,
            ) by {
                if j < b.len() - 1 {
                    assert(front[j] == b[j]);
                }
            }
        }
    }
}

/// The cut of a sorted batch at `k` is the one index with the keys before
/// it sorting before `k` and the keys from it on not.
pub proof fn lemma_lower_unique(b: Seq<EntryView>, k: Seq<u8>, i: int)
    requires
        sorted(b),
        0 <= i <= b.len(),
        forall|j: int| 0 <= j < i ==> lex_lt((#[trigger] b[j]).0, k),
        forall|j: int| i <= j < b.len() ==> !lex_lt((#[trigger] b[j]).0, k),
    ensures
        lower(b, k) == i,
{
    lemma_lower(b, k);
    let l = lower(b, k);
    if l < i {
        assert(lex_lt(b[l].0, k));
    } else if i < l {
        assert(lex_lt(b[i].0, k));
    }
}

/// The two parts into which the key `k` cuts a sorted batch, the entry for
/// `k` itself left out: each is a sorted batch on its side of `k`, and the
/// batch has for a key on either side what the part on that side has.
pub proof fn lemma_split(
    b: Seq<EntryView>,
    k: Seq<u8>,
    lo: Option<Seq<u8>>,
    hi: Option<Seq<u8>>,
)
    requires
        sorted(b),
    ensures
        0 <= lower(b, k) <= behind_from(b, k) <= b.len(),
        sorted(before(b, k)),
        sorted(behind(b, k)),
        sized(b) ==> sized(before(b, k)) && sized(behind(b, k)),
        within(b, lo, hi) ==> within(before(b, k), lo, Some(k)) && within(
            behind(b, k),
            Some(k),
            hi,
        ),
        touches(b, k) == hits(b, k),
        hits(b, k) ==> op_for(b, k) == b[lower(b, k)].1,
        forall|x: Seq<u8>| #[trigger] touches(before(b, k), x) ==> lex_lt(x, k),
        forall|x: Seq<u8>| #[trigger] touches(behind(b, k), x) ==> lex_lt(k, x),
        forall|x: Seq<u8>|
            #![trigger touches(b, x)]
            lex_lt(x, k) ==> (touches(b, x) == touches(before(b, k), x)) && (touches(b, x)
                ==> op_for(b, x) == op_for(before(b, k), x)),
        forall|x: Seq<u8>|
            #![trigger touches(b, x)]
            lex_lt(k, x) ==> (touches(b, x) == touches(behind(b, k), x)) && (touches(b, x)
                ==> op_for(b, x) == op_for(behind(b, k), x)),
        forall|j: int| 0 <= j < before(b, k).len() ==> #[trigger] before(b, k)[j] == b[j],
        forall|j: int|
            0 <= j < behind(b, k).len() ==> #[trigger] behind(b, k)[j] == b[behind_from(b, k)
                + j],
{
    lemma_lower(b, k);
    let i = lower(b, k);
    let hit = hits(b, k);
    let from = behind_from(b, k);
    let bl = before(b, k);
    let br = behind(b, k);
    lemma_lex_irreflexive(k);
    assert forall|j: int| from <= j < b.len() implies lex_lt(k, (#[trigger] b[j]).0) by {
        lemma_lex_total(b[j].0, k);
        if b[j].0 == k {
            lemma_touch(b, j);
            if hit {
                lemma_touch(b, i);
            }
        }
    }
    assert(sorted(bl)) by {
        assert forall|a: int, c: int| 0 <= a < c < bl.len() implies lex_lt(
            #[trigger] bl[a].0,
            #[trigger] bl[c].0,
        ) by {
            assert(bl[a] == b[a] && bl[c] == b[c]);
        }
    }
    assert(sorted(br)) by {
        assert forall|a: int, c: int| 0 <= a < c < br.len() implies lex_lt(
            #[trigger] br[a].0,
            #[trigger] br[c].0,
        ) by {
            assert(br[a] == b[from + a] && br[c] == b[from + c]);
        }
    }
    if sized(b) {
        assert forall|a: int| 0 <= a < bl.len() implies (#[trigger] bl[a]).0.len() <= 255 && (
        bl[a].1 matches Some(v) ==> v.len() <= 65535) by {
            assert(bl[a] == b[a]);
        }
        assert forall|a: int| 0 <= a < br.len() implies (#[trigger] br[a]).0.len() <= 255 && (
        br[a].1 matches Some(v) ==> v.len() <= 65535) by {
            assert(br[a] == b[from + a]);
        }
    }
    if within(b, lo, hi) {
        assert forall|a: int| 0 <= a < bl.len() implies between(
            lo,
            (#[trigger] bl[a]).0,
            Some(k),
        ) by {
            assert(bl[a] == b[a]);
        }
        assert forall|a: int| 0 <= a < br.len() implies between(
            Some(k),
            (#[trigger] br[a]).0,
            hi,
        ) by {
            assert(br[a] == b[from + a]);
        }
    }
    if hit {
        lemma_touch(b, i);
    } else if touches(b, k) {
        let j = entry_index(b, k);
        if j >= from {
            assert(lex_lt(k, b[j].0));
        } else {
            assert(lex_lt(b[j].0, k));
        }
    }
    assert forall|x: Seq<u8>| #[trigger] touches(bl, x) implies lex_lt(x, k) by {
        let j = entry_index(bl, x);
        assert(bl[j] == b[j]);
    }
    assert forall|x: Seq<u8>| #[trigger] touches(br, x) implies lex_lt(k, x) by {
        let j = entry_index(br, x);
        assert(br[j] == b[from + j]);
    }
    assert forall|x: Seq<u8>|
        #![trigger touches(b, x)]
        lex_lt(x, k) implies (touches(b, x) == touches(bl, x))
        && (touches(b, x) ==> op_for(b, x) == op_for(bl, x)) by {
        lemma_lex_asymmetric(x, k);
        if touches(b, x) {
            let j = entry_index(b, x);
            if j >= i {
                if j >= from {
                    assert(lex_lt(k, b[j].0));
                }
            }
            assert(bl[j] == b[j]);
            lemma_touch(bl, j);
            lemma_touch(b, j);
        }
        if touches(bl, x) {
            let j = entry_index(bl, x);
            assert(bl[j] == b[j]);
        }
    }
    assert forall|x: Seq<u8>|
        #![trigger touches(b, x)]
        lex_lt(k, x) implies (touches(b, x) == touches(br, x))
        && (touches(b, x) ==> op_for(b, x) == op_for(br, x)) by {
        lemma_lex_asymmetric(k, x);
        if touches(b, x) {
            let j = entry_index(b, x);
            if j < from {
                if j < i {
                    assert(lex_lt(b[j].0, k));
                }
            }
            assert(br[j - from] == b[j]);
            lemma_touch(br, j - from);
            lemma_touch(b, j);
        }
        if touches(br, x) {
            let j = entry_index(br, x);
            assert(br[j] == b[from + j]);
        }
    }
}

/// Applying a batch to a node's pairs is applying the part of the batch on
/// either side of the node's key to the pairs on that side, and the entry
/// for the key to the node's own pair. Here `m` holds `ml` before `k`, `mr`
/// behind it and, where the batch has no entry for `k`, `v` under `k`.
pub proof fn lemma_merge(
    m: Map<Seq<u8>, Seq<u8>>,
    ml: Map<Seq<u8>, Seq<u8>>,
    mr: Map<Seq<u8>, Seq<u8>>,
    k: Seq<u8>,
    v: Seq<u8>,
    b: Seq<EntryView>,
    bl: Seq<EntryView>,
    br: Seq<EntryView>,
    own: Option<OpView>,
)
    requires
        forall|x: Seq<u8>| #[trigger] ml.contains_key(x) ==> lex_lt(x, k),
        forall|x: Seq<u8>| #[trigger] mr.contains_key(x) ==> lex_lt(k, x),
        forall|x: Seq<u8>|
            #![trigger m.contains_key(x)]
            lex_lt(x, k) ==> (m.contains_key(x) == ml.contains_key(x)) && (
            m.contains_key(x) ==> m[x] == ml[x]),
        forall|x: Seq<u8>|
            #![trigger m.contains_key(x)]
            lex_lt(k, x) ==> (m.contains_key(x) == mr.contains_key(x)) && (
            m.contains_key(x) ==> m[x] == mr[x]),
        own is None ==> m.contains_key(k) && m[k] == v,
        touches(b, k) == (own is Some),
        own is Some ==> op_for(b, k) == own.unwrap(),
        forall|x: Seq<u8>| #[trigger] touches(bl, x) ==> lex_lt(x, k),
        forall|x: Seq<u8>| #[trigger] touches(br, x) ==> lex_lt(k, x),
        forall|x: Seq<u8>|
            #![trigger touches(b, x)]
            lex_lt(x, k) ==> (touches(b, x) == touches(bl, x)) && (touches(b, x)
                ==> op_for(b, x) == op_for(bl, x)),
        forall|x: Seq<u8>|
            #![trigger touches(b, x)]
            lex_lt(k, x) ==> (touches(b, x) == touches(br, x)) && (touches(b, x)
                ==> op_for(b, x) == op_for(br, x)),
    ensures
        ({
            let sides = apply_batch(ml, bl).union_prefer_right(apply_batch(mr, br));
            apply_batch(m, b) == match own {
                None => sides.insert(k, v),
                Some(Some(v2)) => sides.insert(k, v2),
                Some(None) => sides,
            }
        }),
        !apply_batch(ml, bl).contains_key(k),
        !apply_batch(mr, br).contains_key(k),
{
    let sides = apply_batch(ml, bl).union_prefer_right(apply_batch(mr, br));
    let after = match own {
        None => sides.insert(k, v),
        Some(Some(v2)) => sides.insert(k, v2),
        Some(None) => sides,
    };
    lemma_lex_irreflexive(k);
    assert(!touches(bl, k));
    assert(!touches(br, k));
    assert(!ml.contains_key(k));
    assert(!mr.contains_key(k));
    assert forall|x: Seq<u8>|
        #![trigger apply_batch(m, b).contains_key(x)]
        #![trigger after.contains_key(x)]
        apply_batch(m, b).contains_key(x) == after.contains_key(x) && (apply_batch(
            m,
            b,
        ).contains_key(x) ==> apply_batch(m, b)[x] == after[x]) by {
        lemma_lex_total(x, k);
        if lex_lt(x, k) {
            lemma_lex_asymmetric(x, k);
            assert(touches(b, x) == touches(bl, x));
            assert(m.contains_key(x) == ml.contains_key(x));
            assert(!touches(br, x));
            assert(!mr.contains_key(x));
        } else if lex_lt(k, x) {
            lemma_lex_asymmetric(k, x);
            assert(touches(b, x) == touches(br, x));
            assert(m.contains_key(x) == mr.contains_key(x));
            assert(!touches(bl, x));
            assert(!ml.contains_key(x));
        } else {
        }
    }
    assert(apply_batch(m, b) =~= after);
}

/// The entries that put a value: they are those of the batch whose
/// operation is a put, in the same order.
pub proof fn lemma_puts(b: Seq<EntryView>, lo: Option<Seq<u8>>, hi: Option<Seq<u8>>)
    requires
        sorted(b),
        sized(b),
        within(b, lo, hi),
    ensures
        puts(b).len() <= b.len(),
        sorted(puts(b)),
        sized(puts(b)),
        within(puts(b), lo, hi),
        all_puts(puts(b)),
        forall|j: int| 0 <= j < puts(b).len() ==> touches(b, (#[trigger] puts(b)[j]).0),
        forall|x: Seq<u8>|
            #![trigger touches(puts(b), x)]
            #![trigger touches(b, x)]
            touches(puts(b), x) <==> touches(b, x) && op_for(b, x) is Some,
        forall|x: Seq<u8>| #[trigger] touches(puts(b), x) ==> op_for(puts(b), x) == op_for(b, x),
        apply_batch(Map::empty(), puts(b)) == apply_batch(Map::empty(), b),
    decreases b.len(),
{
    if b.len() == 0 {
        assert(apply_batch(Map::empty(), puts(b)) =~= apply_batch(Map::empty(), b));
    } else {
        let front = b.drop_last();
        let last = b.last();
        let n = b.len() - 1;
        assert(sorted(front) && sized(front) && within(front, lo, hi)) by {
            assert forall|i: int| 0 <= i < front.len() implies front[i] == b[i] by {}
            assert forall|i: int, j: int| 0 <= i < j < front.len() implies lex_lt(
                #[trigger] front[i].0,
                #[trigger] front[j].0,
            ) by {
                assert(front[i] == b[i] && front[j] == b[j]);
            }
            assert forall|a: int| 0 <= a < front.len() implies (#[trigger] front[a]).0.len()
                <= 255 && (front[a].1 matches Some(v) ==> v.len() <= 65535) && between(
                lo,
                front[a].0,
                hi,
            ) by {
                assert(front[a] == b[a]);
            }
        }
        lemma_puts(front, lo, hi);
        let pf = puts(front);
        let p = puts(b);
        assert forall|x: Seq<u8>| touches(front, x) implies touches(b, x) && lex_lt(x, last.0)
            && op_for(b, x) == op_for(front, x) by {
            let j = entry_index(front, x);
            assert(front[j] == b[j]);
            lemma_touch(b, j);
            lemma_touch(front, j);
            assert(lex_lt(b[j].0, b[n].0));
        }
        assert forall|x: Seq<u8>| touches(b, x) implies touches(front, x) || x == last.0 by {
            let j = entry_index(b, x);
            if j < n {
                assert(front[j] == b[j]);
            }
        }
        lemma_touch(b, n);
        lemma_lex_irreflexive(last.0);
        assert(!touches(front, last.0));
        if last.1 is Some {
            assert forall|j: int| 0 <= j < p.len() implies p[j] == if j < pf.len() {
                pf[j]
            } else {
                last
            } by {}
            assert(sorted(p)) by {
                assert forall|i: int, j: int| 0 <= i < j < p.len() implies lex_lt(
                    #[trigger] p[i].0,
                    #[trigger] p[j].0,
                ) by {
                    if j == pf.len() {
                        assert(touches(front, pf[i].0));
                    } else {
                        assert(p[i] == pf[i] && p[j] == pf[j]);
                    }
                }
            }
            assert(sized(p) && within(p, lo, hi) && all_puts(p)) by {
                assert forall|a: int| 0 <= a < p.len() implies (#[trigger] p[a]).0.len() <= 255
                    && (p[a].1 matches Some(v) ==> v.len() <= 65535) && between(lo, p[a].0, hi)
                    && p[a].1 is Some by {
                    if a < pf.len() {
                        assert(p[a] == pf[a]);
                    } else {
                        assert(p[a] == b[n]);
                    }
                }
            }
            assert forall|j: int| 0 <= j < p.len() implies touches(b, (#[trigger] p[j]).0) by {
                if j < pf.len() {
                    assert(touches(front, pf[j].0));
                }
            }
            assert forall|x: Seq<u8>|
                #![trigger touches(p, x)]
                #![trigger touches(b, x)]
                touches(p, x) <==> touches(b, x) && op_for(b, x) is Some by {
                if touches(p, x) {
                    let j = entry_index(p, x);
                    if j < pf.len() {
                        assert(pf[j].0 == x);
                        assert(touches(pf, x));
                    }
                }
                if touches(b, x) && op_for(b, x) is Some {
                    if x == last.0 {
                        assert(p[pf.len() as int].0 == x);
                    } else {
                        assert(touches(front, x));
                        assert(touches(pf, x));
                        let j = entry_index(pf, x);
                        assert(p[j].0 == x);
                    }
                }
            }
            assert forall|x: Seq<u8>| #[trigger] touches(p, x) implies op_for(p, x) == op_for(
                b,
                x,
            ) by {
                let j = entry_index(p, x);
                lemma_touch(p, j);
                if j < pf.len() {
                    assert(pf[j].0 == x);
                    lemma_touch(pf, j);
                    assert(touches(pf, x));
                }
            }
        } else {
            assert forall|x: Seq<u8>|
                #![trigger touches(p, x)]
                #![trigger touches(b, x)]
                touches(p, x) <==> touches(b, x) && op_for(b, x) is Some by {
                if touches(b, x) && op_for(b, x) is Some {
                    assert(x != last.0);
                    assert(touches(front, x));
                }
            }
            assert forall|j: int| 0 <= j < p.len() implies touches(b, (#[trigger] p[j]).0) by {
                assert(touches(front, pf[j].0));
            }
        }
        assert(apply_batch(Map::empty(), p) =~= apply_batch(Map::empty(), b));
    }
}

/// Two entries of the batch have the same key.
pub open spec fn has_duplicate(b: Seq<EntryView>) -> bool {
    exists|i: int, j: int| 0 <= i < j < b.len() && #[trigger] b[i].0 == #[trigger] b[j].0
}

/// A batch without duplicate keys does to the pairs what any batch of the
/// same entries does: the order of the entries does not matter.
pub proof fn lemma_same_entries(m: Map<Seq<u8>, Seq<u8>>, a: Seq<EntryView>, b: Seq<EntryView>)
    requires
        forall|e: EntryView| a.contains(e) <==> b.contains(e),
        !has_duplicate(b),
    ensures
        apply_batch(m, a) == apply_batch(m, b),
{
    assert forall|k: Seq<u8>| touches(a, k) == touches(b, k) && (touches(a, k) ==> op_for(a, k)
        == op_for(b, k)) by {
        if touches(a, k) {
            let i = entry_index(a, k);
            assert(a.contains(a[i]));
            let j = choose|j: int| 0 <= j < b.len() && b[j] == a[i];
            assert(b[j].0 == k);
            let j2 = entry_index(b, k);
            assert(j2 == j) by {
                if j2 < j {
                    assert(b[j2].0 == b[j].0);
                } else if j < j2 {
                    assert(b[j].0 == b[j2].0);
                }
            }
        }
        if touches(b, k) {
            let j = entry_index(b, k);
            assert(b.contains(b[j]));
            let i = choose|i: int| 0 <= i < a.len() && a[i] == b[j];
            assert(a[i].0 == k);
        }
    }
    assert(apply_batch(m, a) =~= apply_batch(m, b));
}

/// Two batches that hold the same entries, each as often, have views that
/// hold the same entries.
pub proof fn lemma_views_permuted(x: Seq<TreeBatchEntry>, y: Seq<TreeBatchEntry>)
    requires
        x.to_multiset() == y.to_multiset(),
    ensures
        forall|e: EntryView| batch_view(x).contains(e) <==> batch_view(y).contains(e),
{
    x.to_multiset_ensures();
    y.to_multiset_ensures();
    assert forall|e: EntryView| batch_view(x).contains(e) <==> batch_view(y).contains(e) by {
        if batch_view(x).contains(e) {
            let i = choose|i: int| 0 <= i < batch_view(x).len() && batch_view(x)[i] == e;
            assert(x.contains(x[i]));
            assert(y.to_multiset().count(x[i]) > 0);
            assert(y.contains(x[i]));
            let j = choose|j: int| 0 <= j < y.len() && y[j] == x[i];
            assert(batch_view(y)[j] == e);
        }
        if batch_view(y).contains(e) {
            let i = choose|i: int| 0 <= i < batch_view(y).len() && batch_view(y)[i] == e;
            assert(y.contains(y[i]));
            assert(x.to_multiset().count(y[i]) > 0);
            assert(x.contains(y[i]));
            let j = choose|j: int| 0 <= j < x.len() && x[j] == y[i];
            assert(batch_view(x)[j] == e);
        }
    }
}

proof fn lemma_duplicate_stays(x: Seq<TreeBatchEntry>, y: Seq<TreeBatchEntry>)
    requires
        x.to_multiset() == y.to_multiset(),
        has_duplicate(batch_view(x)),
    ensures
        has_duplicate(batch_view(y)),
{
    x.to_multiset_ensures();
    y.to_multiset_ensures();
    let xv = batch_view(x);
    let yv = batch_view(y);
    let (i, j) = choose|i: int, j: int|
        0 <= i < j < xv.len() && #[trigger] xv[i].0 == #[trigger] xv[j].0;
    assert(x.contains(x[i]));
    assert(x.contains(x[j]));
    assert(y.to_multiset().count(x[i]) > 0);
    assert(y.to_multiset().count(x[j]) > 0);
    assert(y.contains(x[i]));
    assert(y.contains(x[j]));
    let p = choose|p: int| 0 <= p < y.len() && y[p] == x[i];
    let q = if x[i] == x[j] {
        // the same entry twice: what is left without one of them holds it
        let rest = x.remove(i);
        assert(rest[j - 1] == x[j]);
        assert(rest.contains(x[j]));
        rest.to_multiset_ensures();
        assert(rest.to_multiset() =~= x.to_multiset().remove(x[i]));
        let yrest = y.remove(p);
        yrest.to_multiset_ensures();
        assert(yrest.to_multiset() =~= y.to_multiset().remove(y[p]));
        assert(yrest.to_multiset().count(x[j]) > 0);
        assert(yrest.contains(x[j]));
        let r = choose|r: int| 0 <= r < yrest.len() && yrest[r] == x[j];
        if r < p {
            r
        } else {
            r + 1
        }
    } else {
        choose|q: int| 0 <= q < y.len() && y[q] == x[j]
    };
    assert(y[q] == x[j]);
    assert(p != q);
    assert(yv[p].0 == xv[i].0 && yv[q].0 == xv[j].0);
    if p < q {
        assert(0 <= p < q < yv.len() && yv[p].0 == yv[q].0);
    } else {
        assert(0 <= q < p < yv.len() && yv[q].0 == yv[p].0);
    }
}

/// Of two batches that hold the same entries, each as often, both have the
/// same length, both or neither have a duplicate key, and both or neither
/// keep to the limits on the lengths of keys and values.
pub proof fn lemma_permuted(x: Seq<TreeBatchEntry>, y: Seq<TreeBatchEntry>)
    requires
        x.to_multiset() == y.to_multiset(),
    ensures
        x.len() == y.len(),
        has_duplicate(batch_view(x)) == has_duplicate(batch_view(y)),
        keys_sized(batch_view(x)) == keys_sized(batch_view(y)),
        values_sized(batch_view(x)) == values_sized(batch_view(y)),
        forall|e: EntryView| batch_view(x).contains(e) <==> batch_view(y).contains(e),
{
    x.to_multiset_ensures();
    y.to_multiset_ensures();
    if has_duplicate(batch_view(x)) {
        lemma_duplicate_stays(x, y);
    }
    if has_duplicate(batch_view(y)) {
        lemma_duplicate_stays(y, x);
    }
    lemma_views_permuted(x, y);
    lemma_sized_same(batch_view(x), batch_view(y));
    lemma_sized_same(batch_view(y), batch_view(x));
}

proof fn lemma_sized_same(a: Seq<EntryView>, b: Seq<EntryView>)
    requires
        forall|e: EntryView| a.contains(e) <==> b.contains(e),
    ensures
        keys_sized(a) ==> keys_sized(b),
        values_sized(a) ==> values_sized(b),
{
    assert forall|i: int| 0 <= i < b.len() implies a.contains(#[trigger] b[i]) by {
        assert(b.contains(b[i]));
    }
    if keys_sized(a) {
        assert forall|i: int| 0 <= i < b.len() implies (#[trigger] b[i]).0.len() <= 255 by {
            let j = choose|j: int| 0 <= j < a.len() && a[j] == b[i];
            assert(a[j].0.len() <= 255);
        }
    }
    if values_sized(a) {
        assert forall|i: int| 0 <= i < b.len() implies ((#[trigger] b[i]).1 matches Some(v)
            ==> v.len() <= 65535) by {
            let j = choose|j: int| 0 <= j < a.len() && a[j] == b[i];
            assert(a[j].1 matches Some(v) ==> v.len() <= 65535);
        }
    }
}

/// The keys that the batch takes out of the pairs `m`: those that `m` holds
/// and the batch deletes.
pub open spec fn destroyed_by(m: Map<Seq<u8>, Seq<u8>>, b: Seq<EntryView>) -> Set<Seq<u8>> {
    Set::new(|k: Seq<u8>| m.contains_key(k) && touches(b, k) && op_for(b, k) is None)
}

/// The keys of a list as a set.
pub open spec fn key_set(keys: Seq<Vec<u8>>) -> Set<Seq<u8>> {
    Set::new(|k: Seq<u8>| exists|i: int| 0 <= i < keys.len() && (#[trigger] keys[i])@ == k)
}

/// One more key in the list is one more key in the set.
pub proof fn lemma_key_set_push(keys: Seq<Vec<u8>>, key: Vec<u8>)
    ensures
        key_set(keys.push(key)) == key_set(keys).insert(key@),
{
    let more = keys.push(key);
    assert forall|k: Seq<u8>| key_set(more).contains(k) <==> key_set(keys).insert(
        key@,
    ).contains(k) by {
        if key_set(more).contains(k) {
            let i = choose|i: int| 0 <= i < more.len() && (#[trigger] more[i])@ == k;
            if i < keys.len() {
                assert(keys[i]@ == k);
            }
        }
        if key_set(keys).contains(k) {
            let i = choose|i: int| 0 <= i < keys.len() && (#[trigger] keys[i])@ == k;
            assert(more[i]@ == k);
        }
        if k == key@ {
            assert(more[keys.len() as int]@ == k);
        }
    }
    assert(key_set(more) =~= key_set(keys).insert(key@));
}

/// What a batch takes out of a node's pairs is what its parts take out of
/// the pairs on either side, and the node's own key where the batch deletes
/// it. The conditions are those of `lemma_merge`.
pub proof fn lemma_destroyed(
    m: Map<Seq<u8>, Seq<u8>>,
    ml: Map<Seq<u8>, Seq<u8>>,
    mr: Map<Seq<u8>, Seq<u8>>,
    k: Seq<u8>,
    b: Seq<EntryView>,
    bl: Seq<EntryView>,
    br: Seq<EntryView>,
    own: Option<OpView>,
)
    requires
        forall|x: Seq<u8>| #[trigger] ml.contains_key(x) ==> lex_lt(x, k),
        forall|x: Seq<u8>| #[trigger] mr.contains_key(x) ==> lex_lt(k, x),
        forall|x: Seq<u8>|
            #![trigger m.contains_key(x)]
            lex_lt(x, k) ==> (m.contains_key(x) == ml.contains_key(x)),
        forall|x: Seq<u8>|
            #![trigger m.contains_key(x)]
            lex_lt(k, x) ==> (m.contains_key(x) == mr.contains_key(x)),
        m.contains_key(k),
        touches(b, k) == (own is Some),
        own is Some ==> op_for(b, k) == own.unwrap(),
        forall|x: Seq<u8>| #[trigger] touches(bl, x) ==> lex_lt(x, k),
        forall|x: Seq<u8>| #[trigger] touches(br, x) ==> lex_lt(k, x),
        forall|x: Seq<u8>|
            #![trigger touches(b, x)]
            lex_lt(x, k) ==> (touches(b, x) == touches(bl, x)) && (touches(b, x) ==> op_for(b, x)
                == op_for(bl, x)),
        forall|x: Seq<u8>|
            #![trigger touches(b, x)]
            lex_lt(k, x) ==> (touches(b, x) == touches(br, x)) && (touches(b, x) ==> op_for(b, x)
                == op_for(br, x)),
    ensures
        destroyed_by(m, b) == if own == Some(None::<Seq<u8>>) {
            destroyed_by(ml, bl).union(destroyed_by(mr, br)).insert(k)
        } else {
            destroyed_by(ml, bl).union(destroyed_by(mr, br))
        },
{
    let sides = destroyed_by(ml, bl).union(destroyed_by(mr, br));
    let all = if own == Some(None::<Seq<u8>>) {
        sides.insert(k)
    } else {
        sides
    };
    lemma_lex_irreflexive(k);
    assert forall|x: Seq<u8>| destroyed_by(m, b).contains(x) <==> all.contains(x) by {
        lemma_lex_total(x, k);
        if lex_lt(x, k) {
            lemma_lex_asymmetric(x, k);
            assert(touches(b, x) == touches(bl, x));
            assert(m.contains_key(x) == ml.contains_key(x));
            assert(!touches(br, x));
            assert(!mr.contains_key(x));
        } else if lex_lt(k, x) {
            lemma_lex_asymmetric(k, x);
            assert(touches(b, x) == touches(br, x));
            assert(m.contains_key(x) == mr.contains_key(x));
            assert(!touches(bl, x));
            assert(!ml.contains_key(x));
        } else {
            assert(!touches(bl, x));
            assert(!touches(br, x));
            assert(!ml.contains_key(x));
            assert(!mr.contains_key(x));
        }
    }
    assert(destroyed_by(m, b) =~= all);
}

} // verus!
