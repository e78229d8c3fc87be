//! The tree that a batch makes of a tree: the definition, and the proof that
//! it is a balanced search tree holding what the batch asks for.

use crate::batch::{
    all_puts, apply_batch, before, behind, bits, hits, lemma_bits_monotonic, lemma_bits_step,
    lemma_lower_unique, lemma_merge, lemma_puts, lemma_split, lower, puts, sized, sorted, touches,
    within, EntryView,
};
use crate::bytes::{lemma_lex_asymmetric, lemma_lex_irreflexive, lex_lt};
use crate::shape::{
    join, join2, lemma_apart, lemma_join, lemma_join2, lemma_node, lemma_sides, node, Shape,
};
use vstd::prelude::*;

verus! {

/// The balanced tree of the sorted pairs `e`: the pair in the middle, at
/// index `len / 2`, is the root, over the trees of the pairs before and
/// behind it.
pub open spec fn build(e: Seq<EntryView>) -> Shape
    decreases e.len(),
{
    if e.len() == 0 {
        Shape::Nil
    } else {
        let mid = (e.len() / 2) as int;
        node(
            build(e.subrange(0, mid)),
            e[mid].0,
            e[mid].1.unwrap(),
            build(e.subrange(mid + 1, e.len() as int)),
        )
    }
}

/// The tree after the sorted batch `b`. An empty batch leaves the tree as it
/// is. An empty tree becomes the balanced tree of the pairs that the batch
/// puts. Else the entries before the root's key are applied to the left
/// subtree and those behind it to the right subtree; then the root's pair,
/// with the value that the batch puts for its key if it puts one, is joined
/// with the two results, or, if the batch deletes the root's key, the two
/// results are joined without it.
pub open spec fn apply(s: Shape, b: Seq<EntryView>) -> Shape
    decreases s,
{
    if b.len() == 0 {
        s
    } else {
        match s {
            Shape::Nil => build(puts(b)),
            Shape::Node { left, key, value, right } => {
                let l2 = apply(*left, before(b, key));
                let r2 = apply(*right, behind(b, key));
                if hits(b, key) {
                    match b[lower(b, key)].1 {
                        Some(v) => join(l2, key, v, r2),
                        None => join2(l2, r2),
                    }
                } else {
                    join(l2, key, value, r2)
                }
            },
        }
    }
}

/// The tree built of sorted pairs is a balanced search tree of exactly
/// these pairs, as high as their number has binary digits.
pub proof fn lemma_build(e: Seq<EntryView>, lo: Option<Seq<u8>>, hi: Option<Seq<u8>>)
    requires
        sorted(e),
        sized(e),
        within(e, lo, hi),
        all_puts(e),
        bits(e.len()) <= 255,
    ensures
        build(e).ok(lo, hi),
        build(e).height() == bits(e.len()),
        build(e).map() == apply_batch(Map::empty(), e),
    decreases e.len(),
{
    if e.len() == 0 {
        assert(build(e).map() =~= apply_batch(Map::empty(), e));
    } else {
        let n = e.len();
        let mid = (n / 2) as int;
        let k = e[mid].0;
        let v = e[mid].1.unwrap();
        lemma_lex_irreflexive(k);
        assert forall|j: int| mid <= j < e.len() implies !lex_lt((#[trigger] e[j]).0, k) by {
            if j > mid {
                lemma_lex_asymmetric(e[mid].0, e[j].0);
            }
        }
        lemma_lower_unique(e, k, mid);
        lemma_split(e, k, lo, hi);
        let el = e.subrange(0, mid);
        let er = e.subrange(mid + 1, n as int);
        assert(el == before(e, k) && er == behind(e, k));
        assert(all_puts(el)) by {
            assert forall|i: int| 0 <= i < el.len() implies (#[trigger] el[i]).1 is Some by {
                assert(el[i] == e[i]);
            }
        }
        assert(all_puts(er)) by {
            assert forall|i: int| 0 <= i < er.len() implies (#[trigger] er[i]).1 is Some by {
                assert(er[i] == e[mid + 1 + i]);
            }
        }
        lemma_bits_monotonic(el.len(), n);
        lemma_bits_monotonic(er.len(), n);
        lemma_bits_monotonic(er.len(), el.len());
        if mid >= 1 {
            lemma_bits_step(mid as nat);
            lemma_bits_monotonic((mid - 1) as nat, er.len());
        }
        lemma_build(el, lo, Some(k));
        lemma_build(er, Some(k), hi);
        let l = build(el);
        let r = build(er);
        lemma_node(l, k, v, r, lo, hi);
        let empty = Map::<Seq<u8>, Seq<u8>>::empty();
        lemma_merge(empty, empty, empty, k, v, e, el, er, Some(e[mid].1));
    }
}

/// One step of `apply` at a node, the batch being applied to the two
/// subtrees already.
proof fn lemma_apply_step(
    s: Shape,
    b: Seq<EntryView>,
    lo: Option<Seq<u8>>,
    hi: Option<Seq<u8>>,
    l2: Shape,
    r2: Shape,
)
    requires
        s.ok(lo, hi),
        s is Node,
        sorted(b),
        sized(b),
        within(b, lo, hi),
        s.height() + bits(b.len()) <= 255,
        l2.ok(lo, Some(s->key)),
        r2.ok(Some(s->key), hi),
        l2.map() == apply_batch(s->left.map(), before(b, s->key)),
        r2.map() == apply_batch(s->right.map(), behind(b, s->key)),
        l2.height() + 1 <= s.height() + bits(b.len()),
        r2.height() + 1 <= s.height() + bits(b.len()),
    ensures
        ({
            let res = if hits(b, s->key) {
                match b[lower(b, s->key)].1 {
                    Some(v) => join(l2, s->key, v, r2),
                    None => join2(l2, r2),
                }
            } else {
                join(l2, s->key, s->value, r2)
            };
            &&& res.ok(lo, hi)
            &&& res.map() == apply_batch(s.map(), b)
            &&& res.height() <= s.height() + bits(b.len())
        }),
{
    let key = s->key;
    let value = s->value;
    lemma_split(b, key, lo, hi);
    lemma_apart(*s->left, *s->right, lo, key, hi);
    lemma_sides(s, lo, hi);
    let own: Option<Option<Seq<u8>>> = if hits(b, key) {
        Some(b[lower(b, key)].1)
    } else {
        None
    };
    lemma_merge(
        s.map(),
        s->left.map(),
        s->right.map(),
        key,
        value,
        b,
        before(b, key),
        behind(b, key),
        own,
    );
    if hits(b, key) {
        match b[lower(b, key)].1 {
            Some(v) => {
                lemma_join(l2, key, v, r2, lo, hi);
            },
            None => {
                lemma_join2(l2, key, r2, lo, hi);
            },
        }
    } else {
        lemma_join(l2, key, value, r2, lo, hi);
    }
}

/// The tree after a batch is a balanced search tree within the same bounds;
/// it holds what the batch makes of the pairs; and it is higher than the
/// tree before by at most the number of binary digits of the batch's length.
pub proof fn lemma_apply(s: Shape, b: Seq<EntryView>, lo: Option<Seq<u8>>, hi: Option<Seq<u8>>)
    requires
        s.ok(lo, hi),
        sorted(b),
        sized(b),
        within(b, lo, hi),
        s.height() + bits(b.len()) <= 255,
    ensures
        apply(s, b).ok(lo, hi),
        apply(s, b).map() == apply_batch(s.map(), b),
        apply(s, b).height() <= s.height() + bits(b.len()),
    decreases s,
{
    if b.len() == 0 {
        assert(apply_batch(s.map(), b) =~= s.map());
    } else {
        match s {
            Shape::Nil => {
                lemma_puts(b, lo, hi);
                lemma_bits_monotonic(puts(b).len(), b.len());
                lemma_build(puts(b), lo, hi);
            },
            Shape::Node { left, key, value, right } => {
                lemma_split(b, key, lo, hi);
                let bl = before(b, key);
                let br = behind(b, key);
                lemma_bits_monotonic(bl.len(), b.len());
                lemma_bits_monotonic(br.len(), b.len());
                lemma_apply(*left, bl, lo, Some(key));
                lemma_apply(*right, br, Some(key), hi);
                lemma_apply_step(s, b, lo, hi, apply(*left, bl), apply(*right, br));
            },
        }
    }
}

// ---------------------------------------------------------------------------
// Batches that change nothing, and the order of a batch
// ---------------------------------------------------------------------------

/// The batch asks for nothing that the pairs `m` do not hold already: what
/// it puts is there with that value, and what it deletes is not there.
pub open spec fn changes_nothing(m: Map<Seq<u8>, Seq<u8>>, b: Seq<EntryView>) -> bool {
    forall|i: int|
        0 <= i < b.len() ==> match (#[trigger] b[i]).1 {
            Some(v) => m.contains_key(b[i].0) && m[b[i].0] == v,
            None => !m.contains_key(b[i].0),
        }
}

proof fn lemma_no_puts(b: Seq<EntryView>)
    requires
        forall|i: int| 0 <= i < b.len() ==> (#[trigger] b[i]).1 is None,
    ensures
        puts(b).len() == 0,
    decreases b.len(),
{
    if b.len() > 0 {
        let front = b.drop_last();
        assert forall|i: int| 0 <= i < front.len() implies (#[trigger] front[i]).1 is None by {
            assert(front[i] == b[i]);
        }
        lemma_no_puts(front);
        assert(b.last() == b[b.len() - 1]);
    }
}

/// A batch that asks for nothing new leaves the tree as it is, node for
/// node, and so its digest: putting a pair that is there already, and
/// deleting a key that is not there, change nothing.
pub proof fn lemma_apply_nothing(
    s: Shape,
    b: Seq<EntryView>,
    lo: Option<Seq<u8>>,
    hi: Option<Seq<u8>>,
)
    requires
        s.ok(lo, hi),
        sorted(b),
        changes_nothing(s.map(), b),
    ensures
        apply(s, b) == s,
    decreases s,
{
    if b.len() > 0 {
        match s {
            Shape::Nil => {
                lemma_no_puts(b);
            },
            Shape::Node { left, key, value, right } => {
                lemma_split(b, key, lo, hi);
                lemma_sides(s, lo, hi);
                let bl = before(b, key);
                let br = behind(b, key);
                assert(changes_nothing(left.map(), bl)) by {
                    assert forall|i: int| 0 <= i < bl.len() implies match (#[trigger] bl[i]).1 {
                        Some(v) => left.map().contains_key(bl[i].0) && left.map()[bl[i].0] == v,
                        None => !left.map().contains_key(bl[i].0),
                    } by {
                        assert(bl[i] == b[i]);
                        assert(touches(bl, bl[i].0));
                    }
                }
                assert(changes_nothing(right.map(), br)) by {
                    assert forall|i: int| 0 <= i < br.len() implies match (#[trigger] br[i]).1 {
                        Some(v) => right.map().contains_key(br[i].0) && right.map()[br[i].0]
                            == v,
                        None => !right.map().contains_key(br[i].0),
                    } by {
                        assert(br[i] == b[crate::batch::behind_from(b, key) + i]);
                        assert(touches(br, br[i].0));
                    }
                }
                lemma_apply_nothing(*left, bl, lo, Some(key));
                lemma_apply_nothing(*right, br, Some(key), hi);
                if hits(b, key) {
                    assert(b[lower(b, key)].1 == Some(value));
                }
            },
        }
    }
}

/// The empty batch leaves every tree as it is.
pub proof fn lemma_apply_empty(s: Shape)
    ensures
        apply(s, Seq::<EntryView>::empty()) == s,
{
}

/// One put makes of the empty tree a single node of height 1.
pub proof fn lemma_apply_first_put(key: Seq<u8>, value: Seq<u8>)
    ensures
        apply(Shape::Nil, seq![(key, Some(value))]) == node(Shape::Nil, key, value, Shape::Nil),
        apply(Shape::Nil, seq![(key, Some(value))]).height() == 1,
{
    let b: Seq<EntryView> = seq![(key, Some(value))];
    assert(b.drop_last() =~= Seq::<EntryView>::empty());
    assert(b.last() == (key, Some(value)));
    reveal_with_fuel(puts, 2);
    assert(puts(b) =~= b);
    assert(b.subrange(0, 0) =~= Seq::<EntryView>::empty());
    assert(b.subrange(1, 1) =~= Seq::<EntryView>::empty());
    reveal_with_fuel(build, 2);
}

/// Two sorted batches with the same entries are the same batch: whatever
/// order a batch without duplicate keys comes in, sorting it gives the same
/// batch, so the same tree, and so the same root digest.
pub proof fn lemma_order_irrelevant(a: Seq<EntryView>, b: Seq<EntryView>)
    requires
        sorted(a),
        sorted(b),
        forall|e: EntryView| a.contains(e) <==> b.contains(e),
    ensures
        a == b,
        apply(Shape::Nil, a) == apply(Shape::Nil, b),
        apply(Shape::Nil, a).digest() == apply(Shape::Nil, b).digest(),
    decreases a.len(),
{
    if a.len() == 0 {
        if b.len() > 0 {
            assert(b.contains(b[0]));
        }
        assert(a =~= b);
    } else {
        let la = a.last();
        assert(a.contains(a[a.len() - 1]));
        assert(b.contains(la));
        let lb = b.last();
        assert(b.contains(b[b.len() - 1]));
        assert(a.contains(lb));
        let ia = choose|i: int| 0 <= i < a.len() && a[i] == lb;
        let ib = choose|i: int| 0 <= i < b.len() && b[i] == la;
        // neither last key sorts before the other
        if ia < a.len() - 1 {
            assert(lex_lt(a[ia].0, a[a.len() - 1].0));
            if ib < b.len() - 1 {
                assert(lex_lt(b[ib].0, b[b.len() - 1].0));
                lemma_lex_asymmetric(lb.0, la.0);
            }
        }
        if ib < b.len() - 1 {
            assert(lex_lt(b[ib].0, b[b.len() - 1].0));
            if ia == a.len() - 1 {
                lemma_lex_irreflexive(la.0);
            }
        }
        assert(la == lb);
        let fa = a.drop_last();
        let fb = b.drop_last();
        assert(sorted(fa)) by {
            assert forall|i: int, j: int| 0 <= i < j < fa.len() implies lex_lt(
                #[trigger] fa[i].0,
                #[trigger] fa[j].0,
            ) by {
                assert(fa[i] == a[i] && fa[j] == a[j]);
            }
        }
        assert(sorted(fb)) by {
            assert forall|i: int, j: int| 0 <= i < j < fb.len() implies lex_lt(
                #[trigger] fb[i].0,
                #[trigger] fb[j].0,
            ) by {
                assert(fb[i] == b[i] && fb[j] == b[j]);
            }
        }
        assert forall|e: EntryView| fa.contains(e) <==> fb.contains(e) by {
            if fa.contains(e) {
                let i = choose|i: int| 0 <= i < fa.len() && fa[i] == e;
                assert(a[i] == e);
                assert(a.contains(e));
                let j = choose|j: int| 0 <= j < b.len() && b[j] == e;
                assert(lex_lt(a[i].0, a[a.len() - 1].0));
                if j == b.len() - 1 {
                    lemma_lex_irreflexive(la.0);
                }
                assert(fb[j] == e);
            }
            if fb.contains(e) {
                let i = choose|i: int| 0 <= i < fb.len() && fb[i] == e;
                assert(b[i] == e);
                assert(b.contains(e));
                let j = choose|j: int| 0 <= j < a.len() && a[j] == e;
                assert(lex_lt(b[i].0, b[b.len() - 1].0));
                if j == a.len() - 1 {
                    lemma_lex_irreflexive(la.0);
                }
                assert(fa[j] == e);
            }
        }
        lemma_order_irrelevant(fa, fb);
        assert(a =~= fa.push(la));
        assert(b =~= fb.push(lb));
    }
}

} // verus!
