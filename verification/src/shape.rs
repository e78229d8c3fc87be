//! The tree as a mathematical value: what a balanced search tree of
//! key/value pairs is, what its digests are, and how the tree that results
//! from joining, deleting and applying a batch is defined.

use crate::bytes::{
    between, lemma_lex_asymmetric, lemma_lex_irreflexive, lemma_lex_total, lemma_lex_transitive,
    lex_le, lex_lt,
};
use crate::hash::{kv_digest, node_digest, null_digest};
use crate::node::{LinkView, NodeView};
use vstd::prelude::*;

verus! {

/// A binary tree of key/value pairs.
pub enum Shape {
    /// The empty tree.
    Nil,
    /// A pair with a left and a right subtree.
    Node { left: Box<Shape>, key: Seq<u8>, value: Seq<u8>, right: Box<Shape> },
}

/// The tree with the given root pair and subtrees.
pub open spec fn node(l: Shape, key: Seq<u8>, value: Seq<u8>, r: Shape) -> Shape {
    Shape::Node { left: Box::new(l), key, value, right: Box::new(r) }
}

/// `a` is no stricter a lower bound than `b`.
pub open spec fn lo_le(a: Option<Seq<u8>>, b: Option<Seq<u8>>) -> bool {
    match a {
        None => true,
        Some(x) => match b {
            Some(y) => lex_le(x, y),
            None => false,
        },
    }
}

/// `b` is no stricter an upper bound than `a`.
pub open spec fn hi_le(a: Option<Seq<u8>>, b: Option<Seq<u8>>) -> bool {
    match b {
        None => true,
        Some(y) => match a {
            Some(x) => lex_le(x, y),
            None => false,
        },
    }
}

impl Shape {
    /// The number of nodes on the longest path from the root down.
    pub open spec fn height(self) -> nat
        decreases self,
    {
        match self {
            Shape::Nil => 0,
            Shape::Node { left, right, .. } => if left.height() >= right.height() {
                left.height() + 1
            } else {
                right.height() + 1
            },
        }
    }

    /// The digest of the tree: the null digest for the empty tree, else the
    /// node digest of the root pair's digest and the digests of the two
    /// subtrees.
    pub open spec fn digest(self) -> Seq<u8>
        decreases self,
    {
        match self {
            Shape::Nil => null_digest(),
            Shape::Node { left, key, value, right } => node_digest(
                kv_digest(key, value),
                left.digest(),
                right.digest(),
            ),
        }
    }

    /// The link by which a parent refers to the tree; none for the empty
    /// tree.
    pub open spec fn link(self) -> Option<LinkView> {
        match self {
            Shape::Nil => None,
            Shape::Node { key, .. } => Some(
                LinkView { key, hash: self.digest(), height: self.height() as u8 },
            ),
        }
    }

    /// The record under which the root is stored.
    pub open spec fn record(self) -> NodeView
        recommends
            self is Node,
    {
        NodeView {
            key: self->key,
            value: self->value,
            kv_hash: kv_digest(self->key, self->value),
            left: self->left.link(),
            right: self->right.link(),
        }
    }

    /// The pairs of the tree as a map.
    pub open spec fn map(self) -> Map<Seq<u8>, Seq<u8>>
        decreases self,
    {
        match self {
            Shape::Nil => Map::empty(),
            Shape::Node { left, key, value, right } => left.map().union_prefer_right(
                right.map(),
            ).insert(key, value),
        }
    }

    /// The tree is a search tree whose keys lie strictly between `lo` and
    /// `hi`; at every node the heights of the two subtrees differ by at most
    /// one; keys hold at most 255 bytes and values at most 65 535; and the
    /// height fits one byte.
    pub open spec fn ok(self, lo: Option<Seq<u8>>, hi: Option<Seq<u8>>) -> bool
        decreases self,
    {
        match self {
            Shape::Nil => true,
            Shape::Node { left, key, value, right } => {
                &&& between(lo, key, hi)
                &&& key.len() <= 255
                &&& value.len() <= 65535
                &&& left.ok(lo, Some(key))
                &&& right.ok(Some(key), hi)
                &&& left.height() <= right.height() + 1
                &&& right.height() <= left.height() + 1
                &&& self.height() <= 255
            },
        }
    }

    /// Every node of the tree is in `recs`, under its key, as its record.
    pub open spec fn stored(self, recs: Map<Seq<u8>, NodeView>) -> bool
        decreases self,
    {
        match self {
            Shape::Nil => true,
            Shape::Node { left, key, right, .. } => {
                &&& recs.contains_key(key)
                &&& recs[key] == self.record()
                &&& left.stored(recs)
                &&& right.stored(recs)
            },
        }
    }
}

/// The root's record agrees with the tree: it records the tree's height and
/// digest, and its link is the tree's link.
pub proof fn lemma_record(s: Shape)
    requires
        s is Node,
        s.height() <= 255,
    ensures
        s.record().key == s->key,
        s.record().value == s->value,
        s.record().height() == s.height(),
        s.record().digest() == s.digest(),
        s.record().as_link() == s.link().unwrap(),
        crate::node::link_height(s.link()) == s.height(),
        crate::node::link_height(s->left.link()) == s->left.height(),
        crate::node::link_height(s->right.link()) == s->right.height(),
{
    let l = *s->left;
    let r = *s->right;
    assert(l.height() < s.height() && r.height() < s.height());
    assert(crate::node::link_height(l.link()) == l.height());
    assert(crate::node::link_height(r.link()) == r.height());
    assert(crate::node::link_digest(l.link()) == l.digest());
    assert(crate::node::link_digest(r.link()) == r.digest());
}

/// The greater of two heights.
pub open spec fn taller(a: nat, b: nat) -> nat {
    if a >= b {
        a
    } else {
        b
    }
}

// ---------------------------------------------------------------------------
// Bounds
// ---------------------------------------------------------------------------

/// A key between two bounds lies between any wider bounds.
pub proof fn lemma_between_widen(
    lo: Option<Seq<u8>>,
    k: Seq<u8>,
    hi: Option<Seq<u8>>,
    lo2: Option<Seq<u8>>,
    hi2: Option<Seq<u8>>,
)
    requires
        between(lo, k, hi),
        lo_le(lo2, lo),
        hi_le(hi, hi2),
    ensures
        between(lo2, k, hi2),
{
    if lo2 is Some && lo2 != lo {
        lemma_lex_transitive(lo2.unwrap(), lo.unwrap(), k);
    }
    if hi2 is Some && hi2 != hi {
        lemma_lex_transitive(k, hi.unwrap(), hi2.unwrap());
    }
}

/// A tree within bounds is within any wider bounds.
pub proof fn lemma_ok_widen(
    s: Shape,
    lo: Option<Seq<u8>>,
    hi: Option<Seq<u8>>,
    lo2: Option<Seq<u8>>,
    hi2: Option<Seq<u8>>,
)
    requires
        s.ok(lo, hi),
        lo_le(lo2, lo),
        hi_le(hi, hi2),
    ensures
        s.ok(lo2, hi2),
    decreases s,
{
    match s {
        Shape::Nil => {},
        Shape::Node { left, key, value, right } => {
            lemma_between_widen(lo, key, hi, lo2, hi2);
            lemma_ok_widen(*left, lo, Some(key), lo2, Some(key));
            lemma_ok_widen(*right, Some(key), hi, Some(key), hi2);
        },
    }
}

/// Every key of a tree within bounds lies between the bounds.
pub proof fn lemma_map_bounds(s: Shape, lo: Option<Seq<u8>>, hi: Option<Seq<u8>>)
    requires
        s.ok(lo, hi),
    ensures
        forall|k: Seq<u8>| #[trigger] s.map().contains_key(k) ==> between(lo, k, hi),
        forall|k: Seq<u8>| #[trigger]
            s.map().contains_key(k) ==> k.len() <= 255 && s.map()[k].len() <= 65535,
    decreases s,
{
    match s {
        Shape::Nil => {},
        Shape::Node { left, key, value, right } => {
            lemma_map_bounds(*left, lo, Some(key));
            lemma_map_bounds(*right, Some(key), hi);
            assert forall|k: Seq<u8>| #[trigger] s.map().contains_key(k) implies between(
                lo,
                k,
                hi,
            ) by {
                if left.map().contains_key(k) {
                    lemma_between_widen(lo, k, Some(key), lo, hi);
                } else if right.map().contains_key(k) {
                    lemma_between_widen(Some(key), k, hi, lo, hi);
                }
            }
            assert forall|k: Seq<u8>| #[trigger] s.map().contains_key(k) implies k.len() <= 255
                && s.map()[k].len() <= 65535 by {
                if k != key && right.map().contains_key(k) {
                    assert(s.map()[k] == right.map()[k]);
                } else if k != key {
                    assert(left.map().contains_key(k));
                    assert(s.map()[k] == left.map()[k]);
                }
            }
        },
    }
}

/// Two trees on either side of a key share no key, and neither holds the
/// key between them.
pub proof fn lemma_apart(
    a: Shape,
    b: Shape,
    lo: Option<Seq<u8>>,
    mid: Seq<u8>,
    hi: Option<Seq<u8>>,
)
    requires
        a.ok(lo, Some(mid)),
        b.ok(Some(mid), hi),
    ensures
        forall|k: Seq<u8>| #[trigger] a.map().contains_key(k) ==> !b.map().contains_key(k),
        forall|k: Seq<u8>| #[trigger] b.map().contains_key(k) ==> !a.map().contains_key(k),
        forall|k: Seq<u8>| #[trigger] a.map().contains_key(k) ==> lex_lt(k, mid),
        forall|k: Seq<u8>| #[trigger] b.map().contains_key(k) ==> lex_lt(mid, k),
        !a.map().contains_key(mid),
        !b.map().contains_key(mid),
{
    lemma_map_bounds(a, lo, Some(mid));
    lemma_map_bounds(b, Some(mid), hi);
    lemma_lex_irreflexive(mid);
    assert forall|k: Seq<u8>| #[trigger] a.map().contains_key(k) implies !b.map().contains_key(
        k,
    ) by {
        if b.map().contains_key(k) {
            lemma_lex_asymmetric(k, mid);
        }
    }
}

/// In a search tree the keys of the left subtree sort before the root's key
/// and those of the right subtree after it; the root's key is in neither.
pub proof fn lemma_ordered(s: Shape, lo: Option<Seq<u8>>, hi: Option<Seq<u8>>)
    requires
        s.ok(lo, hi),
        s is Node,
    ensures
        forall|k: Seq<u8>| #[trigger] s->left.map().contains_key(k) ==> lex_lt(k, s->key),
        forall|k: Seq<u8>| #[trigger] s->right.map().contains_key(k) ==> lex_lt(s->key, k),
        !s->left.map().contains_key(s->key),
        !s->right.map().contains_key(s->key),
        forall|k: Seq<u8>|
            !(#[trigger] s->left.map().contains_key(k) && s->right.map().contains_key(k)),
{
    lemma_apart(*s->left, *s->right, lo, s->key, hi);
}

/// What a node holds on either side of its key is what its subtree on that
/// side holds.
pub proof fn lemma_sides(s: Shape, lo: Option<Seq<u8>>, hi: Option<Seq<u8>>)
    requires
        s.ok(lo, hi),
        s is Node,
    ensures
        s.map().contains_key(s->key),
        s.map()[s->key] == s->value,
        forall|x: Seq<u8>|
            #![trigger s.map().contains_key(x)]
            lex_lt(x, s->key) ==> (s.map().contains_key(x) == s->left.map().contains_key(x)) && (
            s.map().contains_key(x) ==> s.map()[x] == s->left.map()[x]),
        forall|x: Seq<u8>|
            #![trigger s.map().contains_key(x)]
            lex_lt(s->key, x) ==> (s.map().contains_key(x) == s->right.map().contains_key(x))
                && (s.map().contains_key(x) ==> s.map()[x] == s->right.map()[x]),
{
    lemma_apart(*s->left, *s->right, lo, s->key, hi);
    assert forall|x: Seq<u8>|
        #![trigger s.map().contains_key(x)]
        lex_lt(x, s->key) implies (s.map().contains_key(x) == s->left.map().contains_key(x)) && (
    s.map().contains_key(x) ==> s.map()[x] == s->left.map()[x]) by {
        lemma_lex_asymmetric(x, s->key);
    }
    assert forall|x: Seq<u8>|
        #![trigger s.map().contains_key(x)]
        lex_lt(s->key, x) implies (s.map().contains_key(x) == s->right.map().contains_key(x))
        && (s.map().contains_key(x) ==> s.map()[x] == s->right.map()[x]) by {
        lemma_lex_asymmetric(s->key, x);
    }
}

/// What joining `l`, the pair and `r` must hold: all of `l`, then the pair,
/// then all of `r`.
pub open spec fn joined_map(l: Shape, key: Seq<u8>, value: Seq<u8>, r: Shape) -> Map<
    Seq<u8>,
    Seq<u8>,
> {
    l.map().union_prefer_right(r.map()).insert(key, value)
}

/// The conditions under which two trees and a pair between them can be put
/// together.
pub open spec fn joinable(
    l: Shape,
    key: Seq<u8>,
    value: Seq<u8>,
    r: Shape,
    lo: Option<Seq<u8>>,
    hi: Option<Seq<u8>>,
) -> bool {
    &&& l.ok(lo, Some(key))
    &&& r.ok(Some(key), hi)
    &&& between(lo, key, hi)
    &&& key.len() <= 255
    &&& value.len() <= 65535
    &&& taller(l.height(), r.height()) + 1 <= 255
}

// ---------------------------------------------------------------------------
// Rotations
// ---------------------------------------------------------------------------

/// The tree of `l`, the pair and `r`, rotated where one side is higher than
/// the other by two. Where the right side is the higher: if the right
/// tree's left subtree is higher than its right subtree, the right tree is
/// rotated to the right first; then the whole is rotated to the left. The
/// mirror image holds where the left side is the higher. Where the sides
/// differ by at most one, nothing is rotated.
pub open spec fn rebalance(l: Shape, key: Seq<u8>, value: Seq<u8>, r: Shape) -> Shape {
    if r.height() > l.height() + 1 && r is Node {
        let rl = *r->left;
        let rr = *r->right;
        if rl.height() <= rr.height() || rl is Nil {
            node(node(l, key, value, rl), r->key, r->value, rr)
        } else {
            node(
                node(l, key, value, *rl->left),
                rl->key,
                rl->value,
                node(*rl->right, r->key, r->value, rr),
            )
        }
    } else if l.height() > r.height() + 1 && l is Node {
        let ll = *l->left;
        let lr = *l->right;
        if lr.height() <= ll.height() || lr is Nil {
            node(ll, l->key, l->value, node(lr, key, value, r))
        } else {
            node(
                node(ll, l->key, l->value, *lr->left),
                lr->key,
                lr->value,
                node(*lr->right, key, value, r),
            )
        }
    } else {
        node(l, key, value, r)
    }
}

/// Moving the root from one of two neighbouring pairs to the other keeps
/// the pairs.
pub proof fn lemma_map_rotate(
    a: Shape,
    k1: Seq<u8>,
    v1: Seq<u8>,
    b: Shape,
    k2: Seq<u8>,
    v2: Seq<u8>,
    c: Shape,
    lo: Option<Seq<u8>>,
    hi: Option<Seq<u8>>,
)
    requires
        a.ok(lo, Some(k1)),
        b.ok(Some(k1), Some(k2)),
        c.ok(Some(k2), hi),
        lex_lt(k1, k2),
    ensures
        node(node(a, k1, v1, b), k2, v2, c).map() == node(a, k1, v1, node(b, k2, v2, c)).map(),
{
    reveal_with_fuel(Shape::map, 2);
    lemma_apart(a, b, lo, k1, Some(k2));
    lemma_apart(b, c, Some(k1), k2, hi);
    lemma_ok_widen(a, lo, Some(k1), lo, Some(k2));
    lemma_apart(a, c, lo, k2, hi);
    lemma_ok_widen(c, Some(k2), hi, Some(k1), hi);
    lemma_apart(b, c, Some(k1), k2, hi);
    lemma_map_bounds(c, Some(k1), hi);
    lemma_lex_irreflexive(k1);
    lemma_lex_asymmetric(k1, k2);
    assert(node(node(a, k1, v1, b), k2, v2, c).map() =~= node(
        a,
        k1,
        v1,
        node(b, k2, v2, c),
    ).map());
}

/// A node over two trees whose heights differ by at most one is in order.
pub proof fn lemma_node(
    l: Shape,
    key: Seq<u8>,
    value: Seq<u8>,
    r: Shape,
    lo: Option<Seq<u8>>,
    hi: Option<Seq<u8>>,
)
    requires
        joinable(l, key, value, r, lo, hi),
        l.height() <= r.height() + 1,
        r.height() <= l.height() + 1,
    ensures
        node(l, key, value, r).ok(lo, hi),
        node(l, key, value, r).height() == taller(l.height(), r.height()) + 1,
        node(l, key, value, r).map() == joined_map(l, key, value, r),
{
}

proof fn lemma_rotate_left(
    l: Shape,
    key: Seq<u8>,
    value: Seq<u8>,
    r: Shape,
    lo: Option<Seq<u8>>,
    hi: Option<Seq<u8>>,
)
    requires
        joinable(l, key, value, r, lo, hi),
        r.height() == l.height() + 2,
    ensures
        rebalance(l, key, value, r).ok(lo, hi),
        rebalance(l, key, value, r).map() == joined_map(l, key, value, r),
        r.height() <= rebalance(l, key, value, r).height() <= r.height() + 1,
{
    let rl = *r->left;
    let rr = *r->right;
    let rk = r->key;
    let rv = r->value;
    assert(r is Node);
    assert(rl.ok(Some(key), Some(rk)) && rr.ok(Some(rk), hi));
    lemma_between_widen(Some(key), rk, hi, lo, hi);
    if rl.height() <= rr.height() {
        lemma_node(l, key, value, rl, lo, Some(rk));
        lemma_node(node(l, key, value, rl), rk, rv, rr, lo, hi);
        lemma_map_rotate(l, key, value, rl, rk, rv, rr, lo, hi);
    } else {
        let a = *rl->left;
        let b = *rl->right;
        let rlk = rl->key;
        let rlv = rl->value;
        assert(rl is Node);
        assert(a.ok(Some(key), Some(rlk)) && b.ok(Some(rlk), Some(rk)));
        lemma_between_widen(Some(key), rlk, Some(rk), lo, hi);
        lemma_node(l, key, value, a, lo, Some(rlk));
        lemma_node(b, rk, rv, rr, Some(rlk), hi);
        lemma_node(node(l, key, value, a), rlk, rlv, node(b, rk, rv, rr), lo, hi);
        // the pairs: two single moves of the root
        lemma_map_rotate(a, rlk, rlv, b, rk, rv, rr, Some(key), hi);
        lemma_node(a, rlk, rlv, b, Some(key), Some(rk));
        let inner = node(a, rlk, rlv, node(b, rk, rv, rr));
        assert(inner.map() == r.map());
        lemma_map_rotate(l, key, value, a, rlk, rlv, node(b, rk, rv, rr), lo, hi);
        assert(node(l, key, value, inner).map() == joined_map(l, key, value, r));
    }
}

proof fn lemma_rotate_right(
    l: Shape,
    key: Seq<u8>,
    value: Seq<u8>,
    r: Shape,
    lo: Option<Seq<u8>>,
    hi: Option<Seq<u8>>,
)
    requires
        joinable(l, key, value, r, lo, hi),
        l.height() == r.height() + 2,
    ensures
        rebalance(l, key, value, r).ok(lo, hi),
        rebalance(l, key, value, r).map() == joined_map(l, key, value, r),
        l.height() <= rebalance(l, key, value, r).height() <= l.height() + 1,
{
    let ll = *l->left;
    let lr = *l->right;
    let lk = l->key;
    let lv = l->value;
    assert(l is Node);
    assert(ll.ok(lo, Some(lk)) && lr.ok(Some(lk), Some(key)));
    lemma_between_widen(lo, lk, Some(key), lo, hi);
    if lr.height() <= ll.height() {
        lemma_node(lr, key, value, r, Some(lk), hi);
        lemma_node(ll, lk, lv, node(lr, key, value, r), lo, hi);
        lemma_map_rotate(ll, lk, lv, lr, key, value, r, lo, hi);
    } else {
        let a = *lr->left;
        let b = *lr->right;
        let lrk = lr->key;
        let lrv = lr->value;
        assert(lr is Node);
        assert(a.ok(Some(lk), Some(lrk)) && b.ok(Some(lrk), Some(key)));
        lemma_between_widen(Some(lk), lrk, Some(key), lo, hi);
        lemma_node(ll, lk, lv, a, lo, Some(lrk));
        lemma_node(b, key, value, r, Some(lrk), hi);
        lemma_node(node(ll, lk, lv, a), lrk, lrv, node(b, key, value, r), lo, hi);
        lemma_map_rotate(ll, lk, lv, a, lrk, lrv, b, lo, Some(key));
        lemma_node(a, lrk, lrv, b, Some(lk), Some(key));
        let inner = node(node(ll, lk, lv, a), lrk, lrv, b);
        assert(inner.map() == l.map());
        lemma_map_rotate(node(ll, lk, lv, a), lrk, lrv, b, key, value, r, lo, hi);
        assert(node(inner, key, value, r).map() == joined_map(l, key, value, r));
    }
}

/// Rotating keeps the pairs and the order, restores the balance, and gives
/// a tree as high as the higher side or one higher.
pub proof fn lemma_rebalance(
    l: Shape,
    key: Seq<u8>,
    value: Seq<u8>,
    r: Shape,
    lo: Option<Seq<u8>>,
    hi: Option<Seq<u8>>,
)
    requires
        joinable(l, key, value, r, lo, hi),
        l.height() <= r.height() + 2,
        r.height() <= l.height() + 2,
    ensures
        rebalance(l, key, value, r).ok(lo, hi),
        rebalance(l, key, value, r).map() == joined_map(l, key, value, r),
        taller(l.height(), r.height()) <= rebalance(l, key, value, r).height() <= taller(
            l.height(),
            r.height(),
        ) + 1,
        l.height() <= r.height() + 1 && r.height() <= l.height() + 1 ==> rebalance(
            l,
            key,
            value,
            r,
        ) == node(l, key, value, r),
{
    if r.height() > l.height() + 1 {
        lemma_rotate_left(l, key, value, r, lo, hi);
    } else if l.height() > r.height() + 1 {
        lemma_rotate_right(l, key, value, r, lo, hi);
    } else {
        lemma_node(l, key, value, r, lo, hi);
    }
}

// ---------------------------------------------------------------------------
// Join
// ---------------------------------------------------------------------------

/// The balanced tree of all of `l`, the pair, and all of `r`. Where the two
/// differ in height by more than one, the pair goes down the inner edge of
/// the higher one until the heights meet, and each node on the way back is
/// rotated where needed.
pub open spec fn join(l: Shape, key: Seq<u8>, value: Seq<u8>, r: Shape) -> Shape
    decreases l, r,
{
    if l.height() > r.height() + 1 && l is Node {
        rebalance(*l->left, l->key, l->value, join(*l->right, key, value, r))
    } else if r.height() > l.height() + 1 && r is Node {
        rebalance(join(l, key, value, *r->left), r->key, r->value, *r->right)
    } else {
        node(l, key, value, r)
    }
}

/// Joining keeps the pairs and the order, gives a balanced tree, and one as
/// high as the higher side or one higher.
pub proof fn lemma_join(
    l: Shape,
    key: Seq<u8>,
    value: Seq<u8>,
    r: Shape,
    lo: Option<Seq<u8>>,
    hi: Option<Seq<u8>>,
)
    requires
        joinable(l, key, value, r, lo, hi),
    ensures
        join(l, key, value, r).ok(lo, hi),
        join(l, key, value, r).map() == joined_map(l, key, value, r),
        taller(l.height(), r.height()) <= join(l, key, value, r).height() <= taller(
            l.height(),
            r.height(),
        ) + 1,
        l.height() <= r.height() + 1 && r.height() <= l.height() + 1 ==> join(l, key, value, r)
            == node(l, key, value, r),
    decreases l, r,
{
    lemma_apart(l, r, lo, key, hi);
    if l.height() > r.height() + 1 {
        let ll = *l->left;
        let lr = *l->right;
        let lk = l->key;
        let t = join(lr, key, value, r);
        lemma_join(lr, key, value, r, Some(lk), hi);
        lemma_apart(ll, lr, lo, lk, Some(key));
        lemma_between_widen(lo, lk, Some(key), lo, hi);
        lemma_rebalance(ll, lk, l->value, t, lo, hi);
        assert(join(l, key, value, r).map() =~= joined_map(l, key, value, r));
    } else if r.height() > l.height() + 1 {
        let rl = *r->left;
        let rr = *r->right;
        let rk = r->key;
        let t = join(l, key, value, rl);
        lemma_join(l, key, value, rl, lo, Some(rk));
        lemma_apart(rl, rr, Some(key), rk, hi);
        lemma_between_widen(Some(key), rk, hi, lo, hi);
        lemma_rebalance(t, rk, r->value, rr, lo, hi);
        assert(join(l, key, value, r).map() =~= joined_map(l, key, value, r));
    } else {
    }
}

// ---------------------------------------------------------------------------
// Removing the least pair, and deleting a root
// ---------------------------------------------------------------------------

/// The least key of a tree that is not empty.
pub open spec fn min_key(s: Shape) -> Seq<u8>
    decreases s,
{
    match s {
        Shape::Nil => Seq::empty(),
        Shape::Node { left, key, .. } => if *left is Nil {
            key
        } else {
            min_key(*left)
        },
    }
}

/// The value under the least key.
pub open spec fn min_value(s: Shape) -> Seq<u8>
    decreases s,
{
    match s {
        Shape::Nil => Seq::empty(),
        Shape::Node { left, value, .. } => if *left is Nil {
            value
        } else {
            min_value(*left)
        },
    }
}

/// The tree without its least pair, rotated on the way back where needed.
pub open spec fn without_min(s: Shape) -> Shape
    decreases s,
{
    match s {
        Shape::Nil => Shape::Nil,
        Shape::Node { left, key, value, right } => if *left is Nil {
            *right
        } else {
            rebalance(without_min(*left), key, value, *right)
        },
    }
}

/// Removing the least pair removes that pair and no other, keeps the order
/// and the balance, and lowers the tree by at most one.
pub proof fn lemma_without_min(s: Shape, lo: Option<Seq<u8>>, hi: Option<Seq<u8>>)
    requires
        s.ok(lo, hi),
        s is Node,
    ensures
        between(lo, min_key(s), hi),
        min_key(s).len() <= 255,
        min_value(s).len() <= 65535,
        s.map().contains_key(min_key(s)),
        s.map()[min_key(s)] == min_value(s),
        without_min(s).ok(Some(min_key(s)), hi),
        without_min(s).map() == s.map().remove(min_key(s)),
        without_min(s).height() <= s.height() <= without_min(s).height() + 1,
    decreases s,
{
    let left = *s->left;
    let right = *s->right;
    let key = s->key;
    let value = s->value;
    lemma_ordered(s, lo, hi);
    if left is Nil {
        assert(without_min(s).map() =~= s.map().remove(key));
    } else {
        lemma_without_min(left, lo, Some(key));
        let m = min_key(left);
        let l2 = without_min(left);
        lemma_lex_asymmetric(m, key);
        lemma_between_widen(lo, m, Some(key), lo, hi);
        lemma_rebalance(l2, key, value, right, Some(m), hi);
        lemma_map_bounds(right, Some(key), hi);
        assert(without_min(s).map() =~= s.map().remove(m));
    }
}

/// What is left of a tree whose root is deleted, `l` and `r` being its
/// subtrees: the other subtree where one is empty; else the least pair of
/// `r` takes the root's place, over `l` and the rest of `r`.
pub open spec fn join2(l: Shape, r: Shape) -> Shape {
    if l is Nil {
        r
    } else if r is Nil {
        l
    } else {
        join(l, min_key(r), min_value(r), without_min(r))
    }
}

/// Deleting a root keeps every other pair, the order and the balance.
pub proof fn lemma_join2(
    l: Shape,
    key: Seq<u8>,
    r: Shape,
    lo: Option<Seq<u8>>,
    hi: Option<Seq<u8>>,
)
    requires
        l.ok(lo, Some(key)),
        r.ok(Some(key), hi),
        between(lo, key, hi),
        taller(l.height(), r.height()) + 1 <= 255,
    ensures
        join2(l, r).ok(lo, hi),
        join2(l, r).map() == l.map().union_prefer_right(r.map()),
        !join2(l, r).map().contains_key(key),
        join2(l, r).height() <= taller(l.height(), r.height()) + 1,
{
    lemma_map_bounds(l, lo, Some(key));
    lemma_map_bounds(r, Some(key), hi);
    lemma_lex_irreflexive(key);
    if l is Nil {
        lemma_ok_widen(r, Some(key), hi, lo, hi);
        assert(join2(l, r).map() =~= l.map().union_prefer_right(r.map()));
    } else if r is Nil {
        lemma_ok_widen(l, lo, Some(key), lo, hi);
        assert(join2(l, r).map() =~= l.map().union_prefer_right(r.map()));
    } else {
        lemma_without_min(r, Some(key), hi);
        let m = min_key(r);
        lemma_ok_widen(l, lo, Some(key), lo, Some(m));
        lemma_between_widen(Some(key), m, hi, lo, hi);
        lemma_join(l, m, min_value(r), without_min(r), lo, hi);
        assert(join2(l, r).map() =~= l.map().union_prefer_right(r.map()));
    }
}

// ---------------------------------------------------------------------------
// Looking a key up
// ---------------------------------------------------------------------------

/// The subtree of a search tree whose root has the key `k`; the empty tree
/// where no node has it.
pub open spec fn find(s: Shape, k: Seq<u8>) -> Shape
    decreases s,
{
    match s {
        Shape::Nil => Shape::Nil,
        Shape::Node { left, key, right, .. } => if k == key {
            s
        } else if lex_lt(k, key) {
            find(*left, k)
        } else {
            find(*right, k)
        },
    }
}

/// Looking a key up in a search tree finds the node with that key exactly
/// where the tree holds the key, and that node has the key's value.
pub proof fn lemma_find(s: Shape, lo: Option<Seq<u8>>, hi: Option<Seq<u8>>, k: Seq<u8>)
    requires
        s.ok(lo, hi),
    ensures
        s.map().contains_key(k) <==> find(s, k) is Node,
        find(s, k) is Node ==> find(s, k)->key == k && find(s, k)->value == s.map()[k] && find(
            s,
            k,
        ).height() <= s.height(),
        s is Node && s->left.map().contains_key(k) ==> find(s, k) == find(*s->left, k),
        s is Node && s->right.map().contains_key(k) ==> find(s, k) == find(*s->right, k),
    decreases s,
{
    match s {
        Shape::Nil => {},
        Shape::Node { left, key, value, right } => {
            lemma_apart(*left, *right, lo, key, hi);
            lemma_find(*left, lo, Some(key), k);
            lemma_find(*right, Some(key), hi, k);
            if k != key {
                lemma_lex_total(k, key);
                if lex_lt(k, key) {
                    lemma_lex_asymmetric(k, key);
                } else {
                    lemma_lex_asymmetric(key, k);
                }
            }
        },
    }
}

/// A search tree is stored exactly when each of its keys is stored as the
/// record of the node with that key.
pub proof fn lemma_stored_flat(
    s: Shape,
    recs: Map<Seq<u8>, NodeView>,
    lo: Option<Seq<u8>>,
    hi: Option<Seq<u8>>,
)
    requires
        s.ok(lo, hi),
    ensures
        s.stored(recs) <==> (forall|k: Seq<u8>| #[trigger]
            s.map().contains_key(k) ==> recs.contains_key(k) && recs[k] == find(s, k).record()),
    decreases s,
{
    match s {
        Shape::Nil => {},
        Shape::Node { left, key, value, right } => {
            lemma_stored_flat(*left, recs, lo, Some(key));
            lemma_stored_flat(*right, recs, Some(key), hi);
            lemma_apart(*left, *right, lo, key, hi);
            assert forall|k: Seq<u8>| #[trigger] left.map().contains_key(k) implies find(s, k)
                == find(*left, k) && s.map().contains_key(k) by {
                lemma_find(s, lo, hi, k);
            }
            assert forall|k: Seq<u8>| #[trigger] right.map().contains_key(k) implies find(s, k)
                == find(*right, k) && s.map().contains_key(k) by {
                lemma_find(s, lo, hi, k);
            }
            assert(s.map().contains_key(key));
            assert(find(s, key) == s);
            if s.stored(recs) {
                assert forall|k: Seq<u8>| #[trigger] s.map().contains_key(k) implies
                    recs.contains_key(k) && recs[k] == find(s, k).record() by {
                    if k != key {
                        if left.map().contains_key(k) {
                        } else {
                            assert(right.map().contains_key(k));
                        }
                    }
                }
            }
            if forall|k: Seq<u8>| #[trigger]
                s.map().contains_key(k) ==> recs.contains_key(k) && recs[k] == find(
                    s,
                    k,
                ).record() {
                assert forall|k: Seq<u8>| #[trigger] left.map().contains_key(k) implies
                    recs.contains_key(k) && recs[k] == find(*left, k).record() by {
                    assert(s.map().contains_key(k));
                }
                assert forall|k: Seq<u8>| #[trigger] right.map().contains_key(k) implies
                    recs.contains_key(k) && recs[k] == find(*right, k).record() by {
                    assert(s.map().contains_key(k));
                }
            }
        },
    }
}

// ---------------------------------------------------------------------------
// What holds of every node
// ---------------------------------------------------------------------------

/// At every node of a tree that is `ok`: the keys of the left subtree sort
/// before the node's key and those of the right subtree after it; the
/// heights of the two subtrees differ by at most one; the node's height is
/// one more than the greater of the two; and the digest and the height that
/// the node's link records are those of the node's tree, the digest being
/// the node digest of the pair's digest and the digests that the links to
/// its children record.
pub proof fn lemma_every_node(s: Shape, lo: Option<Seq<u8>>, hi: Option<Seq<u8>>, k: Seq<u8>)
    requires
        s.ok(lo, hi),
        s.map().contains_key(k),
    ensures
        ({
            let n = find(s, k);
            &&& n is Node
            &&& n->key == k
            &&& n->value == s.map()[k]
            &&& forall|x: Seq<u8>| #[trigger] n->left.map().contains_key(x) ==> lex_lt(x, k)
            &&& forall|x: Seq<u8>| #[trigger] n->right.map().contains_key(x) ==> lex_lt(k, x)
            &&& n->left.height() <= n->right.height() + 1
            &&& n->right.height() <= n->left.height() + 1
            &&& n.height() == taller(n->left.height(), n->right.height()) + 1
            &&& n.link().unwrap().height == n.height()
            &&& n.link().unwrap().hash == node_digest(
                kv_digest(k, n->value),
                crate::node::link_digest(n->left.link()),
                crate::node::link_digest(n->right.link()),
            )
        }),
    decreases s,
{
    match s {
        Shape::Nil => {},
        Shape::Node { left, key, value, right } => {
            lemma_find(s, lo, hi, k);
            lemma_apart(*left, *right, lo, key, hi);
            if k == key {
                lemma_record(s);
            } else if left.map().contains_key(k) {
                lemma_every_node(*left, lo, Some(key), k);
            } else {
                assert(right.map().contains_key(k));
                lemma_every_node(*right, Some(key), hi, k);
            }
        },
    }
}

/// Only the empty tree holds no pair.
pub proof fn lemma_map_empty(s: Shape)
    ensures
        s is Nil <==> s.map() == Map::<Seq<u8>, Seq<u8>>::empty(),
{
    match s {
        Shape::Nil => {},
        Shape::Node { left, key, value, right } => {
            assert(s.map().contains_key(key));
        },
    }
}

/// Two trees that are stored in the same records and have the same link are
/// the same tree.
pub proof fn lemma_stored_unique(a: Shape, b: Shape, recs: Map<Seq<u8>, NodeView>)
    requires
        a.stored(recs),
        b.stored(recs),
        a.link() == b.link(),
    ensures
        a == b,
    decreases a,
{
    match a {
        Shape::Nil => {},
        Shape::Node { left, key, value, right } => {
            assert(b is Node);
            assert(b->key == key);
            assert(a.record() == b.record());
            lemma_stored_unique(*left, *b->left, recs);
            lemma_stored_unique(*right, *b->right, recs);
        },
    }
}

} // verus!
