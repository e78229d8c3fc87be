//! The tree in memory: nodes whose children are either held in memory or
//! known by their link only and fetched from the store when needed.

use crate::batch::{
    batch_view, before, behind, bits, destroyed_by, hits, key_set, lemma_bits_monotonic,
    lemma_lower_unique, lemma_split, lower, puts, sized, sorted, within, EntryView,
    TreeBatchEntry, TreeOp,
};
use crate::bytes::{between, compare_keys, copy_bytes, KeyOrder};
use crate::error::Error;
use crate::hash::kv_digest;
use crate::node::{decode_node, link_view, Link, Node, NodeView};
use crate::shape::{
    joinable, lemma_join, lemma_rebalance, lemma_record, lemma_without_min, min_key, min_value,
    node, taller, without_min, Shape,
};
use crate::store::Database;
use vstd::prelude::*;

verus! {

/// The node records that a store holds: under each key whose bytes are a
/// node, that node.
pub open spec fn records(m: Map<Seq<u8>, Seq<u8>>) -> Map<Seq<u8>, NodeView> {
    Map::new(
        |k: Seq<u8>| m.contains_key(k) && decode_node(k, m[k]) is Some,
        |k: Seq<u8>| decode_node(k, m[k]).unwrap(),
    )
}

/// Reads the node stored under `key`. Fails with `KeyNotFound` where the
/// store has no such key, and with `DecodeError` where what it has there is
/// no node.
pub fn get_node<D: Database>(db: &D, key: &[u8]) -> (r: Result<Node, Error>)
    requires
        db.inv(),
    ensures
        match r {
            Ok(n) => records(db.contents()).contains_key(key@) && n@ == records(
                db.contents(),
            )[key@],
            Err(e) => !records(db.contents()).contains_key(key@) && (e == Error::KeyNotFound
                <==> !db.contents().contains_key(key@)) && (e == Error::DecodeError
                <==> db.contents().contains_key(key@)),
        },
{
    match db.get(key) {
        Some(bytes) => Node::decode(key, bytes.as_slice()),
        None => Err(Error::KeyNotFound),
    }
}

/// A node in memory with, on either side, the child in memory if it was
/// fetched.
pub struct SparseTree {
    node: Node,
    left: Option<Box<SparseTree>>,
    right: Option<Box<SparseTree>>,
    dirty: bool,
    shape: Ghost<Shape>,
}

/// A subtree taken out of its parent: nothing, a link only, or a node in
/// memory together with its link.
struct Child {
    link: Option<Link>,
    tree: Option<Box<SparseTree>>,
    shape: Ghost<Shape>,
}

impl SparseTree {
    /// The whole tree below this node as a mathematical value, the parts
    /// that are not in memory included.
    pub closed spec fn shape(&self) -> Shape {
        self.shape@
    }

    /// The node and all that hangs below it is what `shape` says: the node
    /// is the root's record, links included; a child in memory is well
    /// formed in turn; a child known by link only is in `recs` with all its
    /// subtree; and a node that was not changed since it was fetched is in
    /// `recs` as it stands.
    pub closed spec fn wf(&self, recs: Map<Seq<u8>, NodeView>) -> bool
        decreases self,
    {
        &&& self.shape@ is Node
        &&& self.shape@.height() <= 255
        &&& self.node@ == self.shape@.record()
        &&& match self.left {
            Some(c) => c.shape@ == *self.shape@->left && c.wf(recs),
            None => self.shape@->left.stored(recs),
        }
        &&& match self.right {
            Some(c) => c.shape@ == *self.shape@->right && c.wf(recs),
            None => self.shape@->right.stored(recs),
        }
        &&& !self.dirty ==> recs.contains_key(self.node@.key) && recs[self.node@.key]
            == self.node@
    }

    /// Whether the node was created or changed since it was last stored.
    pub closed spec fn is_dirty(&self) -> bool {
        self.dirty
    }

    /// Neither child is held in memory.
    pub closed spec fn is_pruned(&self) -> bool {
        self.left is None && self.right is None
    }

    /// The node itself, as it is stored.
    pub closed spec fn node_view(&self) -> NodeView {
        self.node@
    }
}

impl Child {
    spec fn wf(&self, recs: Map<Seq<u8>, NodeView>) -> bool {
        &&& self.shape@.height() <= 255
        &&& link_view(self.link) == self.shape@.link()
        &&& match self.tree {
            Some(t) => t.shape@ == self.shape@ && t.wf(recs),
            None => self.shape@.stored(recs),
        }
    }

    fn height(&self, Ghost(recs): Ghost<Map<Seq<u8>, NodeView>>) -> (h: u8)
        requires
            self.wf(recs),
        ensures
            h as nat == self.shape@.height(),
    {
        match &self.link {
            Some(l) => l.height,
            None => 0,
        }
    }

    fn is_empty(&self, Ghost(recs): Ghost<Map<Seq<u8>, NodeView>>) -> (r: bool)
        requires
            self.wf(recs),
        ensures
            r == (self.shape@ is Nil),
    {
        self.link.is_none()
    }

    fn empty(Ghost(recs): Ghost<Map<Seq<u8>, NodeView>>) -> (c: Child)
        ensures
            c.wf(recs),
            c.shape@ is Nil,
    {
        Child { link: None, tree: None, shape: Ghost(Shape::Nil) }
    }
}

/// Fetches the node that a link points to; its children are links only.
fn load<D: Database>(db: &D, link: &Link, Ghost(s): Ghost<Shape>) -> (r: Result<
    Box<SparseTree>,
    Error,
>)
    requires
        db.inv(),
        s.stored(records(db.contents())),
        s.link() == Some(link@),
        s.height() <= 255,
    ensures
        r matches Ok(t) && t.wf(records(db.contents())) && t.shape@ == s && !t.dirty,
{
    match get_node(db, link.key.as_slice()) {
        Ok(node) => Ok(
            Box::new(SparseTree { node, left: None, right: None, dirty: false, shape: Ghost(s) }),
        ),
        Err(e) => Err(e),
    }
}

/// The child as a node in memory, fetched if it was a link only.
fn open<D: Database>(c: Child, db: &D) -> (r: Result<Box<SparseTree>, Error>)
    requires
        db.inv(),
        c.wf(records(db.contents())),
        c.shape@ is Node,
    ensures
        r matches Ok(t) && t.wf(records(db.contents())) && t.shape@ == c.shape@,
{
    let Child { link, tree, shape } = c;
    match tree {
        Some(t) => Ok(t),
        None => match link {
            Some(l) => load(db, &l, shape),
            None => Err(Error::KeyNotFound),
        },
    }
}

/// Takes a node apart into its pair and its two children.
fn split(t: Box<SparseTree>, Ghost(recs): Ghost<Map<Seq<u8>, NodeView>>) -> (parts: (
    Child,
    Vec<u8>,
    Vec<u8>,
    crate::hash::Hash,
    Child,
))
    requires
        t.wf(recs),
    ensures
        parts.0.wf(recs),
        parts.4.wf(recs),
        parts.0.shape@ == *t.shape@->left,
        parts.4.shape@ == *t.shape@->right,
        parts.1@ == t.shape@->key,
        parts.2@ == t.shape@->value,
        parts.3@ == kv_digest(parts.1@, parts.2@),
        t.shape@ == node(parts.0.shape@, parts.1@, parts.2@, parts.4.shape@),
{
    let SparseTree { node, left, right, dirty: _, shape } = *t;
    let Node { key, value, kv_hash, left: left_link, right: right_link } = node;
    let l = Child { link: left_link, tree: left, shape: Ghost(*shape@->left) };
    let r = Child { link: right_link, tree: right, shape: Ghost(*shape@->right) };
    (l, key, value, kv_hash, r)
}

/// Puts a pair and two children together into a node.
fn assemble(
    l: Child,
    key: Vec<u8>,
    value: Vec<u8>,
    kv_hash: crate::hash::Hash,
    r: Child,
    Ghost(recs): Ghost<Map<Seq<u8>, NodeView>>,
) -> (t: Box<SparseTree>)
    requires
        l.wf(recs),
        r.wf(recs),
        kv_hash@ == kv_digest(key@, value@),
        taller(l.shape@.height(), r.shape@.height()) + 1 <= 255,
    ensures
        t.wf(recs),
        t.shape@ == node(l.shape@, key@, value@, r.shape@),
{
    let Child { link: left_link, tree: left, shape: ls } = l;
    let Child { link: right_link, tree: right, shape: rs } = r;
    let node = Node { key, value, kv_hash, left: left_link, right: right_link };
    Box::new(
        SparseTree {
            node,
            left,
            right,
            dirty: true,
            shape: Ghost(crate::shape::node(ls@, key@, value@, rs@)),
        },
    )
}

/// A node in memory as a child, with its link.
fn seal(t: Box<SparseTree>, Ghost(recs): Ghost<Map<Seq<u8>, NodeView>>) -> (c: Child)
    requires
        t.wf(recs),
    ensures
        c.wf(recs),
        c.shape@ == t.shape@,
{
    proof {
        lemma_record(t.shape@);
    }
    let link = t.node.as_link();
    let ghost s = t.shape@;
    Child { link: Some(link), tree: Some(t), shape: Ghost(s) }
}

/// The node of the pair over the two children, rotated where one child is
/// higher than the other by two.
fn rebalance<D: Database>(
    l: Child,
    key: Vec<u8>,
    value: Vec<u8>,
    kv_hash: crate::hash::Hash,
    r: Child,
    db: &D,
    Ghost(lo): Ghost<Option<Seq<u8>>>,
    Ghost(hi): Ghost<Option<Seq<u8>>>,
) -> (res: Result<Box<SparseTree>, Error>)
    requires
        db.inv(),
        l.wf(records(db.contents())),
        r.wf(records(db.contents())),
        kv_hash@ == kv_digest(key@, value@),
        joinable(l.shape@, key@, value@, r.shape@, lo, hi),
        l.shape@.height() <= r.shape@.height() + 2,
        r.shape@.height() <= l.shape@.height() + 2,
    ensures
        res matches Ok(t) && t.wf(records(db.contents())) && t.shape@ == crate::shape::rebalance(
            l.shape@,
            key@,
            value@,
            r.shape@,
        ),
{
    let ghost recs = records(db.contents());
    proof {
        lemma_rebalance(l.shape@, key@, value@, r.shape@, lo, hi);
        reveal_with_fuel(Shape::ok, 3);
        reveal_with_fuel(Shape::height, 3);
    }
    let lh = l.height(Ghost(recs));
    let rh = r.height(Ghost(recs));
    if rh > lh && rh - lh > 1 {
        let rt = match open(r, db) {
            Ok(t) => t,
            Err(e) => { return Err(e); },
        };
        let (rl, rk, rv, rkv, rr) = split(rt, Ghost(recs));
        if rl.height(Ghost(recs)) <= rr.height(Ghost(recs)) {
            let inner = assemble(l, key, value, kv_hash, rl, Ghost(recs));
            Ok(assemble(seal(inner, Ghost(recs)), rk, rv, rkv, rr, Ghost(recs)))
        } else {
            let rlt = match open(rl, db) {
                Ok(t) => t,
                Err(e) => { return Err(e); },
            };
            let (a, mid_key, mid_value, mid_hash, b) = split(rlt, Ghost(recs));
            let left = assemble(l, key, value, kv_hash, a, Ghost(recs));
            let right = assemble(b, rk, rv, rkv, rr, Ghost(recs));
            let left = seal(left, Ghost(recs));
            let right = seal(right, Ghost(recs));
            Ok(assemble(left, mid_key, mid_value, mid_hash, right, Ghost(recs)))
        }
    } else if lh > rh && lh - rh > 1 {
        let lt = match open(l, db) {
            Ok(t) => t,
            Err(e) => { return Err(e); },
        };
        let (ll, lk, lv, lkv, lr) = split(lt, Ghost(recs));
        if lr.height(Ghost(recs)) <= ll.height(Ghost(recs)) {
            let inner = assemble(lr, key, value, kv_hash, r, Ghost(recs));
            Ok(assemble(ll, lk, lv, lkv, seal(inner, Ghost(recs)), Ghost(recs)))
        } else {
            let lrt = match open(lr, db) {
                Ok(t) => t,
                Err(e) => { return Err(e); },
            };
            let (a, mid_key, mid_value, mid_hash, b) = split(lrt, Ghost(recs));
            let left = assemble(ll, lk, lv, lkv, a, Ghost(recs));
            let right = assemble(b, key, value, kv_hash, r, Ghost(recs));
            let left = seal(left, Ghost(recs));
            let right = seal(right, Ghost(recs));
            Ok(assemble(left, mid_key, mid_value, mid_hash, right, Ghost(recs)))
        }
    } else {
        Ok(assemble(l, key, value, kv_hash, r, Ghost(recs)))
    }
}

/// The balanced node of all of `l`, the pair, and all of `r`.
fn join<D: Database>(
    l: Child,
    key: Vec<u8>,
    value: Vec<u8>,
    kv_hash: crate::hash::Hash,
    r: Child,
    db: &D,
    Ghost(lo): Ghost<Option<Seq<u8>>>,
    Ghost(hi): Ghost<Option<Seq<u8>>>,
) -> (res: Result<Box<SparseTree>, Error>)
    requires
        db.inv(),
        l.wf(records(db.contents())),
        r.wf(records(db.contents())),
        kv_hash@ == kv_digest(key@, value@),
        joinable(l.shape@, key@, value@, r.shape@, lo, hi),
    ensures
        res matches Ok(t) && t.wf(records(db.contents())) && t.shape@ == crate::shape::join(
            l.shape@,
            key@,
            value@,
            r.shape@,
        ),
    decreases l.shape@, r.shape@,
{
    let ghost recs = records(db.contents());
    let ghost ls = l.shape@;
    let ghost rs = r.shape@;
    let lh = l.height(Ghost(recs));
    let rh = r.height(Ghost(recs));
    if lh > rh && lh - rh > 1 {
        let lt = match open(l, db) {
            Ok(t) => t,
            Err(e) => { return Err(e); },
        };
        let (ll, lk, lv, lkv, lr) = split(lt, Ghost(recs));
        proof {
            lemma_join(lr.shape@, key@, value@, rs, Some(lk@), hi);
            crate::shape::lemma_between_widen(lo, lk@, Some(key@), lo, hi);
        }
        let t = match join(lr, key, value, kv_hash, r, db, Ghost(Some(lk@)), Ghost(hi)) {
            Ok(t) => t,
            Err(e) => { return Err(e); },
        };
        rebalance(ll, lk, lv, lkv, seal(t, Ghost(recs)), db, Ghost(lo), Ghost(hi))
    } else if rh > lh && rh - lh > 1 {
        let rt = match open(r, db) {
            Ok(t) => t,
            Err(e) => { return Err(e); },
        };
        let (rl, rk, rv, rkv, rr) = split(rt, Ghost(recs));
        proof {
            lemma_join(ls, key@, value@, rl.shape@, lo, Some(rk@));
            crate::shape::lemma_between_widen(Some(key@), rk@, hi, lo, hi);
        }
        let t = match join(l, key, value, kv_hash, rl, db, Ghost(lo), Ghost(Some(rk@))) {
            Ok(t) => t,
            Err(e) => { return Err(e); },
        };
        rebalance(seal(t, Ghost(recs)), rk, rv, rkv, rr, db, Ghost(lo), Ghost(hi))
    } else {
        Ok(assemble(l, key, value, kv_hash, r, Ghost(recs)))
    }
}

/// Takes the least pair out of the tree below `t`.
fn remove_min<D: Database>(
    t: Box<SparseTree>,
    db: &D,
    Ghost(lo): Ghost<Option<Seq<u8>>>,
    Ghost(hi): Ghost<Option<Seq<u8>>>,
) -> (res: Result<(Child, Vec<u8>, Vec<u8>, crate::hash::Hash), Error>)
    requires
        db.inv(),
        t.wf(records(db.contents())),
        t.shape@.ok(lo, hi),
    ensures
        res matches Ok(p) && p.0.wf(records(db.contents())) && p.0.shape@ == without_min(t.shape@)
            && p.1@ == min_key(t.shape@) && p.2@ == min_value(t.shape@) && p.3@ == kv_digest(
            p.1@,
            p.2@,
        ),
    decreases t.shape@,
{
    let ghost recs = records(db.contents());
    let ghost s = t.shape@;
    let (l, k, v, h, r) = split(t, Ghost(recs));
    if l.is_empty(Ghost(recs)) {
        Ok((r, k, v, h))
    } else {
        let ghost ls = l.shape@;
        proof {
            lemma_without_min(ls, lo, Some(k@));
        }
        let lt = match open(l, db) {
            Ok(t) => t,
            Err(e) => { return Err(e); },
        };
        let least = remove_min(lt, db, Ghost(lo), Ghost(Some(k@)));
        let (l2, least_key, least_value, least_hash) = match least {
            Ok(p) => p,
            Err(e) => { return Err(e); },
        };
        let t2 = match rebalance(l2, k, v, h, r, db, Ghost(Some(least_key@)), Ghost(hi)) {
            Ok(t) => t,
            Err(e) => { return Err(e); },
        };
        Ok((seal(t2, Ghost(recs)), least_key, least_value, least_hash))
    }
}

/// What is left where the root between `l` and `r` is deleted.
fn join2<D: Database>(
    l: Child,
    r: Child,
    db: &D,
    Ghost(key): Ghost<Seq<u8>>,
    Ghost(lo): Ghost<Option<Seq<u8>>>,
    Ghost(hi): Ghost<Option<Seq<u8>>>,
) -> (res: Result<Child, Error>)
    requires
        db.inv(),
        l.wf(records(db.contents())),
        r.wf(records(db.contents())),
        l.shape@.ok(lo, Some(key)),
        r.shape@.ok(Some(key), hi),
        between(lo, key, hi),
        taller(l.shape@.height(), r.shape@.height()) + 1 <= 255,
    ensures
        res matches Ok(c) && c.wf(records(db.contents())) && c.shape@ == crate::shape::join2(
            l.shape@,
            r.shape@,
        ),
{
    let ghost recs = records(db.contents());
    let ghost ls = l.shape@;
    let ghost rs = r.shape@;
    if l.is_empty(Ghost(recs)) {
        Ok(r)
    } else if r.is_empty(Ghost(recs)) {
        Ok(l)
    } else {
        proof {
            lemma_without_min(rs, Some(key), hi);
            crate::shape::lemma_ok_widen(ls, lo, Some(key), lo, Some(min_key(rs)));
            crate::shape::lemma_between_widen(Some(key), min_key(rs), hi, lo, hi);
        }
        let rt = match open(r, db) {
            Ok(t) => t,
            Err(e) => { return Err(e); },
        };
        let least = remove_min(rt, db, Ghost(Some(key)), Ghost(hi));
        let (r2, least_key, least_value, least_hash) = match least {
            Ok(p) => p,
            Err(e) => { return Err(e); },
        };
        let t = match join(l, least_key, least_value, least_hash, r2, db, Ghost(lo), Ghost(hi)) {
            Ok(t) => t,
            Err(e) => { return Err(e); },
        };
        Ok(seal(t, Ghost(recs)))
    }
}

/// The entries of `b` at the indices `idx`.
spec fn picked(b: Seq<EntryView>, idx: Seq<usize>) -> Seq<EntryView> {
    Seq::new(idx.len(), |j: int| b[idx[j] as int])
}

/// The indices of the entries from `from` up to `to` that put a value.
fn collect_puts(batch: &Vec<TreeBatchEntry>, from: usize, to: usize) -> (idx: Vec<usize>)
    requires
        from <= to <= batch@.len(),
    ensures
        picked(batch_view(batch@), idx@) == puts(
            batch_view(batch@).subrange(from as int, to as int),
        ),
        forall|j: int| 0 <= j < idx@.len() ==> (#[trigger] idx@[j]) < batch@.len(),
{
    let mut idx: Vec<usize> = Vec::new();
    let mut i = from;
    let ghost bv = batch_view(batch@);
    while i < to
        invariant
            from <= i <= to <= batch@.len(),
            bv == batch_view(batch@),
            picked(bv, idx@) == puts(bv.subrange(from as int, i as int)),
            forall|j: int| 0 <= j < idx@.len() ==> (#[trigger] idx@[j]) < batch@.len(),
        decreases to - i,
    {
        let ghost prev = bv.subrange(from as int, i as int);
        let ghost cur = bv.subrange(from as int, i + 1);
        proof {
            assert(cur.drop_last() =~= prev);
            assert(cur.last() == bv[i as int]);
        }
        match &batch[i].1 {
            TreeOp::Put(_) => {
                let ghost before_push = idx@;
                idx.push(i);
                assert(picked(bv, idx@) =~= picked(bv, before_push).push(bv[i as int]));
            },
            TreeOp::Delete => {},
        }
        i += 1;
    }
    idx
}

/// The balanced tree of the entries at the indices from `a` up to `b` of
/// `idx`, all new nodes.
fn build_range(
    batch: &Vec<TreeBatchEntry>,
    idx: &Vec<usize>,
    a: usize,
    b: usize,
    Ghost(recs): Ghost<Map<Seq<u8>, NodeView>>,
) -> (c: Child)
    requires
        a <= b <= idx@.len(),
        forall|j: int| 0 <= j < idx@.len() ==> (#[trigger] idx@[j]) < batch@.len(),
        sorted(picked(batch_view(batch@), idx@)),
        sized(picked(batch_view(batch@), idx@)),
        crate::batch::all_puts(picked(batch_view(batch@), idx@)),
        bits(idx@.len()) <= 255,
    ensures
        c.wf(recs),
        c.shape@ == crate::model::build(
            picked(batch_view(batch@), idx@).subrange(a as int, b as int),
        ),
    decreases b - a,
{
    let ghost pv = picked(batch_view(batch@), idx@);
    let ghost e = pv.subrange(a as int, b as int);
    if a == b {
        return Child::empty(Ghost(recs));
    }
    let mid = a + (b - a) / 2;
    proof {
        assert(sorted(e) && sized(e) && crate::batch::all_puts(e)) by {
            assert forall|i: int| 0 <= i < e.len() implies e[i] == pv[a + i] by {}
            assert forall|i: int, j: int| 0 <= i < j < e.len() implies crate::bytes::lex_lt(
                #[trigger] e[i].0,
                #[trigger] e[j].0,
            ) by {
                assert(e[i] == pv[a + i] && e[j] == pv[a + j]);
            }
        }
        lemma_bits_monotonic(e.len(), idx@.len());
        crate::model::lemma_build(e, None, None);
        let m = (e.len() / 2) as int;
        assert(m == mid - a);
        assert(e.subrange(0, m) =~= pv.subrange(a as int, mid as int));
        assert(e.subrange(m + 1, e.len() as int) =~= pv.subrange(mid + 1, b as int));
        assert(e[m] == pv[mid as int]);
    }
    let l = build_range(batch, idx, a, mid, Ghost(recs));
    let r = build_range(batch, idx, mid + 1, b, Ghost(recs));
    let entry = &batch[idx[mid]];
    let key = copy_bytes(entry.0);
    let value = match &entry.1 {
        TreeOp::Put(v) => copy_bytes(v.as_slice()),
        TreeOp::Delete => Vec::new(),
    };
    let kv_hash = crate::hash::kv_hash(key.as_slice(), value.as_slice());
    let t = assemble(l, key, value, kv_hash, r, Ghost(recs));
    seal(t, Ghost(recs))
}

/// The first index from `from` up to `to` whose key does not sort before
/// `key`, found by halving.
fn find_lower(batch: &Vec<TreeBatchEntry>, from: usize, to: usize, key: &[u8]) -> (p: usize)
    requires
        from <= to <= batch@.len(),
        sorted(batch_view(batch@).subrange(from as int, to as int)),
    ensures
        from <= p <= to,
        p - from == lower(batch_view(batch@).subrange(from as int, to as int), key@),
{
    let ghost b = batch_view(batch@).subrange(from as int, to as int);
    let mut lo = from;
    let mut hi = to;
    while lo < hi
        invariant
            from <= lo <= hi <= to <= batch@.len(),
            b == batch_view(batch@).subrange(from as int, to as int),
            sorted(b),
            forall|j: int| 0 <= j < lo - from ==> crate::bytes::lex_lt((#[trigger] b[j]).0, key@),
            forall|j: int|
                hi - from <= j < b.len() ==> !crate::bytes::lex_lt((#[trigger] b[j]).0, key@),
        decreases hi - lo,
    {
        let mid = lo + (hi - lo) / 2;
        let ghost m = mid - from;
        assert(b[m] == batch_view(batch@)[mid as int]);
        if compare_keys(batch[mid].0, key) == KeyOrder::Before {
            assert forall|j: int| 0 <= j < m + 1 implies crate::bytes::lex_lt(
                (#[trigger] b[j]).0,
                key@,
            ) by {
                if j < m {
                    crate::bytes::lemma_lex_transitive(b[j].0, b[m].0, key@);
                }
            }
            lo = mid + 1;
        } else {
            assert forall|j: int| m <= j < b.len() implies !crate::bytes::lex_lt(
                (#[trigger] b[j]).0,
                key@,
            ) by {
                if j > m && crate::bytes::lex_lt(b[j].0, key@) {
                    crate::bytes::lemma_lex_transitive(b[m].0, b[j].0, key@);
                }
            }
            hi = mid;
        }
    }
    proof {
        lemma_lower_unique(b, key@, lo - from);
    }
    lo
}

/// Where the index `p` cuts the part of a batch from `from` up to `to` at
/// the key of the root of `s`: what the two parts are, that `apply` may go
/// down into the two subtrees with them, and what `apply` gives of the two
/// results.
proof fn lemma_descend(
    s: Shape,
    bv: Seq<EntryView>,
    from: int,
    to: int,
    p: int,
    lo: Option<Seq<u8>>,
    hi: Option<Seq<u8>>,
)
    requires
        s is Node,
        s.ok(lo, hi),
        0 <= from < to <= bv.len(),
        from <= p <= to,
        sorted(bv.subrange(from, to)),
        sized(bv.subrange(from, to)),
        within(bv.subrange(from, to), lo, hi),
        s.height() + bits((to - from) as nat) <= 255,
        p - from == lower(bv.subrange(from, to), s->key),
    ensures
        ({
            let b = bv.subrange(from, to);
            let k = s->key;
            let hit = p < to && bv[p].0 == k;
            let next = if hit {
                p + 1
            } else {
                p
            };
            let bl = bv.subrange(from, p);
            let br = bv.subrange(next, to);
            let l2 = crate::model::apply(*s->left, bl);
            let r2 = crate::model::apply(*s->right, br);
            &&& sorted(bl) && sized(bl) && within(bl, lo, Some(k))
            &&& sorted(br) && sized(br) && within(br, Some(k), hi)
            &&& s->left.ok(lo, Some(k)) && s->right.ok(Some(k), hi)
            &&& s->left.height() + bits((p - from) as nat) <= 255
            &&& s->right.height() + bits((to - next) as nat) <= 255
            &&& l2.ok(lo, Some(k)) && r2.ok(Some(k), hi)
            &&& between(lo, k, hi)
            &&& k.len() <= 255
            &&& s->value.len() <= 65535
            &&& taller(l2.height(), r2.height()) + 1 <= 255
            &&& hit ==> (bv[p].1 matches Some(v) ==> v.len() <= 65535)
            &&& crate::model::apply(s, b) == if hit {
                match bv[p].1 {
                    Some(v) => crate::shape::join(l2, k, v, r2),
                    None => crate::shape::join2(l2, r2),
                }
            } else {
                crate::shape::join(l2, k, s->value, r2)
            }
            &&& destroyed_by(s.map(), b) == if hit && bv[p].1 is None {
                destroyed_by(s->left.map(), bl).union(destroyed_by(s->right.map(), br)).insert(k)
            } else {
                destroyed_by(s->left.map(), bl).union(destroyed_by(s->right.map(), br))
            }
        }),
{
    let b = bv.subrange(from, to);
    let k = s->key;
    let hit = p < to && bv[p].0 == k;
    let next = if hit {
        p + 1
    } else {
        p
    };
    lemma_cut(bv, from, to, p, k, lo, hi);
    let bl = bv.subrange(from, p);
    let br = bv.subrange(next, to);
    assert(s->left.ok(lo, Some(k)) && s->right.ok(Some(k), hi));
    assert(s->left.height() + 1 <= s.height() && s->right.height() + 1 <= s.height());
    lemma_bits_monotonic((p - from) as nat, (to - from) as nat);
    lemma_bits_monotonic((to - next) as nat, (to - from) as nat);
    crate::model::lemma_apply(*s->left, bl, lo, Some(k));
    crate::model::lemma_apply(*s->right, br, Some(k), hi);
    lemma_taken(s, b, lo, hi);
}

/// What a batch takes out of the pairs below a node, by the two parts of
/// the batch.
proof fn lemma_taken(s: Shape, b: Seq<EntryView>, lo: Option<Seq<u8>>, hi: Option<Seq<u8>>)
    requires
        s is Node,
        s.ok(lo, hi),
        sorted(b),
    ensures
        destroyed_by(s.map(), b) == if hits(b, s->key) && b[lower(b, s->key)].1 is None {
            destroyed_by(s->left.map(), before(b, s->key)).union(
                destroyed_by(s->right.map(), behind(b, s->key)),
            ).insert(s->key)
        } else {
            destroyed_by(s->left.map(), before(b, s->key)).union(
                destroyed_by(s->right.map(), behind(b, s->key)),
            )
        },
{
    let k = s->key;
    lemma_split(b, k, lo, hi);
    crate::shape::lemma_apart(*s->left, *s->right, lo, k, hi);
    crate::shape::lemma_sides(s, lo, hi);
    let own: Option<Option<Seq<u8>>> = if hits(b, k) {
        Some(b[lower(b, k)].1)
    } else {
        None
    };
    crate::batch::lemma_destroyed(
        s.map(),
        s->left.map(),
        s->right.map(),
        k,
        b,
        before(b, k),
        behind(b, k),
        own,
    );
}

/// The two parts into which the index `p` cuts the part of a batch from
/// `from` up to `to` are the entries before and behind the key `k`.
proof fn lemma_cut(
    bv: Seq<EntryView>,
    from: int,
    to: int,
    p: int,
    k: Seq<u8>,
    lo: Option<Seq<u8>>,
    hi: Option<Seq<u8>>,
)
    requires
        0 <= from < to <= bv.len(),
        from <= p <= to,
        sorted(bv.subrange(from, to)),
        sized(bv.subrange(from, to)),
        within(bv.subrange(from, to), lo, hi),
        p - from == lower(bv.subrange(from, to), k),
    ensures
        ({
            let b = bv.subrange(from, to);
            let hit = p < to && bv[p].0 == k;
            let next = if hit {
                p + 1
            } else {
                p
            };
            let bl = bv.subrange(from, p);
            let br = bv.subrange(next, to);
            &&& hit == hits(b, k)
            &&& bl == before(b, k)
            &&& br == behind(b, k)
            &&& p < to ==> b[lower(b, k)] == bv[p]
            &&& sorted(bl) && sized(bl) && within(bl, lo, Some(k))
            &&& sorted(br) && sized(br) && within(br, Some(k), hi)
            &&& hit ==> (bv[p].1 matches Some(v) ==> v.len() <= 65535)
        }),
{
    let b = bv.subrange(from, to);
    let hit = p < to && bv[p].0 == k;
    let next = if hit {
        p + 1
    } else {
        p
    };
    lemma_split(b, k, lo, hi);
    if p < to {
        assert(b[p - from] == bv[p]);
    }
    assert(hit == hits(b, k));
    assert(before(b, k) =~= bv.subrange(from, p));
    assert(behind(b, k) =~= bv.subrange(next, to));
}

/// Applies the entries from `from` up to `to` of the sorted batch to the
/// child.
fn apply_child<D: Database>(
    c: Child,
    db: &D,
    batch: &Vec<TreeBatchEntry>,
    from: usize,
    to: usize,
    destroyed: &mut Vec<Vec<u8>>,
    Ghost(lo): Ghost<Option<Seq<u8>>>,
    Ghost(hi): Ghost<Option<Seq<u8>>>,
) -> (res: Result<Child, Error>)
    requires
        db.inv(),
        c.wf(records(db.contents())),
        c.shape@.ok(lo, hi),
        from <= to <= batch@.len(),
        sorted(batch_view(batch@).subrange(from as int, to as int)),
        sized(batch_view(batch@).subrange(from as int, to as int)),
        within(batch_view(batch@).subrange(from as int, to as int), lo, hi),
        c.shape@.height() + bits((to - from) as nat) <= 255,
    ensures
        res matches Ok(c2) && c2.wf(records(db.contents())) && c2.shape@ == crate::model::apply(
            c.shape@,
            batch_view(batch@).subrange(from as int, to as int),
        ),
        key_set(final(destroyed)@) == key_set(old(destroyed)@).union(
            destroyed_by(c.shape@.map(), batch_view(batch@).subrange(from as int, to as int)),
        ),
    decreases c.shape@,
{
    let ghost recs = records(db.contents());
    let ghost bv = batch_view(batch@);
    let ghost s = c.shape@;
    let ghost d0 = key_set(destroyed@);
    if from == to {
        assert(d0.union(destroyed_by(s.map(), bv.subrange(from as int, to as int))) =~= d0);
        return Ok(c);
    }
    if c.is_empty(Ghost(recs)) {
        assert(d0.union(destroyed_by(s.map(), bv.subrange(from as int, to as int))) =~= d0);
        return Ok(build_child(batch, from, to, Ghost(recs), Ghost(lo), Ghost(hi)));
    }
    let t = match open(c, db) {
        Ok(t) => t,
        Err(e) => { return Err(e); },
    };
    let (l, k, v, h, r) = split(t, Ghost(recs));
    let p = find_lower(batch, from, to, k.as_slice());
    let hit = p < to && compare_keys(batch[p].0, k.as_slice()) == KeyOrder::Same;
    let next = if hit {
        p + 1
    } else {
        p
    };
    proof {
        lemma_descend(s, bv, from as int, to as int, p as int, lo, hi);
    }
    let ghost dl = destroyed_by(s->left.map(), bv.subrange(from as int, p as int));
    let ghost dr = destroyed_by(s->right.map(), bv.subrange(next as int, to as int));
    let l2 = match apply_child(l, db, batch, from, p, destroyed, Ghost(lo), Ghost(Some(k@))) {
        Ok(c) => c,
        Err(e) => { return Err(e); },
    };
    let r2 = match apply_child(r, db, batch, next, to, destroyed, Ghost(Some(k@)), Ghost(hi)) {
        Ok(c) => c,
        Err(e) => { return Err(e); },
    };
    assert(key_set(destroyed@) =~= d0.union(dl.union(dr)));
    if hit {
        match &batch[p].1 {
            TreeOp::Put(nv) => {
                let value = copy_bytes(nv.as_slice());
                let kv_hash = crate::hash::kv_hash(k.as_slice(), value.as_slice());
                match join(l2, k, value, kv_hash, r2, db, Ghost(lo), Ghost(hi)) {
                    Ok(t) => Ok(seal(t, Ghost(recs))),
                    Err(e) => Err(e),
                }
            },
            TreeOp::Delete => {
                let res = join2(l2, r2, db, Ghost(k@), Ghost(lo), Ghost(hi));
                proof {
                    crate::batch::lemma_key_set_push(destroyed@, k);
                }
                let ghost key = k@;
                destroyed.push(k);
                assert(key_set(destroyed@) =~= d0.union(dl.union(dr).insert(key)));
                res
            },
        }
    } else {
        match join(l2, k, v, h, r2, db, Ghost(lo), Ghost(hi)) {
            Ok(t) => Ok(seal(t, Ghost(recs))),
            Err(e) => Err(e),
        }
    }
}

/// The balanced tree of what the entries from `from` up to `to` put: what
/// a batch makes of the empty tree.
fn build_child(
    batch: &Vec<TreeBatchEntry>,
    from: usize,
    to: usize,
    Ghost(recs): Ghost<Map<Seq<u8>, NodeView>>,
    Ghost(lo): Ghost<Option<Seq<u8>>>,
    Ghost(hi): Ghost<Option<Seq<u8>>>,
) -> (c: Child)
    requires
        from < to <= batch@.len(),
        sorted(batch_view(batch@).subrange(from as int, to as int)),
        sized(batch_view(batch@).subrange(from as int, to as int)),
        within(batch_view(batch@).subrange(from as int, to as int), lo, hi),
        bits((to - from) as nat) <= 255,
    ensures
        c.wf(recs),
        c.shape@ == crate::model::apply(
            Shape::Nil,
            batch_view(batch@).subrange(from as int, to as int),
        ),
{
    let ghost bv = batch_view(batch@);
    let ghost b = bv.subrange(from as int, to as int);
    let idx = collect_puts(batch, from, to);
    proof {
        crate::batch::lemma_puts(b, lo, hi);
        lemma_bits_monotonic(puts(b).len(), b.len());
        assert(picked(bv, idx@).subrange(0, idx@.len() as int) =~= picked(bv, idx@));
    }
    build_range(batch, &idx, 0, idx.len(), Ghost(recs))
}

/// The tree that a root slot holds: the empty tree for an empty slot.
pub open spec fn slot_shape(root: Option<Box<SparseTree>>) -> Shape {
    match root {
        Some(t) => t.shape(),
        None => Shape::Nil,
    }
}

/// The tree in the root slot, if any, is well formed over `recs`.
pub open spec fn slot_wf(root: Option<Box<SparseTree>>, recs: Map<Seq<u8>, NodeView>) -> bool {
    match root {
        Some(t) => t.wf(recs),
        None => true,
    }
}

impl SparseTree {
    /// Applies a batch, sorted by key and without length violations, to the
    /// tree in `root`, fetching from `db` the nodes it needs. Afterwards the
    /// slot holds the tree that `model::apply` defines: a balanced search
    /// tree with correct digests that holds what the batch makes of the
    /// pairs (`model::lemma_apply`).
    ///
    /// What the batch changed is on record for the flush: every node of the
    /// new tree is either marked as unsaved or in the store as it stands,
    /// and the keys that are gone, those that the tree held and the batch
    /// deletes, are added to `destroyed`.
    pub fn apply<D: Database>(
        root: &mut Option<Box<SparseTree>>,
        db: &D,
        batch: &Vec<TreeBatchEntry>,
        destroyed: &mut Vec<Vec<u8>>,
    ) -> (r: Result<(), Error>)
        requires
            db.inv(),
            slot_wf(*old(root), records(db.contents())),
            slot_shape(*old(root)).ok(None, None),
            sorted(batch_view(batch@)),
            sized(batch_view(batch@)),
            slot_shape(*old(root)).height() + bits(batch@.len()) <= 255,
        ensures
            r is Ok,
            slot_wf(*final(root), records(db.contents())),
            slot_shape(*final(root)) == crate::model::apply(
                slot_shape(*old(root)),
                batch_view(batch@),
            ),
            slot_shape(*final(root)).ok(None, None),
            slot_shape(*final(root)).map() == crate::batch::apply_batch(
                slot_shape(*old(root)).map(),
                batch_view(batch@),
            ),
            match *final(root) {
                Some(t) => forall|k: Seq<u8>| #[trigger]
                    t.shape().map().contains_key(k) ==> t.unsaved().contains(k) || (records(
                        db.contents(),
                    ).contains_key(k) && records(db.contents())[k] == crate::shape::find(
                        t.shape(),
                        k,
                    ).record()),
                None => true,
            },
            key_set(final(destroyed)@) == key_set(old(destroyed)@).union(
                destroyed_by(slot_shape(*old(root)).map(), batch_view(batch@)),
            ),
    {
        let ghost recs = records(db.contents());
        let ghost bv = batch_view(batch@);
        let ghost s = slot_shape(*root);
        let c = match root.take() {
            Some(t) => seal(t, Ghost(recs)),
            None => Child::empty(Ghost(recs)),
        };
        proof {
            assert(bv.subrange(0, batch@.len() as int) =~= bv);
            crate::model::lemma_apply(s, bv, None, None);
        }
        let applied = apply_child(c, db, batch, 0, batch.len(), destroyed, Ghost(None), Ghost(None));
        let c2 = match applied {
            Ok(c) => c,
            Err(e) => { return Err(e); },
        };
        if c2.is_empty(Ghost(recs)) {
            *root = None;
        } else {
            match open(c2, db) {
                Ok(t) => {
                    proof {
                        lemma_tree_flat(*t, recs, None, None);
                    }
                    *root = Some(t);
                },
                Err(e) => { return Err(e); },
            }
        }
        Ok(())
    }

    /// The key of the node.
    pub fn key(&self) -> (k: &[u8])
        ensures
            k@ == self.node_view().key,
    {
        self.node.key.as_slice()
    }

    /// The value of the node.
    pub fn value(&self) -> (v: &[u8])
        ensures
            v@ == self.node_view().value,
    {
        self.node.value.as_slice()
    }

    /// The node as it is stored.
    pub fn node(&self) -> (n: &Node)
        ensures
            n@ == self.node_view(),
    {
        &self.node
    }

    /// The height of the tree below the node, the node included.
    pub fn height(&self) -> (h: u8)
        requires
            self.node_view().height() <= 255,
        ensures
            h as int == self.node_view().height(),
    {
        self.node.height()
    }

    /// The digest of the tree below the node.
    pub fn hash(&self) -> (h: crate::hash::Hash)
        ensures
            h@ == self.node_view().digest(),
    {
        self.node.hash()
    }
}

/// A well-formed node records the height and the digest of its tree.
pub proof fn lemma_wf_node(t: SparseTree, recs: Map<Seq<u8>, NodeView>)
    requires
        t.wf(recs),
    ensures
        t.shape() is Node,
        t.node_view() == t.shape().record(),
        t.node_view().height() == t.shape().height(),
        t.node_view().digest() == t.shape().digest(),
        t.node_view().key == t.shape()->key,
        t.node_view().value == t.shape()->value,
        t.shape().height() <= 255,
{
    lemma_record(t.shape());
}

// ---------------------------------------------------------------------------
// What is to be written
// ---------------------------------------------------------------------------

/// `wb` lists a record to write for each key of `keys`, and nothing else:
/// under each key the bytes of the record of the node that has this key in
/// the tree `s`.
pub open spec fn writes_of(wb: Seq<(Vec<u8>, Vec<u8>)>, keys: Set<Seq<u8>>, s: Shape) -> bool {
    &&& forall|i: int|
        0 <= i < wb.len() ==> {
            &&& keys.contains((#[trigger] wb[i]).0@)
            &&& wb[i].1@ == crate::node::encode_node(crate::shape::find(s, wb[i].0@).record())
            &&& crate::shape::find(s, wb[i].0@).record().encodable()
        }
    &&& forall|k: Seq<u8>|
        keys.contains(k) ==> exists|i: int| 0 <= i < wb.len() && (#[trigger] wb[i]).0@ == k
}

impl SparseTree {
    /// The keys of the nodes in memory that were created or changed since
    /// they were last stored.
    pub closed spec fn unsaved(&self) -> Set<Seq<u8>>
        decreases self,
    {
        let own = if self.dirty {
            Set::<Seq<u8>>::empty().insert(self.node@.key)
        } else {
            Set::<Seq<u8>>::empty()
        };
        let l = match self.left {
            Some(c) => c.unsaved(),
            None => Set::<Seq<u8>>::empty(),
        };
        let r = match self.right {
            Some(c) => c.unsaved(),
            None => Set::<Seq<u8>>::empty(),
        };
        own.union(l).union(r)
    }

    /// A copy of the node alone, its children as links only.
    pub(crate) fn root_copy(&self) -> (t: Box<SparseTree>)
        ensures
            t.shape() == self.shape(),
            t.node_view() == self.node_view(),
            t.is_pruned(),
            t.is_dirty() == self.is_dirty(),
    {
        Box::new(
            SparseTree {
                node: self.node.clone(),
                left: None,
                right: None,
                dirty: self.dirty,
                shape: Ghost(self.shape@),
            },
        )
    }

    /// Wraps a fetched node; its children are links only.
    pub(crate) fn from_node(node: Node, Ghost(s): Ghost<Shape>) -> (t: Box<SparseTree>)
        ensures
            t.shape() == s,
            t.node_view() == node@,
            t.is_pruned(),
            !t.is_dirty(),
            t.unsaved() == Set::<Seq<u8>>::empty(),
            forall|recs: Map<Seq<u8>, NodeView>|
                s is Node && s.height() <= 255 && s.stored(recs) && node@ == s.record()
                    ==> #[trigger] t.wf(recs),
    {
        let t = Box::new(
            SparseTree { node, left: None, right: None, dirty: false, shape: Ghost(s) },
        );
        assert(t.unsaved() =~= Set::<Seq<u8>>::empty());
        t
    }

    /// Lets go of the children in memory; their links stay. The tree must
    /// be stored as a whole.
    pub fn prune(&mut self)
        ensures
            forall|recs: Map<Seq<u8>, NodeView>|
                old(self).shape().stored(recs) && old(self).shape() is Node && old(
                    self,
                ).shape().height() <= 255 && old(self).node_view() == old(self).shape().record()
                    ==> #[trigger] final(self).wf(recs),
            final(self).shape() == old(self).shape(),
            final(self).node_view() == old(self).node_view(),
            final(self).is_pruned(),
            !final(self).is_dirty(),
            final(self).unsaved() == Set::<Seq<u8>>::empty(),
    {
        self.left = None;
        self.right = None;
        self.dirty = false;
        assert(self.unsaved() =~= Set::<Seq<u8>>::empty());
    }

    fn collect(
        &self,
        out: &mut Vec<(Vec<u8>, Vec<u8>)>,
        Ghost(recs): Ghost<Map<Seq<u8>, NodeView>>,
        Ghost(rs): Ghost<Shape>,
        Ghost(acc): Ghost<Set<Seq<u8>>>,
        Ghost(lo): Ghost<Option<Seq<u8>>>,
        Ghost(hi): Ghost<Option<Seq<u8>>>,
    )
        requires
            self.wf(recs),
            self.shape@.ok(lo, hi),
            forall|k: Seq<u8>| #[trigger]
                self.shape@.map().contains_key(k) ==> crate::shape::find(rs, k)
                    == crate::shape::find(self.shape@, k),
            writes_of(old(out)@, acc, rs),
        ensures
            writes_of(final(out)@, acc.union(self.unsaved()), rs),
        decreases self,
    {
        let ghost s = self.shape@;
        let ghost key = s->key;
        proof {
            crate::shape::lemma_apart(*s->left, *s->right, lo, key, hi);
            assert forall|k: Seq<u8>| #[trigger] s->left.map().contains_key(k) implies
                crate::shape::find(rs, k) == crate::shape::find(*s->left, k) by {
                crate::shape::lemma_find(s, lo, hi, k);
                assert(s.map().contains_key(k));
            }
            assert forall|k: Seq<u8>| #[trigger] s->right.map().contains_key(k) implies
                crate::shape::find(rs, k) == crate::shape::find(*s->right, k) by {
                crate::shape::lemma_find(s, lo, hi, k);
                assert(s.map().contains_key(k));
            }
            assert(s.map().contains_key(key));
            assert(crate::shape::find(s, key) == s);
        }
        let ghost own = if self.dirty {
            Set::<Seq<u8>>::empty().insert(self.node@.key)
        } else {
            Set::<Seq<u8>>::empty()
        };
        if self.dirty {
            let bytes = match self.node.encode() {
                Ok(b) => b,
                Err(_) => Vec::new(),
            };
            let ghost before_push = out@;
            out.push((copy_bytes(self.node.key.as_slice()), bytes));
            proof {
                crate::node::lemma_node_encodable(self.node);
                let wb = out@;
                assert forall|i: int| 0 <= i < wb.len() implies {
                    &&& acc.union(own).contains((#[trigger] wb[i]).0@)
                    &&& wb[i].1@ == crate::node::encode_node(
                        crate::shape::find(rs, wb[i].0@).record(),
                    )
                    &&& crate::shape::find(rs, wb[i].0@).record().encodable()
                } by {
                    if i < before_push.len() {
                        assert(wb[i] == before_push[i]);
                    }
                }
                assert forall|k: Seq<u8>| acc.union(own).contains(k) implies exists|i: int|
                    0 <= i < wb.len() && (#[trigger] wb[i]).0@ == k by {
                    if acc.contains(k) {
                        let i = choose|i: int|
                            0 <= i < before_push.len() && (#[trigger] before_push[i]).0@ == k;
                        assert(wb[i].0@ == k);
                    } else {
                        assert(wb[before_push.len() as int].0@ == k);
                    }
                }
            }
        } else {
            assert(acc.union(own) =~= acc);
        }
        let ghost acc1 = acc.union(own);
        match &self.left {
            Some(c) => {
                c.collect(out, Ghost(recs), Ghost(rs), Ghost(acc1), Ghost(lo), Ghost(Some(key)));
            },
            None => {
                assert(acc1.union(Set::<Seq<u8>>::empty()) =~= acc1);
            },
        }
        let ghost lset = match &self.left {
            Some(c) => c.unsaved(),
            None => Set::<Seq<u8>>::empty(),
        };
        let ghost acc2 = acc1.union(lset);
        match &self.right {
            Some(c) => {
                c.collect(out, Ghost(recs), Ghost(rs), Ghost(acc2), Ghost(Some(key)), Ghost(hi));
            },
            None => {
                assert(acc2.union(Set::<Seq<u8>>::empty()) =~= acc2);
            },
        }
        let ghost rset = match &self.right {
            Some(c) => c.unsaved(),
            None => Set::<Seq<u8>>::empty(),
        };
        assert(acc2.union(rset) =~= acc.union(self.unsaved()));
    }

    /// The records to write so that the store holds the tree: one for each
    /// node in memory that was created or changed.
    pub fn modified(&self) -> (r: Result<crate::store::DbBatch, Error>)
        requires
            exists|recs: Map<Seq<u8>, NodeView>| self.wf(recs),
            self.shape().ok(None, None),
        ensures
            r matches Ok(wb) && writes_of(wb@, self.unsaved(), self.shape()),
    {
        let ghost recs = choose|recs: Map<Seq<u8>, NodeView>| self.wf(recs);
        let mut out: Vec<(Vec<u8>, Vec<u8>)> = Vec::new();
        let ghost none = Set::<Seq<u8>>::empty();
        self.collect(
            &mut out,
            Ghost(recs),
            Ghost(self.shape@),
            Ghost(none),
            Ghost(None),
            Ghost(None),
        );
        assert(none.union(self.unsaved()) =~= self.unsaved());
        Ok(out)
    }
}

/// Each key of a well-formed tree is either the key of a node that is yet
/// to be written or stored as the record of the node with that key; and
/// only keys of the tree are yet to be written.
pub proof fn lemma_tree_flat(
    t: SparseTree,
    recs: Map<Seq<u8>, NodeView>,
    lo: Option<Seq<u8>>,
    hi: Option<Seq<u8>>,
)
    requires
        t.wf(recs),
        t.shape().ok(lo, hi),
    ensures
        forall|k: Seq<u8>| #[trigger]
            t.shape().map().contains_key(k) ==> t.unsaved().contains(k) || (recs.contains_key(k)
                && recs[k] == crate::shape::find(t.shape(), k).record()),
        forall|k: Seq<u8>| #[trigger] t.unsaved().contains(k) ==> t.shape().map().contains_key(k),
    decreases t,
{
    let s = t.shape@;
    let key = s->key;
    crate::shape::lemma_apart(*s->left, *s->right, lo, key, hi);
    assert(s.map().contains_key(key));
    assert(crate::shape::find(s, key) == s);
    match t.left {
        Some(c) => {
            lemma_tree_flat(*c, recs, lo, Some(key));
        },
        None => {
            crate::shape::lemma_stored_flat(*s->left, recs, lo, Some(key));
        },
    }
    match t.right {
        Some(c) => {
            lemma_tree_flat(*c, recs, Some(key), hi);
        },
        None => {
            crate::shape::lemma_stored_flat(*s->right, recs, Some(key), hi);
        },
    }
    assert forall|k: Seq<u8>| #[trigger] t.unsaved().contains(k) implies s.map().contains_key(
        k,
    ) by {
        let l = match t.left {
            Some(c) => c.unsaved(),
            None => Set::<Seq<u8>>::empty(),
        };
        let r = match t.right {
            Some(c) => c.unsaved(),
            None => Set::<Seq<u8>>::empty(),
        };
        if l.contains(k) {
            assert(s->left.map().contains_key(k));
        } else if r.contains(k) {
            assert(s->right.map().contains_key(k));
        } else {
            assert(k == key);
        }
    }
    assert forall|k: Seq<u8>| #[trigger] s.map().contains_key(k) implies t.unsaved().contains(k)
        || (recs.contains_key(k) && recs[k] == crate::shape::find(s, k).record()) by {
        crate::shape::lemma_find(s, lo, hi, k);
        if k != key {
            if s->left.map().contains_key(k) {
            } else {
                assert(s->right.map().contains_key(k));
            }
        }
    }
}

} // verus!
