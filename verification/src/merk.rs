//! The handle to a tree in a store: it owns the store and the root of the
//! tree in memory, applies batches and commits them.

use crate::batch::{
    apply_batch, batch_view, bits, destroyed_by, has_duplicate, key_set, keys_sized,
    lemma_permuted, lemma_same_entries, sized, sorted, touches, values_sized, EntryView,
    TreeBatchEntry, TreeOp,
};
use crate::bytes::{
    compare_keys, copy_bytes, lemma_lex_asymmetric, lemma_lex_total, lex_lt, KeyOrder,
};
use crate::error::Error;
use crate::node::{encode_node, lemma_decode_encode, Node, NodeView};
use crate::shape::{find, lemma_find, lemma_stored_flat, Shape};
use crate::sort::{sort_by_key, weakly_sorted};
use crate::sparse_tree::{
    get_node, lemma_tree_flat, lemma_wf_node, records, slot_shape, slot_wf, writes_of, SparseTree,
};
use crate::store::{in_range, lists_range, write_all, Database};
use vstd::prelude::*;

verus! {

/// The key under which the store holds the key of the root node.
pub const ROOT_KEY_KEY: [u8; 5] = [0, 114, 111, 111, 116];

/// The reserved key as a sequence: a null byte and the letters of "root".
pub open spec fn root_key() -> Seq<u8> {
    seq![0u8, 114u8, 111u8, 111u8, 116u8]
}

/// The store `m` holds the tree `s` and nothing else: each node of the tree
/// under its key, as its record; under the reserved key the key of the
/// root; and no other key. For the empty tree the store is empty.
pub open spec fn store_ok(m: Map<Seq<u8>, Seq<u8>>, s: Shape) -> bool {
    &&& s.ok(None, None)
    &&& s.stored(records(m))
    &&& !s.map().contains_key(root_key())
    &&& match s {
        Shape::Nil => m.dom() == Set::<Seq<u8>>::empty(),
        Shape::Node { key, .. } => {
            &&& m.contains_key(root_key())
            &&& m[root_key()] == key
            &&& m.dom() == s.map().dom().insert(root_key())
        },
    }
}

/// The store holds a tree and nothing else.
pub open spec fn valid_store(m: Map<Seq<u8>, Seq<u8>>) -> bool {
    exists|s: Shape| store_ok(m, s)
}

/// No entry of the batch is for the reserved key.
pub open spec fn no_reserved(b: Seq<EntryView>) -> bool {
    forall|i: int| 0 <= i < b.len() ==> (#[trigger] b[i]).0 != root_key()
}

/// A handle to an authenticated key/value store.
pub struct Merk<D: Database> {
    pub tree: Option<Box<SparseTree>>,
    pub db: D,
}

/// In a store that holds a tree, a key other than the reserved one is there
/// exactly if the tree holds it, and the record under it has the tree's
/// value for it.
pub proof fn lemma_store_lookup(m: Map<Seq<u8>, Seq<u8>>, s: Shape, k: Seq<u8>)
    requires
        store_ok(m, s),
        k != root_key(),
    ensures
        m.contains_key(k) <==> s.map().contains_key(k),
        s.map().contains_key(k) ==> records(m).contains_key(k) && records(m)[k].value
            == s.map()[k] && records(m)[k].key == k,
{
    lemma_stored_flat(s, records(m), None, None);
    lemma_find(s, None, None, k);
    match s {
        Shape::Nil => {
            assert(!m.dom().contains(k));
        },
        Shape::Node { .. } => {
            assert(m.dom().contains(k) <==> s.map().dom().insert(root_key()).contains(k));
        },
    }
}

/// The root's record is in the store under the key that the reserved key
/// holds.
proof fn lemma_store_lookup_root(m: Map<Seq<u8>, Seq<u8>>, s: Shape)
    requires
        store_ok(m, s),
        s is Node,
    ensures
        records(m).contains_key(m[root_key()]),
        m.contains_key(m[root_key()]),
{
}

/// A store holds at most one tree.
pub proof fn lemma_store_unique(m: Map<Seq<u8>, Seq<u8>>, a: Shape, b: Shape)
    requires
        store_ok(m, a),
        store_ok(m, b),
    ensures
        a == b,
{
    match a {
        Shape::Nil => {
            if b is Node {
                assert(m.dom().contains(root_key()));
            }
        },
        Shape::Node { left, key, value, right } => {
            if b is Nil {
                assert(m.dom().contains(root_key()));
            }
            assert(a.record() == b.record());
            crate::shape::lemma_stored_unique(*left, *b->left, records(m));
            crate::shape::lemma_stored_unique(*right, *b->right, records(m));
        },
    }
}

/// The reserved key points at the root: it is in the store exactly if the
/// tree is not empty, and holds the root's key; and a store whose tree
/// holds no pair is empty, the reserved key gone with the last pair.
pub proof fn lemma_root_pointer(m: Map<Seq<u8>, Seq<u8>>, s: Shape)
    requires
        store_ok(m, s),
    ensures
        m.contains_key(root_key()) <==> s is Node,
        s is Node ==> m[root_key()] == s->key,
        s.map() == Map::<Seq<u8>, Seq<u8>>::empty() ==> s is Nil && m.dom() == Set::<
            Seq<u8>,
        >::empty() && !m.contains_key(root_key()),
{
    crate::shape::lemma_map_empty(s);
    if s is Nil {
        assert(!m.dom().contains(root_key()));
    }
}

/// The records on the way from the root of `s` to the key `k`, the record
/// of `k` included if the tree holds it.
pub open spec fn branch(s: Shape, k: Seq<u8>) -> Seq<NodeView>
    decreases s,
{
    match s {
        Shape::Nil => Seq::empty(),
        Shape::Node { left, key, right, .. } => seq![s.record()] + (if k == key {
            Seq::empty()
        } else if lex_lt(k, key) {
            branch(*left, k)
        } else {
            branch(*right, k)
        }),
    }
}

/// The views of a list of nodes.
pub open spec fn nodes_view(nodes: Seq<Node>) -> Seq<NodeView> {
    Seq::new(nodes.len(), |i: int| nodes[i]@)
}

fn walk<D: Database>(
    db: &D,
    at: &[u8],
    key: &[u8],
    out: &mut Vec<Node>,
    Ghost(s): Ghost<Shape>,
) -> (r: Result<(), Error>)
    requires
        db.inv(),
        s is Node,
        s.height() <= 255,
        s.stored(records(db.contents())),
        at@ == s->key,
    ensures
        r is Ok,
        nodes_view(final(out)@) == nodes_view(old(out)@) + branch(s, key@),
    decreases s,
{
    let ghost before = nodes_view(out@);
    let node = match get_node(db, at) {
        Ok(n) => n,
        Err(e) => { return Err(e); },
    };
    proof {
        crate::shape::lemma_record(s);
    }
    let order = compare_keys(key, at);
    let next = match order {
        KeyOrder::Same => None,
        KeyOrder::Before => match &node.left {
            Some(l) => Some(copy_bytes(l.key.as_slice())),
            None => None,
        },
        KeyOrder::After => match &node.right {
            Some(l) => Some(copy_bytes(l.key.as_slice())),
            None => None,
        },
    };
    out.push(node);
    assert(nodes_view(out@) =~= before + seq![s.record()]);
    let ghost child = match order {
        KeyOrder::Same => Shape::Nil,
        KeyOrder::Before => *s->left,
        KeyOrder::After => *s->right,
    };
    proof {
        if order == KeyOrder::After {
            lemma_lex_asymmetric(at@, key@);
        }
    }
    match next {
        Some(k) => {
            match walk(db, k.as_slice(), key, out, Ghost(child)) {
                Ok(_) => {},
                Err(e) => { return Err(e); },
            }
            assert(before + seq![s.record()] + branch(child, key@) =~= before + branch(s, key@));
        },
        None => {
            assert(before + seq![s.record()] =~= before + branch(s, key@));
        },
    }
    Ok(())
}

/// What the store holds after the records `wb` of the nodes with the keys
/// `keys` of the tree `s` are written over `m`.
proof fn lemma_write_all(
    m: Map<Seq<u8>, Seq<u8>>,
    wb: Seq<(Vec<u8>, Vec<u8>)>,
    keys: Set<Seq<u8>>,
    s: Shape,
)
    requires
        writes_of(wb, keys, s),
    ensures
        forall|k: Seq<u8>| #[trigger]
            write_all(m, wb).contains_key(k) <==> m.contains_key(k) || keys.contains(k),
        forall|k: Seq<u8>|
            keys.contains(k) ==> #[trigger] write_all(m, wb)[k] == encode_node(
                find(s, k).record(),
            ) && find(s, k).record().encodable(),
        forall|k: Seq<u8>|
            !keys.contains(k) && m.contains_key(k) ==> #[trigger] write_all(m, wb)[k] == m[k],
    decreases wb.len(),
{
    if wb.len() > 0 {
        let front = wb.drop_last();
        let last = wb.last();
        let front_keys = Set::new(
            |k: Seq<u8>| exists|i: int| 0 <= i < front.len() && (#[trigger] front[i]).0@ == k,
        );
        assert(writes_of(front, front_keys, s)) by {
            assert forall|i: int| 0 <= i < front.len() implies {
                &&& front_keys.contains((#[trigger] front[i]).0@)
                &&& front[i].1@ == encode_node(find(s, front[i].0@).record())
                &&& find(s, front[i].0@).record().encodable()
            } by {
                assert(front[i] == wb[i]);
            }
        }
        lemma_write_all(m, front, front_keys, s);
        assert(wb[wb.len() - 1] == last);
        assert forall|k: Seq<u8>| keys.contains(k) <==> front_keys.contains(k) || k
            == last.0@ by {
            if keys.contains(k) {
                let i = choose|i: int| 0 <= i < wb.len() && (#[trigger] wb[i]).0@ == k;
                if i < front.len() {
                    assert(front[i].0@ == k);
                }
            }
            if front_keys.contains(k) {
                let i = choose|i: int| 0 <= i < front.len() && (#[trigger] front[i]).0@ == k;
                assert(wb[i].0@ == k);
            }
        }
        let w = write_all(m, wb);
        let wf = write_all(m, front);
        assert(w == wf.insert(last.0@, last.1@));
        assert forall|k: Seq<u8>| #[trigger] w.contains_key(k) <==> m.contains_key(k)
            || keys.contains(k) by {}
        assert forall|k: Seq<u8>| keys.contains(k) implies #[trigger] w[k] == encode_node(
            find(s, k).record(),
        ) && find(s, k).record().encodable() by {
            if k != last.0@ {
                assert(front_keys.contains(k));
                assert(w[k] == wf[k]);
            }
        }
        assert forall|k: Seq<u8>| !keys.contains(k) && m.contains_key(k) implies #[trigger] w[k]
            == m[k] by {
            assert(k != last.0@);
            assert(!front_keys.contains(k));
            assert(wf.contains_key(k));
            assert(w[k] == wf[k]);
        }
    } else {
        assert forall|k: Seq<u8>| !keys.contains(k) by {}
    }
}

/// After a commit the store holds the new tree and nothing else.
proof fn lemma_commit(
    m0: Map<Seq<u8>, Seq<u8>>,
    s0: Shape,
    s1: Shape,
    bv: Seq<EntryView>,
    unsaved: Set<Seq<u8>>,
    m1: Map<Seq<u8>, Seq<u8>>,
    m2: Map<Seq<u8>, Seq<u8>>,
    m3: Map<Seq<u8>, Seq<u8>>,
)
    requires
        store_ok(m0, s0),
        s1.ok(None, None),
        s1.map() == apply_batch(s0.map(), bv),
        sorted(bv),
        no_reserved(bv),
        forall|k: Seq<u8>| #[trigger]
            s1.map().contains_key(k) ==> unsaved.contains(k) || (records(m0).contains_key(k)
                && records(m0)[k] == find(s1, k).record()),
        forall|k: Seq<u8>| #[trigger] unsaved.contains(k) ==> s1.map().contains_key(k),
        forall|k: Seq<u8>| #[trigger]
            m1.contains_key(k) <==> m0.contains_key(k) || unsaved.contains(k),
        forall|k: Seq<u8>|
            unsaved.contains(k) ==> #[trigger] m1[k] == encode_node(find(s1, k).record())
                && find(s1, k).record().encodable(),
        forall|k: Seq<u8>|
            !unsaved.contains(k) && m0.contains_key(k) ==> #[trigger] m1[k] == m0[k],
        forall|k: Seq<u8>| #[trigger]
            m2.contains_key(k) <==> m1.contains_key(k) && !destroyed_by(s0.map(), bv).contains(k),
        forall|k: Seq<u8>| m2.contains_key(k) ==> #[trigger] m2[k] == m1[k],
        m3 == if s1 is Node {
            m2.insert(root_key(), s1->key)
        } else {
            m2.remove(root_key())
        },
    ensures
        store_ok(m3, s1),
{
    let root = root_key();
    assert(!touches(bv, root)) by {
        if touches(bv, root) {
            let i = crate::batch::entry_index(bv, root);
            assert(bv[i].0 != root);
        }
    }
    assert(!s1.map().contains_key(root));
    assert forall|k: Seq<u8>| #[trigger] s1.map().contains_key(k) implies records(
        m3,
    ).contains_key(k) && records(m3)[k] == find(s1, k).record() by {
        lemma_find(s1, None, None, k);
        assert(k != root);
        assert(m1.contains_key(k)) by {
            if !unsaved.contains(k) {
                assert(records(m0).contains_key(k));
            }
        }
        assert(m2.contains_key(k));
        assert(m3.contains_key(k) && m3[k] == m1[k]);
        if unsaved.contains(k) {
            lemma_decode_encode(find(s1, k).record());
        } else {
            assert(m1[k] == m0[k]);
        }
    }
    lemma_stored_flat(s1, records(m3), None, None);
    assert forall|k: Seq<u8>| k != root implies (#[trigger] m3.contains_key(k)
        <==> s1.map().contains_key(k)) by {
        if m3.contains_key(k) {
            assert(m2.contains_key(k));
            assert(m1.contains_key(k));
            if !unsaved.contains(k) {
                assert(m0.contains_key(k));
                lemma_store_lookup(m0, s0, k);
            }
        }
    }
    match s1 {
        Shape::Nil => {
            assert(m3.dom() =~= Set::<Seq<u8>>::empty());
        },
        Shape::Node { key, .. } => {
            assert(m3.dom() =~= s1.map().dom().insert(root));
        },
    }
}

/// A batch that is sorted, if loosely, and in which no two neighbours have
/// the same key is sorted strictly; one in which two neighbours have the
/// same key has a duplicate.
proof fn lemma_strictly_sorted(b: Seq<EntryView>)
    requires
        weakly_sorted(b),
        forall|i: int| 0 <= i < b.len() - 1 ==> (#[trigger] b[i]).0 != b[i + 1].0,
    ensures
        sorted(b),
        !has_duplicate(b),
{
    assert forall|i: int, j: int| 0 <= i < j < b.len() implies lex_lt(
        #[trigger] b[i].0,
        #[trigger] b[j].0,
    ) by {
        lemma_lex_total(b[i].0, b[j].0);
        if b[i].0 == b[j].0 {
            // the neighbour of `i` lies between the two
            lemma_lex_total(b[i].0, b[i + 1].0);
            assert(!lex_lt(b[i + 1].0, b[i].0));
            if i + 1 < j {
                assert(!lex_lt(b[j].0, b[i + 1].0));
            }
        }
    }
    if has_duplicate(b) {
        let (i, j) = choose|i: int, j: int|
            0 <= i < j < b.len() && #[trigger] b[i].0 == #[trigger] b[j].0;
        lemma_lex_asymmetric(b[i].0, b[j].0);
    }
}

/// `nodes` lists, by ascending key, the nodes that the store `m` holds
/// under the keys from `start` to `end`, both included.
pub open spec fn lists_nodes(
    nodes: Seq<Node>,
    m: Map<Seq<u8>, Seq<u8>>,
    start: Seq<u8>,
    end: Seq<u8>,
) -> bool {
    &&& forall|i: int, j: int|
        0 <= i < j < nodes.len() ==> lex_lt(#[trigger] nodes[i]@.key, #[trigger] nodes[j]@.key)
    &&& forall|i: int|
        0 <= i < nodes.len() ==> {
            &&& in_range(start, (#[trigger] nodes[i])@.key, end)
            &&& records(m).contains_key(nodes[i]@.key)
            &&& nodes[i]@ == records(m)[nodes[i]@.key]
        }
    &&& forall|k: Seq<u8>|
        m.contains_key(k) && in_range(start, k, end) ==> exists|i: int|
            0 <= i < nodes.len() && (#[trigger] nodes[i])@.key == k
}

/// Checks the lengths of keys and values: a key may hold 255 bytes, a value
/// 65 535.
pub fn check_sizes(batch: &Vec<TreeBatchEntry>) -> (r: Result<(), Error>)
    ensures
        match r {
            Ok(_) => sized(batch_view(batch@)),
            Err(e) => match e {
                Error::KeyTooLong => !keys_sized(batch_view(batch@)),
                Error::ValueTooLong => keys_sized(batch_view(batch@)) && !values_sized(
                    batch_view(batch@),
                ),
                _ => false,
            },
        },
{
    let ghost bv = batch_view(batch@);
    let mut long_key = false;
    let mut long_value = false;
    let mut i: usize = 0;
    while i < batch.len()
        invariant
            i <= batch@.len(),
            bv == batch_view(batch@),
            long_key <==> exists|j: int| 0 <= j < i && (#[trigger] bv[j]).0.len() > 255,
            long_value <==> exists|j: int|
                0 <= j < i && ((#[trigger] bv[j]).1 matches Some(v) && v.len() > 65535),
        decreases batch@.len() - i,
    {
        if batch[i].0.len() > 255 {
            long_key = true;
            assert(bv[i as int].0.len() > 255);
        }
        match &batch[i].1 {
            TreeOp::Put(v) => {
                if v.len() > 65535 {
                    long_value = true;
                    assert(bv[i as int].1 matches Some(v) && v.len() > 65535);
                }
            },
            TreeOp::Delete => {},
        }
        i += 1;
    }
    if long_key {
        Err(Error::KeyTooLong)
    } else if long_value {
        Err(Error::ValueTooLong)
    } else {
        Ok(())
    }
}

impl<D: Database> Merk<D> {
    /// What the store holds.
    pub open spec fn store(&self) -> Map<Seq<u8>, Seq<u8>> {
        self.db.contents()
    }

    /// The store is in working order.
    pub open spec fn store_inv(&self) -> bool {
        self.db.inv()
    }

    /// The tree of the handle as a mathematical value.
    pub open spec fn shape(&self) -> Shape {
        slot_shape(self.tree)
    }

    /// The pairs that the handle holds.
    pub open spec fn view(&self) -> Map<Seq<u8>, Seq<u8>> {
        self.shape().map()
    }

    /// The handle is in good standing: its store holds its tree and nothing
    /// else, the reserved key pointing at the root; and of the tree just the
    /// root is in memory, as it is stored.
    pub open spec fn wf(&self) -> bool {
        &&& self.store_inv()
        &&& store_ok(self.store(), self.shape())
        &&& match self.tree {
            Some(t) => t.wf(records(self.store())) && t.is_pruned() && !t.is_dirty(),
            None => true,
        }
    }

    /// Opens the tree that `db` holds: reads the root's key under the
    /// reserved key and fetches the root; an empty tree where the reserved
    /// key is not there. Fails where the reserved key points at nothing
    /// (`KeyNotFound`) or at bytes that are no node (`DecodeError`). The
    /// handle is in good standing where the store holds a tree and nothing
    /// else.
    pub fn new(db: D) -> (r: Result<Merk<D>, Error>)
        requires
            db.inv(),
        ensures
            match r {
                Ok(m) => {
                    &&& m.db == db
                    &&& m.store() == db.contents()
                    &&& m.store_inv()
                    &&& m.tree is Some <==> db.contents().contains_key(root_key())
                    &&& m.tree matches Some(t) ==> records(db.contents()).contains_key(
                        db.contents()[root_key()],
                    ) && t.node_view() == records(db.contents())[db.contents()[root_key()]]
                    &&& valid_store(db.contents()) ==> m.wf()
                    &&& forall|s: Shape| store_ok(db.contents(), s) ==> m.shape() == s
                },
                Err(e) => {
                    &&& db.contents().contains_key(root_key())
                    &&& !records(db.contents()).contains_key(db.contents()[root_key()])
                    &&& e == Error::KeyNotFound <==> !db.contents().contains_key(
                        db.contents()[root_key()],
                    )
                    &&& e == Error::DecodeError <==> db.contents().contains_key(
                        db.contents()[root_key()],
                    )
                },
            },
    {
        let ghost m = db.contents();
        let ghost s = choose|s: Shape| store_ok(m, s);
        assert(ROOT_KEY_KEY@ =~= root_key());
        let tree = match db.get(ROOT_KEY_KEY.as_slice()) {
            Some(root_key) => {
                let root_node = match get_node(&db, root_key.as_slice()) {
                    Ok(n) => n,
                    Err(e) => { return Err(e); },
                };
                proof {
                    if valid_store(m) {
                        assert(s is Node);
                    }
                    assert forall|other: Shape| store_ok(m, other) implies s == other by {
                        lemma_store_unique(m, s, other);
                    }
                }
                Some(SparseTree::from_node(root_node, Ghost(s)))
            },
            None => {
                proof {
                    if valid_store(m) {
                        assert(s is Nil);
                    }
                    assert forall|other: Shape| store_ok(m, other) implies Shape::Nil == other by {
                        lemma_store_unique(m, s, other);
                    }
                }
                None
            },
        };
        Ok(Merk { tree, db })
    }

    /// The value stored under `key`, read from the store. Fails with
    /// `KeyNotFound` where the store has no such key and with `DecodeError`
    /// where what it has there is no node. On a handle in good standing, and
    /// for a key other than the reserved one, this is the value that the
    /// tree holds under the key, and `KeyNotFound` where it holds none.
    pub fn get(&self, key: &[u8]) -> (r: Result<Vec<u8>, Error>)
        requires
            self.store_inv(),
        ensures
            match r {
                Ok(v) => records(self.store()).contains_key(key@) && v@ == records(
                    self.store(),
                )[key@].value,
                Err(e) => !records(self.store()).contains_key(key@) && (e == Error::KeyNotFound
                    <==> !self.store().contains_key(key@)) && (e == Error::DecodeError
                    <==> self.store().contains_key(key@)),
            },
            self.wf() && key@ != root_key() ==> match r {
                Ok(v) => self@.contains_key(key@) && self@[key@] == v@,
                Err(e) => e == Error::KeyNotFound && !self@.contains_key(key@),
            },
    {
        proof {
            if self.wf() && key@ != root_key() {
                lemma_store_lookup(self.store(), self.shape(), key@);
            }
        }
        match get_node(&self.db, key) {
            Ok(node) => Ok(node.value),
            Err(e) => Err(e),
        }
    }

    /// The height of the tree; 0 for the empty tree.
    pub fn height(&self) -> (h: u8)
        requires
            self.wf(),
        ensures
            h as nat == self.shape().height(),
    {
        match &self.tree {
            Some(t) => {
                proof {
                    lemma_wf_node(**t, records(self.store()));
                }
                t.height()
            },
            None => 0,
        }
    }

    /// The digest of the tree: the null digest for the empty tree.
    pub fn root_hash(&self) -> (h: crate::hash::Hash)
        requires
            self.wf(),
        ensures
            h@ == self.shape().digest(),
    {
        match &self.tree {
            Some(t) => {
                proof {
                    lemma_wf_node(**t, records(self.store()));
                }
                t.hash()
            },
            None => {
                assert(crate::hash::NULL_HASH@ =~= crate::hash::null_digest());
                crate::hash::NULL_HASH
            },
        }
    }

    /// Writes what the last batch changed: the records of the new and the
    /// changed nodes in one list; then removes the keys that the batch
    /// destroyed; then points the reserved key at the root, or removes it
    /// where the tree is empty; then lets go of all nodes in memory but the
    /// root.
    fn commit(
        &mut self,
        destroyed: Vec<Vec<u8>>,
        Ghost(bv): Ghost<Seq<EntryView>>,
        Ghost(s0): Ghost<Shape>,
        Ghost(m0): Ghost<Map<Seq<u8>, Seq<u8>>>,
    ) -> (r: Result<(), Error>)
        requires
            old(self).db.inv(),
            old(self).db.contents() == m0,
            store_ok(m0, s0),
            slot_wf(old(self).tree, records(m0)),
            slot_shape(old(self).tree).ok(None, None),
            slot_shape(old(self).tree).map() == apply_batch(s0.map(), bv),
            key_set(destroyed@) == destroyed_by(s0.map(), bv),
            sorted(bv),
            no_reserved(bv),
        ensures
            final(self).db.never_fails() == old(self).db.never_fails(),
            old(self).db.never_fails() ==> r is Ok,
            match r {
                Ok(_) => final(self).wf() && final(self).shape() == old(self).shape(),
                Err(e) => e == Error::StoreError && final(self).store_inv(),
            },
    {
        let ghost s1 = slot_shape(self.tree);
        let ghost tree0 = self.tree;
        let ghost unsaved = match &self.tree {
            Some(t) => t.unsaved(),
            None => Set::<Seq<u8>>::empty(),
        };
        let wb = match &self.tree {
            Some(t) => match t.modified() {
                Ok(wb) => wb,
                Err(e) => { return Err(e); },
            },
            None => Vec::new(),
        };
        proof {
            match &self.tree {
                Some(t) => {
                    lemma_tree_flat(**t, records(m0), None, None);
                    lemma_wf_node(**t, records(m0));
                },
                None => {},
            }
            lemma_write_all(m0, wb@, unsaved, s1);
        }
        match self.db.write_batch(wb) {
            Ok(_) => {},
            Err(e) => { return Err(e); },
        }
        let ghost m1 = self.db.contents();
        let mut i: usize = 0;
        while i < destroyed.len()
            invariant
                i <= destroyed@.len(),
                self.tree == tree0,
                self.db.inv(),
                self.db.never_fails() == old(self).db.never_fails(),
                forall|k: Seq<u8>| #[trigger]
                    self.db.contents().contains_key(k) <==> m1.contains_key(k) && !key_set(
                        destroyed@.subrange(0, i as int),
                    ).contains(k),
                forall|k: Seq<u8>|
                    self.db.contents().contains_key(k) ==> #[trigger] self.db.contents()[k]
                        == m1[k],
            decreases destroyed@.len() - i,
        {
            match self.db.delete(destroyed[i].as_slice()) {
                Ok(_) => {},
                Err(e) => { return Err(e); },
            }
            proof {
                let done = destroyed@.subrange(0, i as int);
                assert(destroyed@.subrange(0, i + 1) =~= done.push(destroyed@[i as int]));
                crate::batch::lemma_key_set_push(done, destroyed@[i as int]);
            }
            i += 1;
        }
        let ghost m2 = self.db.contents();
        assert(destroyed@.subrange(0, destroyed@.len() as int) =~= destroyed@);
        assert(ROOT_KEY_KEY@ =~= root_key());
        match &self.tree {
            Some(t) => {
                let k = copy_bytes(t.key());
                match self.db.put(ROOT_KEY_KEY.as_slice(), k) {
                    Ok(_) => {},
                    Err(e) => { return Err(e); },
                }
            },
            None => {
                match self.db.delete(ROOT_KEY_KEY.as_slice()) {
                    Ok(_) => {},
                    Err(e) => { return Err(e); },
                }
            },
        }
        proof {
            lemma_commit(m0, s0, s1, bv, unsaved, m1, m2, self.db.contents());
        }
        let mut tree = self.tree.take();
        match tree {
            Some(mut t) => {
                t.prune();
                self.tree = Some(t);
            },
            None => {},
        }
        Ok(())
    }

    /// Applies a batch that is sorted by key, and so without duplicates, and
    /// commits it. Where a key holds more than 255 bytes, or else a value
    /// more than 65 535, nothing is changed and `KeyTooLong` or
    /// `ValueTooLong` comes back. Else the tree becomes what
    /// `model::apply` defines, which holds what the batch makes of the
    /// pairs, and the store holds that tree and nothing else, unless the
    /// store refuses a write: then `StoreError` comes back and the handle is
    /// no longer in good standing.
    ///
    /// The batch has no entry for the reserved key, and the height of the
    /// tree and the number of binary digits of the batch's length together
    /// stay within 255, so that every height fits its byte.
    pub fn apply_unchecked(&mut self, batch: &Vec<TreeBatchEntry>) -> (r: Result<(), Error>)
        requires
            old(self).wf(),
            sorted(batch_view(batch@)),
            no_reserved(batch_view(batch@)),
            old(self).shape().height() + bits(batch@.len()) <= 255,
        ensures
            final(self).db.never_fails() == old(self).db.never_fails(),
            match r {
                Ok(_) => {
                    &&& sized(batch_view(batch@))
                    &&& final(self).wf()
                    &&& final(self).shape() == crate::model::apply(
                        old(self).shape(),
                        batch_view(batch@),
                    )
                    &&& final(self)@ == apply_batch(old(self)@, batch_view(batch@))
                },
                Err(e) => match e {
                    Error::KeyTooLong => !keys_sized(batch_view(batch@)) && *final(self) == *old(
                        self,
                    ),
                    Error::ValueTooLong => keys_sized(batch_view(batch@)) && !values_sized(
                        batch_view(batch@),
                    ) && *final(self) == *old(self),
                    Error::StoreError => sized(batch_view(batch@)) && final(self).store_inv()
                        && !old(self).db.never_fails(),
                    _ => false,
                },
            },
    {
        match check_sizes(batch) {
            Ok(_) => {},
            Err(e) => { return Err(e); },
        }
        let ghost s0 = self.shape();
        let ghost m0 = self.store();
        // The tree as it is now, to go back to should a node be missing from
        // a store that was changed behind the handle's back.
        let saved = match &self.tree {
            Some(t) => Some(t.root_copy()),
            None => None,
        };
        let mut destroyed: Vec<Vec<u8>> = Vec::new();
        assert(key_set(destroyed@) =~= Set::<Seq<u8>>::empty());
        match SparseTree::apply(&mut self.tree, &self.db, batch, &mut destroyed) {
            Ok(_) => {},
            Err(e) => {
                self.tree = saved;
                return Err(e);
            },
        }
        assert(key_set(destroyed@) =~= destroyed_by(s0.map(), batch_view(batch@)));
        self.commit(destroyed, Ghost(batch_view(batch@)), Ghost(s0), Ghost(m0))
    }

    /// Sorts the batch by key and, unless two of its entries have the same
    /// key, applies and commits it as `apply_unchecked` does. With a
    /// duplicate nothing is changed and `DuplicateKeyInBatch` comes back.
    /// On a store that never fails the batch is applied exactly if it has no
    /// duplicate key and keeps to the limits on lengths.
    pub fn apply(&mut self, batch: &mut Vec<TreeBatchEntry>) -> (r: Result<(), Error>)
        requires
            old(self).wf(),
            no_reserved(batch_view(old(batch)@)),
            old(self).shape().height() + bits(old(batch)@.len()) <= 255,
        ensures
            final(batch)@.to_multiset() == old(batch)@.to_multiset(),
            final(batch)@.len() == old(batch)@.len(),
            weakly_sorted(batch_view(final(batch)@)),
            final(self).db.never_fails() == old(self).db.never_fails(),
            match r {
                Ok(_) => {
                    &&& !has_duplicate(batch_view(old(batch)@))
                    &&& sized(batch_view(old(batch)@))
                    &&& sorted(batch_view(final(batch)@))
                    &&& final(self).wf()
                    &&& final(self).shape() == crate::model::apply(
                        old(self).shape(),
                        batch_view(final(batch)@),
                    )
                    &&& final(self)@ == apply_batch(old(self)@, batch_view(old(batch)@))
                },
                Err(e) => match e {
                    Error::DuplicateKeyInBatch => has_duplicate(batch_view(old(batch)@))
                        && *final(self) == *old(self),
                    Error::KeyTooLong => !has_duplicate(batch_view(old(batch)@)) && !keys_sized(
                        batch_view(old(batch)@),
                    ) && *final(self) == *old(self),
                    Error::ValueTooLong => !has_duplicate(batch_view(old(batch)@)) && keys_sized(
                        batch_view(old(batch)@),
                    ) && !values_sized(batch_view(old(batch)@)) && *final(self) == *old(self),
                    Error::StoreError => !has_duplicate(batch_view(old(batch)@)) && sized(
                        batch_view(old(batch)@),
                    ) && final(self).store_inv() && !old(self).db.never_fails(),
                    _ => false,
                },
            },
    {
        let ghost before = batch@;
        sort_by_key(batch);
        let ghost bv = batch_view(batch@);
        proof {
            lemma_permuted(before, batch@);
            assert forall|i: int| 0 <= i < bv.len() implies (#[trigger] bv[i]).0 != root_key() by {
                assert(bv.contains(bv[i]));
                let j = choose|j: int|
                    0 <= j < batch_view(before).len() && batch_view(before)[j] == bv[i];
                assert(batch_view(before)[j].0 != root_key());
            }
        }
        let mut i: usize = 1;
        while i < batch.len()
            invariant
                1 <= i,
                bv == batch_view(batch@),
                before == old(batch)@,
                batch@.to_multiset() == before.to_multiset(),
                batch@.len() == before.len(),
                has_duplicate(bv) == has_duplicate(batch_view(before)),
                weakly_sorted(bv),
                forall|j: int| 0 <= j < i - 1 && j < bv.len() - 1 ==> (#[trigger] bv[j]).0 != bv[j
                    + 1].0,
            decreases batch@.len() - i,
        {
            if compare_keys(batch[i - 1].0, batch[i].0) == KeyOrder::Same {
                assert(bv[i - 1].0 == bv[i as int].0);
                return Err(Error::DuplicateKeyInBatch);
            }
            i += 1;
        }
        proof {
            lemma_strictly_sorted(bv);
            lemma_same_entries(self@, batch_view(before), bv);
        }
        self.apply_unchecked(batch)
    }

    /// The nodes stored under the keys from `start` to `end`, both included,
    /// by ascending key. Fails with `DecodeError` where the store holds
    /// under such a key what is no node.
    pub fn map_range(&self, start: &[u8], end: &[u8]) -> (r: Result<Vec<Node>, Error>)
        requires
            self.store_inv(),
        ensures
            match r {
                Ok(nodes) => lists_nodes(nodes@, self.store(), start@, end@),
                Err(e) => e == Error::DecodeError && exists|k: Seq<u8>|
                    self.store().contains_key(k) && in_range(start@, k, end@) && !records(
                        self.store(),
                    ).contains_key(k),
            },
    {
        let entries = self.db.iter(start, end);
        let ghost m = self.store();
        let mut nodes: Vec<Node> = Vec::new();
        let mut i: usize = 0;
        while i < entries.len()
            invariant
                i <= entries@.len(),
                m == self.store(),
                lists_range(entries@, m, start@, end@),
                nodes@.len() == i,
                forall|j: int|
                    0 <= j < i ==> (#[trigger] nodes@[j])@.key == entries@[j].0@ && records(
                        m,
                    ).contains_key(entries@[j].0@) && nodes@[j]@ == records(m)[entries@[j].0@],
            decreases entries@.len() - i,
        {
            let node = match Node::decode(entries[i].0.as_slice(), entries[i].1.as_slice()) {
                Ok(n) => n,
                Err(e) => {
                    assert(m.contains_key(entries@[i as int].0@));
                    return Err(e);
                },
            };
            assert(m.contains_key(entries@[i as int].0@));
            nodes.push(node);
            i += 1;
        }
        proof {
            assert forall|a: int, b: int| 0 <= a < b < nodes@.len() implies lex_lt(
                #[trigger] nodes@[a]@.key,
                #[trigger] nodes@[b]@.key,
            ) by {
                assert(nodes@[a]@.key == entries@[a].0@ && nodes@[b]@.key == entries@[b].0@);
            }
            assert forall|k: Seq<u8>| m.contains_key(k) && in_range(start@, k, end@) implies exists|
                j: int,
            |
                0 <= j < nodes@.len() && (#[trigger] nodes@[j])@.key == k by {
                let j = choose|j: int| 0 <= j < entries@.len() && #[trigger] entries@[j].0@ == k;
                assert(nodes@[j]@.key == k);
            }
        }
        Ok(nodes)
    }

    /// The proof of the range from `start` to `end`, both included: the
    /// operations that `proofs::proof_ops` defines for the tree and the
    /// range. By `proofs::lemma_proof_round_trip` it verifies against the
    /// root digest and shows every pair of the range.
    pub fn range_proof(&mut self, start: &[u8], end: &[u8]) -> (r: Result<
        Vec<crate::proofs::Op>,
        Error,
    >)
        requires
            old(self).wf(),
        ensures
            *final(self) == *old(self),
            r matches Ok(ops) && crate::proofs::ops_view(ops@) == crate::proofs::proof_ops(
                old(self).shape(),
                start@,
                end@,
            ),
    {
        crate::proofs::create(self, start, end)
    }

    /// The nodes on the way from the root to `key`, the node of `key`
    /// included if the tree holds it.
    pub fn map_branch(&self, key: &[u8]) -> (r: Result<Vec<Node>, Error>)
        requires
            self.wf(),
        ensures
            r matches Ok(nodes) && nodes_view(nodes@) == branch(self.shape(), key@),
    {
        let mut out: Vec<Node> = Vec::new();
        assert(nodes_view(out@) =~= Seq::<NodeView>::empty());
        match &self.tree {
            Some(t) => {
                proof {
                    lemma_wf_node(**t, records(self.store()));
                }
                match walk(&self.db, t.key(), key, &mut out, Ghost(self.shape())) {
                    Ok(_) => {},
                    Err(e) => { return Err(e); },
                }
                assert(Seq::<NodeView>::empty() + branch(self.shape(), key@) =~= branch(
                    self.shape(),
                    key@,
                ));
            },
            None => {},
        }
        Ok(out)
    }

    /// Opens the store of the handle anew. The new handle has the same tree
    /// and so commits to the same root digest.
    pub fn reopen(self) -> (r: Result<Merk<D>, Error>)
        requires
            self.wf(),
        ensures
            r matches Ok(m) && m.wf() && m.db == self.db && m.shape() == self.shape()
                && m.shape().digest() == self.shape().digest() && m@ == self@,
    {
        let ghost s = self.shape();
        proof {
            lemma_root_pointer(self.store(), s);
            if s is Node {
                lemma_store_lookup_root(self.store(), s);
            }
        }
        Merk::new(self.db)
    }

    /// Gives up the handle for its store.
    pub fn into_store(self) -> (db: D)
        ensures
            db == self.db,
    {
        self.db
    }
}

} // verus!
