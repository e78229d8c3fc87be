//! Range proofs: a stream of operations that a verifier replays on a stack
//! to recompute the root digest, learning the pairs of the range on the way.

use crate::bytes::{
    between, compare_keys, copy_bytes, lemma_lex_transitive, lex_lt, KeyOrder,
};
use crate::error::Error;
use crate::hash::{kv_digest, node_digest, null_digest};
use crate::merk::Merk;
use crate::shape::{lemma_apart, lemma_between_widen, lemma_record, Shape};
use crate::sparse_tree::{get_node, records};
use crate::store::{in_range, Database};
use vstd::prelude::*;

verus! {

/// One operation of a proof.
#[derive(Debug, PartialEq, Eq)]
pub enum Op {
    /// Pushes the node of a pair, without children.
    PushLeaf(Vec<u8>, Vec<u8>),
    /// Pushes the summary of a subtree: its digest and its height.
    PushHash(crate::hash::Hash, u8),
    /// Makes the top of the stack the left child of the entry below it.
    ParentLeft,
    /// Makes the top of the stack the right child of the entry below it.
    ParentRight,
}

/// An operation as a mathematical value.
pub enum OpView {
    PushLeaf(Seq<u8>, Seq<u8>),
    PushHash(Seq<u8>, u8),
    ParentLeft,
    ParentRight,
}

impl View for Op {
    type V = OpView;

    open spec fn view(&self) -> OpView {
        match *self {
            Op::PushLeaf(k, v) => OpView::PushLeaf(k@, v@),
            Op::PushHash(d, h) => OpView::PushHash(d@, h),
            Op::ParentLeft => OpView::ParentLeft,
            Op::ParentRight => OpView::ParentRight,
        }
    }
}

/// The views of a list of operations.
pub open spec fn ops_view(ops: Seq<Op>) -> Seq<OpView> {
    Seq::new(ops.len(), |i: int| ops[i]@)
}

/// A list of pairs as a mathematical value.
pub open spec fn pairs_view(pairs: Seq<(Vec<u8>, Vec<u8>)>) -> Seq<(Seq<u8>, Seq<u8>)> {
    Seq::new(pairs.len(), |i: int| (pairs[i].0@, pairs[i].1@))
}

/// An entry of the verifier's stack as a mathematical value: the digest of
/// the pair, if the entry was pushed as a pair; the digests and heights of
/// the children attached so far; the digest and height of the whole; and
/// the pairs seen below the entry, by ascending key.
pub struct FrameView {
    pub kv: Option<Seq<u8>>,
    pub left: Seq<u8>,
    pub left_height: u8,
    pub has_left: bool,
    pub right: Seq<u8>,
    pub right_height: u8,
    pub has_right: bool,
    pub digest: Seq<u8>,
    pub height: u8,
    pub leaves: Seq<(Seq<u8>, Seq<u8>)>,
}

/// The entry that `PushLeaf` pushes.
pub open spec fn leaf_frame(k: Seq<u8>, v: Seq<u8>) -> FrameView {
    FrameView {
        kv: Some(kv_digest(k, v)),
        left: null_digest(),
        left_height: 0,
        has_left: false,
        right: null_digest(),
        right_height: 0,
        has_right: false,
        digest: node_digest(kv_digest(k, v), null_digest(), null_digest()),
        height: 1,
        leaves: seq![(k, v)],
    }
}

/// The entry that `PushHash` pushes.
pub open spec fn hash_frame(d: Seq<u8>, h: u8) -> FrameView {
    FrameView {
        kv: None,
        left: null_digest(),
        left_height: 0,
        has_left: false,
        right: null_digest(),
        right_height: 0,
        has_right: false,
        digest: d,
        height: h,
        leaves: Seq::empty(),
    }
}

/// The pairs of `a` may stand before those of `b`: the last key of `a` sorts
/// before the first of `b`.
pub open spec fn may_follow(a: Seq<(Seq<u8>, Seq<u8>)>, b: Seq<(Seq<u8>, Seq<u8>)>) -> bool {
    a.len() == 0 || b.len() == 0 || lex_lt(a.last().0, b[0].0)
}

/// The greater of two heights.
pub open spec fn higher(a: u8, b: u8) -> u8 {
    if a >= b {
        a
    } else {
        b
    }
}

/// The entry `s` with `t` as its left child. This fails where `s` was
/// pushed as a summary, where it has a left child already, where the pairs
/// below `t` do not all sort before those of `s`, or where the height would
/// not fit a byte.
pub open spec fn attach_left(s: FrameView, t: FrameView) -> Result<FrameView, Error> {
    if s.kv is None || s.has_left || !may_follow(t.leaves, s.leaves) || higher(
        t.height,
        s.right_height,
    ) == 255 {
        Err(Error::ProofInvalid)
    } else {
        Ok(
            FrameView {
                left: t.digest,
                left_height: t.height,
                has_left: true,
                digest: node_digest(s.kv.unwrap(), t.digest, s.right),
                height: (higher(t.height, s.right_height) + 1) as u8,
                leaves: t.leaves + s.leaves,
                ..s
            },
        )
    }
}

/// The entry `s` with `t` as its right child; it fails as `attach_left`
/// does, the sides exchanged.
pub open spec fn attach_right(s: FrameView, t: FrameView) -> Result<FrameView, Error> {
    if s.kv is None || s.has_right || !may_follow(s.leaves, t.leaves) || higher(
        s.left_height,
        t.height,
    ) == 255 {
        Err(Error::ProofInvalid)
    } else {
        Ok(
            FrameView {
                right: t.digest,
                right_height: t.height,
                has_right: true,
                digest: node_digest(s.kv.unwrap(), s.left, t.digest),
                height: (higher(s.left_height, t.height) + 1) as u8,
                leaves: s.leaves + t.leaves,
                ..s
            },
        )
    }
}

/// What one operation makes of the stack.
pub open spec fn step(stack: Seq<FrameView>, op: OpView) -> Result<Seq<FrameView>, Error> {
    match op {
        OpView::PushLeaf(k, v) => if k.len() > 255 {
            Err(Error::KeyTooLong)
        } else if v.len() > 65535 {
            Err(Error::ValueTooLong)
        } else {
            Ok(stack.push(leaf_frame(k, v)))
        },
        OpView::PushHash(d, h) => Ok(stack.push(hash_frame(d, h))),
        OpView::ParentLeft => if stack.len() < 2 {
            Err(Error::ProofInvalid)
        } else {
            match attach_left(stack[stack.len() - 2], stack[stack.len() - 1]) {
                Ok(f) => Ok(stack.subrange(0, stack.len() - 2).push(f)),
                Err(e) => Err(e),
            }
        },
        OpView::ParentRight => if stack.len() < 2 {
            Err(Error::ProofInvalid)
        } else {
            match attach_right(stack[stack.len() - 2], stack[stack.len() - 1]) {
                Ok(f) => Ok(stack.subrange(0, stack.len() - 2).push(f)),
                Err(e) => Err(e),
            }
        },
    }
}

/// What the operations, one after the other, make of the stack; the first
/// failure ends the run.
pub open spec fn run(stack: Seq<FrameView>, ops: Seq<OpView>) -> Result<Seq<FrameView>, Error>
    decreases ops.len(),
{
    if ops.len() == 0 {
        Ok(stack)
    } else {
        match step(stack, ops[0]) {
            Ok(next) => run(next, ops.drop_first()),
            Err(e) => Err(e),
        }
    }
}

/// What verifying a proof against a root digest gives: the pairs seen, by
/// ascending key, where the operations run without failure from the empty
/// stack to a single entry whose digest is the root digest.
pub open spec fn verified(expected: Seq<u8>, ops: Seq<OpView>) -> Result<
    Seq<(Seq<u8>, Seq<u8>)>,
    Error,
> {
    match run(Seq::empty(), ops) {
        Ok(stack) => if stack.len() == 1 && stack[0].digest == expected {
            Ok(stack[0].leaves)
        } else {
            Err(Error::ProofInvalid)
        },
        Err(e) => Err(e),
    }
}

/// Running two lists of operations one after the other is running them as
/// one list.
pub proof fn lemma_run_concat(stack: Seq<FrameView>, a: Seq<OpView>, b: Seq<OpView>)
    ensures
        run(stack, a + b) == match run(stack, a) {
            Ok(mid) => run(mid, b),
            Err(e) => Err(e),
        },
    decreases a.len(),
{
    if a.len() == 0 {
        assert(a + b =~= b);
    } else {
        assert((a + b)[0] == a[0]);
        assert((a + b).drop_first() =~= a.drop_first() + b);
        match step(stack, a[0]) {
            Ok(next) => {
                lemma_run_concat(next, a.drop_first(), b);
            },
            Err(e) => {},
        }
    }
}

/// The pairs of a list ascend strictly by key.
pub open spec fn pairs_ascend(p: Seq<(Seq<u8>, Seq<u8>)>) -> bool {
    forall|i: int, j: int| 0 <= i < j < p.len() ==> lex_lt(#[trigger] p[i].0, #[trigger] p[j].0)
}

/// The pairs of every entry of the stack ascend.
pub open spec fn stack_ascends(stack: Seq<FrameView>) -> bool {
    forall|i: int| 0 <= i < stack.len() ==> pairs_ascend((#[trigger] stack[i]).leaves)
}

proof fn lemma_joined_ascend(a: Seq<(Seq<u8>, Seq<u8>)>, b: Seq<(Seq<u8>, Seq<u8>)>)
    requires
        pairs_ascend(a),
        pairs_ascend(b),
        may_follow(a, b),
    ensures
        pairs_ascend(a + b),
{
    let c = a + b;
    assert forall|i: int, j: int| 0 <= i < j < c.len() implies lex_lt(
        #[trigger] c[i].0,
        #[trigger] c[j].0,
    ) by {
        if j < a.len() {
        } else if i >= a.len() {
            assert(c[i] == b[i - a.len()] && c[j] == b[j - a.len()]);
        } else {
            assert(c[i] == a[i] && c[j] == b[j - a.len()]);
            if i < a.len() - 1 {
                lemma_lex_transitive(a[i].0, a[a.len() - 1].0, b[0].0);
            }
            if j > a.len() {
                lemma_lex_transitive(a[i].0, b[0].0, b[j - a.len()].0);
            }
        }
    }
}

proof fn lemma_step_ascends(stack: Seq<FrameView>, op: OpView)
    requires
        stack_ascends(stack),
        step(stack, op) is Ok,
    ensures
        stack_ascends(step(stack, op).unwrap()),
{
    let next = step(stack, op).unwrap();
    let n = stack.len() as int;
    match op {
        OpView::PushLeaf(k, v) => {
            assert forall|i: int| 0 <= i < next.len() implies pairs_ascend(
                (#[trigger] next[i]).leaves,
            ) by {
                if i < n {
                    assert(next[i] == stack[i]);
                }
            }
        },
        OpView::PushHash(d, h) => {
            assert forall|i: int| 0 <= i < next.len() implies pairs_ascend(
                (#[trigger] next[i]).leaves,
            ) by {
                if i < n {
                    assert(next[i] == stack[i]);
                }
            }
        },
        OpView::ParentLeft => {
            let s = stack[n - 2];
            let t = stack[n - 1];
            lemma_joined_ascend(t.leaves, s.leaves);
            assert forall|i: int| 0 <= i < next.len() implies pairs_ascend(
                (#[trigger] next[i]).leaves,
            ) by {
                if i < n - 2 {
                    assert(next[i] == stack[i]);
                }
            }
        },
        OpView::ParentRight => {
            let s = stack[n - 2];
            let t = stack[n - 1];
            lemma_joined_ascend(s.leaves, t.leaves);
            assert forall|i: int| 0 <= i < next.len() implies pairs_ascend(
                (#[trigger] next[i]).leaves,
            ) by {
                if i < n - 2 {
                    assert(next[i] == stack[i]);
                }
            }
        },
    }
}

proof fn lemma_run_ascends(stack: Seq<FrameView>, ops: Seq<OpView>)
    requires
        stack_ascends(stack),
        run(stack, ops) is Ok,
    ensures
        stack_ascends(run(stack, ops).unwrap()),
    decreases ops.len(),
{
    if ops.len() > 0 {
        lemma_step_ascends(stack, ops[0]);
        lemma_run_ascends(step(stack, ops[0]).unwrap(), ops.drop_first());
    }
}

/// Whatever proof verifies, against whatever digest: the pairs it gives
/// ascend strictly by key.
pub proof fn lemma_verified_ascends(expected: Seq<u8>, ops: Seq<OpView>)
    requires
        verified(expected, ops) is Ok,
    ensures
        pairs_ascend(verified(expected, ops).unwrap()),
{
    lemma_run_ascends(Seq::empty(), ops);
    let stack = run(Seq::empty(), ops).unwrap();
    assert(pairs_ascend(stack[0].leaves));
}

/// An entry of the verifier's stack.
struct Frame {
    kv: Option<crate::hash::Hash>,
    left: crate::hash::Hash,
    left_height: u8,
    has_left: bool,
    right: crate::hash::Hash,
    right_height: u8,
    has_right: bool,
    digest: crate::hash::Hash,
    height: u8,
    leaves: Vec<(Vec<u8>, Vec<u8>)>,
}

impl View for Frame {
    type V = FrameView;

    closed spec fn view(&self) -> FrameView {
        FrameView {
            kv: match self.kv {
                Some(h) => Some(h@),
                None => None,
            },
            left: self.left@,
            left_height: self.left_height,
            has_left: self.has_left,
            right: self.right@,
            right_height: self.right_height,
            has_right: self.has_right,
            digest: self.digest@,
            height: self.height,
            leaves: pairs_view(self.leaves@),
        }
    }
}

spec fn stack_view(stack: Seq<Frame>) -> Seq<FrameView> {
    Seq::new(stack.len(), |i: int| stack[i]@)
}

fn may_follow_exec(a: &Vec<(Vec<u8>, Vec<u8>)>, b: &Vec<(Vec<u8>, Vec<u8>)>) -> (r: bool)
    ensures
        r == may_follow(pairs_view(a@), pairs_view(b@)),
{
    if a.len() == 0 || b.len() == 0 {
        true
    } else {
        compare_keys(a[a.len() - 1].0.as_slice(), b[0].0.as_slice()) == KeyOrder::Before
    }
}

fn attach(s: Frame, t: Frame, left: bool) -> (r: Result<Frame, Error>)
    ensures
        match r {
            Ok(f) => Ok::<FrameView, Error>(f@) == if left {
                attach_left(s@, t@)
            } else {
                attach_right(s@, t@)
            },
            Err(e) => Err::<FrameView, Error>(e) == if left {
                attach_left(s@, t@)
            } else {
                attach_right(s@, t@)
            },
        },
{
    let mut s = s;
    let mut t = t;
    let kv = match &s.kv {
        Some(kv) => *kv,
        None => { return Err(Error::ProofInvalid); },
    };
    let ghost sl = pairs_view(s.leaves@);
    let ghost tl = pairs_view(t.leaves@);
    if left {
        if s.has_left || !may_follow_exec(&t.leaves, &s.leaves) {
            return Err(Error::ProofInvalid);
        }
        let top = if t.height >= s.right_height {
            t.height
        } else {
            s.right_height
        };
        if top == 255 {
            return Err(Error::ProofInvalid);
        }
        let digest = crate::hash::hash(&kv, Some(&t.digest), Some(&s.right));
        let mut leaves = t.leaves;
        leaves.append(&mut s.leaves);
        assert(pairs_view(leaves@) =~= tl + sl);
        Ok(
            Frame {
                kv: s.kv,
                left: t.digest,
                left_height: t.height,
                has_left: true,
                right: s.right,
                right_height: s.right_height,
                has_right: s.has_right,
                digest,
                height: top + 1,
                leaves,
            },
        )
    } else {
        if s.has_right || !may_follow_exec(&s.leaves, &t.leaves) {
            return Err(Error::ProofInvalid);
        }
        let top = if s.left_height >= t.height {
            s.left_height
        } else {
            t.height
        };
        if top == 255 {
            return Err(Error::ProofInvalid);
        }
        let digest = crate::hash::hash(&kv, Some(&s.left), Some(&t.digest));
        let mut leaves = s.leaves;
        leaves.append(&mut t.leaves);
        assert(pairs_view(leaves@) =~= sl + tl);
        Ok(
            Frame {
                kv: s.kv,
                left: s.left,
                left_height: s.left_height,
                has_left: s.has_left,
                right: t.digest,
                right_height: t.height,
                has_right: true,
                digest,
                height: top + 1,
                leaves,
            },
        )
    }
}

fn step_exec(stack: &mut Vec<Frame>, op: &Op) -> (r: Result<(), Error>)
    ensures
        match r {
            Ok(_) => step(stack_view(old(stack)@), op@) == Ok::<Seq<FrameView>, Error>(
                stack_view(final(stack)@),
            ),
            Err(e) => step(stack_view(old(stack)@), op@) == Err::<Seq<FrameView>, Error>(e),
        },
{
    let ghost before = stack_view(stack@);
    match op {
        Op::PushLeaf(k, v) => {
            if k.len() > 255 {
                return Err(Error::KeyTooLong);
            }
            if v.len() > 65535 {
                return Err(Error::ValueTooLong);
            }
            let kv = crate::hash::kv_hash(k.as_slice(), v.as_slice());
            let digest = crate::hash::hash(&kv, None, None);
            let mut leaves: Vec<(Vec<u8>, Vec<u8>)> = Vec::new();
            leaves.push((copy_bytes(k.as_slice()), copy_bytes(v.as_slice())));
            assert(pairs_view(leaves@) =~= seq![(k@, v@)]);
            assert(crate::hash::NULL_HASH@ =~= null_digest());
            stack.push(
                Frame {
                    kv: Some(kv),
                    left: crate::hash::NULL_HASH,
                    left_height: 0,
                    has_left: false,
                    right: crate::hash::NULL_HASH,
                    right_height: 0,
                    has_right: false,
                    digest,
                    height: 1,
                    leaves,
                },
            );
            assert(stack_view(stack@) =~= before.push(leaf_frame(k@, v@)));
            Ok(())
        },
        Op::PushHash(d, h) => {
            let leaves: Vec<(Vec<u8>, Vec<u8>)> = Vec::new();
            assert(pairs_view(leaves@) =~= Seq::<(Seq<u8>, Seq<u8>)>::empty());
            assert(crate::hash::NULL_HASH@ =~= null_digest());
            stack.push(
                Frame {
                    kv: None,
                    left: crate::hash::NULL_HASH,
                    left_height: 0,
                    has_left: false,
                    right: crate::hash::NULL_HASH,
                    right_height: 0,
                    has_right: false,
                    digest: *d,
                    height: *h,
                    leaves,
                },
            );
            assert(stack_view(stack@) =~= before.push(hash_frame(d@, *h)));
            Ok(())
        },
        Op::ParentLeft | Op::ParentRight => {
            if stack.len() < 2 {
                return Err(Error::ProofInvalid);
            }
            let left = match op {
                Op::ParentLeft => true,
                _ => false,
            };
            let ghost n = stack@.len() as int;
            let t = stack.pop().unwrap();
            let s = stack.pop().unwrap();
            assert(t@ == before[n - 1] && s@ == before[n - 2]);
            assert(stack_view(stack@) =~= before.subrange(0, n - 2));
            match attach(s, t, left) {
                Ok(f) => {
                    let ghost rest = stack_view(stack@);
                    stack.push(f);
                    assert(stack_view(stack@) =~= rest.push(f@));
                    Ok(())
                },
                Err(e) => Err(e),
            }
        },
    }
}

/// What a result of `verify` stands for.
pub open spec fn outcome_view(r: Result<Vec<(Vec<u8>, Vec<u8>)>, Error>) -> Result<
    Seq<(Seq<u8>, Seq<u8>)>,
    Error,
> {
    match r {
        Ok(pairs) => Ok(pairs_view(pairs@)),
        Err(e) => Err(e),
    }
}

/// Replays the proof and checks the digest it arrives at against the
/// trusted root digest `expected`. Gives the pairs that the proof shows, by
/// ascending key; fails with `ProofInvalid` where the stack runs short, an
/// entry gets a child it cannot take, pairs are out of order, more or less
/// than one entry is left, or the digest differs; and with `KeyTooLong` or
/// `ValueTooLong` where a pair is too long to be hashed.
pub fn verify(expected: &[u8], ops: &Vec<Op>) -> (r: Result<Vec<(Vec<u8>, Vec<u8>)>, Error>)
    ensures
        outcome_view(r) == verified(expected@, ops_view(ops@)),
{
    let mut stack: Vec<Frame> = Vec::new();
    let ghost all = ops_view(ops@);
    let mut i: usize = 0;
    assert(stack_view(stack@) =~= Seq::<FrameView>::empty());
    assert(all.subrange(0, all.len() as int) =~= all);
    while i < ops.len()
        invariant
            i <= ops@.len(),
            all == ops_view(ops@),
            run(Seq::empty(), all) == run(
                stack_view(stack@),
                all.subrange(i as int, all.len() as int),
            ),
        decreases ops@.len() - i,
    {
        let ghost rest = all.subrange(i as int, all.len() as int);
        assert(rest[0] == ops@[i as int]@);
        assert(rest.drop_first() =~= all.subrange(i + 1, all.len() as int));
        match step_exec(&mut stack, &ops[i]) {
            Ok(_) => {},
            Err(e) => { return Err(e); },
        }
        i += 1;
    }
    if stack.len() != 1 {
        return Err(Error::ProofInvalid);
    }
    let top = stack.pop().unwrap();
    if expected.len() != 20 {
        assert(top.digest@.len() == 20);
        return Err(Error::ProofInvalid);
    }
    let mut same = true;
    let mut j: usize = 0;
    while j < 20
        invariant
            j <= 20,
            expected@.len() == 20,
            same <==> forall|x: int| 0 <= x < j ==> top.digest@[x] == expected@[x],
        decreases 20 - j,
    {
        if top.digest[j] != expected[j] {
            same = false;
        }
        j += 1;
    }
    if same {
        assert(top.digest@ =~= expected@);
        Ok(top.leaves)
    } else {
        Err(Error::ProofInvalid)
    }
}

// ---------------------------------------------------------------------------
// Making a proof
// ---------------------------------------------------------------------------

/// The pairs that a proof for the range from `start` to `end` shows of the
/// tree `s`, by ascending key: at each node reached the node's own pair,
/// before it those of the left subtree if `start` sorts before the node's
/// key, and behind it those of the right subtree if the node's key sorts
/// before `end`.
pub open spec fn shown(s: Shape, start: Seq<u8>, end: Seq<u8>) -> Seq<(Seq<u8>, Seq<u8>)>
    decreases s,
{
    match s {
        Shape::Nil => Seq::empty(),
        Shape::Node { left, key, value, right } => shown_side(
            lex_lt(start, key),
            shown(*left, start, end),
        ) + seq![(key, value)] + shown_side(lex_lt(key, end), shown(*right, start, end)),
    }
}

/// The pairs of a side that the proof goes into, none of one it does not.
pub open spec fn shown_side(descend: bool, pairs: Seq<(Seq<u8>, Seq<u8>)>) -> Seq<
    (Seq<u8>, Seq<u8>),
> {
    if descend {
        pairs
    } else {
        Seq::empty()
    }
}

/// The operations for one side of a node: none where there is no child;
/// else those of the child's subtree where the proof goes into it, or the
/// child's summary where it does not, and then the operation that attaches
/// the child.
pub open spec fn side_ops(c: Shape, descend: bool, below: Seq<OpView>, attach: OpView) -> Seq<
    OpView,
> {
    if c is Nil {
        Seq::empty()
    } else if descend {
        below + seq![attach]
    } else {
        seq![OpView::PushHash(c.digest(), c.height() as u8), attach]
    }
}

/// The operations that prove the range from `start` to `end` for the tree
/// below a node: the node's pair, then its left side, then its right side.
/// The proof goes into the left subtree where `start` sorts before the
/// node's key and into the right subtree where the node's key sorts before
/// `end`.
pub open spec fn node_ops(s: Shape, start: Seq<u8>, end: Seq<u8>) -> Seq<OpView>
    decreases s,
{
    match s {
        Shape::Nil => Seq::empty(),
        Shape::Node { left, key, value, right } => seq![OpView::PushLeaf(key, value)] + side_ops(
            *left,
            lex_lt(start, key),
            node_ops(*left, start, end),
            OpView::ParentLeft,
        ) + side_ops(
            *right,
            lex_lt(key, end),
            node_ops(*right, start, end),
            OpView::ParentRight,
        ),
    }
}

/// The proof of the range from `start` to `end` for the tree `s`; for the
/// empty tree the summary of the null digest alone.
pub open spec fn proof_ops(s: Shape, start: Seq<u8>, end: Seq<u8>) -> Seq<OpView> {
    if s is Nil {
        seq![OpView::PushHash(null_digest(), 0u8)]
    } else {
        node_ops(s, start, end)
    }
}

/// The stack entry that the operations for the tree below a node leave.
pub open spec fn frame_of(s: Shape, start: Seq<u8>, end: Seq<u8>) -> FrameView
    recommends
        s is Node,
{
    FrameView {
        kv: Some(kv_digest(s->key, s->value)),
        left: s->left.digest(),
        left_height: s->left.height() as u8,
        has_left: *s->left is Node,
        right: s->right.digest(),
        right_height: s->right.height() as u8,
        has_right: *s->right is Node,
        digest: s.digest(),
        height: s.height() as u8,
        leaves: shown(s, start, end),
    }
}

/// What a proof shows of a search tree: pairs of the tree, within the
/// tree's bounds, by ascending key, and among them every pair of the tree
/// whose key lies in the range.
pub proof fn lemma_shown(
    s: Shape,
    start: Seq<u8>,
    end: Seq<u8>,
    lo: Option<Seq<u8>>,
    hi: Option<Seq<u8>>,
)
    requires
        s.ok(lo, hi),
    ensures
        pairs_ascend(shown(s, start, end)),
        forall|i: int|
            0 <= i < shown(s, start, end).len() ==> {
                &&& between(lo, (#[trigger] shown(s, start, end)[i]).0, hi)
                &&& s.map().contains_key(shown(s, start, end)[i].0)
                &&& s.map()[shown(s, start, end)[i].0] == shown(s, start, end)[i].1
            },
        forall|k: Seq<u8>|
            s.map().contains_key(k) && in_range(start, k, end) ==> exists|i: int|
                0 <= i < shown(s, start, end).len() && #[trigger] shown(s, start, end)[i] == (
                    k,
                    s.map()[k],
                ),
    decreases s,
{
    match s {
        Shape::Nil => {},
        Shape::Node { left, key, value, right } => {
            lemma_shown(*left, start, end, lo, Some(key));
            lemma_shown(*right, start, end, Some(key), hi);
            lemma_apart(*left, *right, lo, key, hi);
            let l = shown_side(lex_lt(start, key), shown(*left, start, end));
            let r = shown_side(lex_lt(key, end), shown(*right, start, end));
            let all = shown(s, start, end);
            let n = l.len() as int;
            assert(all == l + seq![(key, value)] + r);
            assert forall|i: int| 0 <= i < all.len() implies {
                &&& between(lo, (#[trigger] all[i]).0, hi)
                &&& s.map().contains_key(all[i].0)
                &&& s.map()[all[i].0] == all[i].1
                &&& i < n ==> lex_lt(all[i].0, key) && all[i] == l[i]
                &&& i == n ==> all[i].0 == key
                &&& i > n ==> lex_lt(key, all[i].0) && all[i] == r[i - n - 1]
            } by {
                if i < n {
                    assert(all[i] == l[i]);
                    lemma_between_widen(lo, l[i].0, Some(key), lo, hi);
                } else if i > n {
                    assert(all[i] == r[i - n - 1]);
                    lemma_between_widen(Some(key), r[i - n - 1].0, hi, lo, hi);
                }
            }
            assert forall|i: int, j: int| 0 <= i < j < all.len() implies lex_lt(
                #[trigger] all[i].0,
                #[trigger] all[j].0,
            ) by {
                if j < n {
                } else if i > n {
                } else if i < n && j > n {
                    lemma_lex_transitive(all[i].0, key, all[j].0);
                }
            }
            assert forall|k: Seq<u8>|
                s.map().contains_key(k) && in_range(start, k, end) implies exists|i: int|
                0 <= i < all.len() && #[trigger] all[i] == (k, s.map()[k]) by {
                if k == key {
                    assert(all[n] == (k, s.map()[k]));
                } else if left.map().contains_key(k) {
                    assert(lex_lt(k, key));
                    if start != k {
                        lemma_lex_transitive(start, k, key);
                    }
                    let i = choose|i: int|
                        0 <= i < shown(*left, start, end).len() && #[trigger] shown(
                            *left,
                            start,
                            end,
                        )[i] == (k, left.map()[k]);
                    assert(all[i] == (k, s.map()[k]));
                } else {
                    assert(right.map().contains_key(k));
                    assert(lex_lt(key, k));
                    if k != end {
                        lemma_lex_transitive(key, k, end);
                    }
                    let i = choose|i: int|
                        0 <= i < shown(*right, start, end).len() && #[trigger] shown(
                            *right,
                            start,
                            end,
                        )[i] == (k, right.map()[k]);
                    assert(all[n + 1 + i] == (k, s.map()[k]));
                }
            }
        },
    }
}

/// Running a single operation is taking one step.
pub proof fn lemma_run_one(stack: Seq<FrameView>, op: OpView)
    ensures
        run(stack, seq![op]) == step(stack, op),
{
    let ops = seq![op];
    assert(ops[0] == op);
    assert(ops.drop_first() =~= Seq::<OpView>::empty());
    match step(stack, op) {
        Ok(next) => {
            assert(run(next, Seq::<OpView>::empty()) == Ok::<Seq<FrameView>, Error>(next));
        },
        Err(e) => {},
    }
}

/// Running the operations of one side of a node attaches to the entry on
/// top of the stack, as its child on that side, what the side stands for.
proof fn lemma_side_runs(
    stack: Seq<FrameView>,
    top: FrameView,
    c: Shape,
    descend: bool,
    below_ops: Seq<OpView>,
    below_frame: FrameView,
    left: bool,
)
    requires
        c is Node,
        c.height() < 255,
        descend ==> run(stack.push(top), below_ops) == Ok::<Seq<FrameView>, Error>(
            stack.push(top).push(below_frame),
        ),
        below_frame.digest == c.digest(),
        below_frame.height == c.height() as u8,
    ensures
        ({
            let child = if descend {
                below_frame
            } else {
                hash_frame(c.digest(), c.height() as u8)
            };
            let attached = if left {
                attach_left(top, child)
            } else {
                attach_right(top, child)
            };
            let ops = side_ops(
                c,
                descend,
                below_ops,
                if left {
                    OpView::ParentLeft
                } else {
                    OpView::ParentRight
                },
            );
            run(stack.push(top), ops) == match attached {
                Ok(f) => Ok::<Seq<FrameView>, Error>(stack.push(f)),
                Err(e) => Err::<Seq<FrameView>, Error>(e),
            }
        }),
{
    let attach = if left {
        OpView::ParentLeft
    } else {
        OpView::ParentRight
    };
    let child = if descend {
        below_frame
    } else {
        hash_frame(c.digest(), c.height() as u8)
    };
    let st1 = stack.push(top);
    let st2 = st1.push(child);
    let push_ops = if descend {
        below_ops
    } else {
        seq![OpView::PushHash(c.digest(), c.height() as u8)]
    };
    assert(side_ops(c, descend, below_ops, attach) =~= push_ops + seq![attach]);
    if !descend {
        lemma_run_one(st1, OpView::PushHash(c.digest(), c.height() as u8));
    }
    assert(run(st1, push_ops) == Ok::<Seq<FrameView>, Error>(st2));
    lemma_run_concat(st1, push_ops, seq![attach]);
    lemma_run_one(st2, attach);
    assert(st2[st2.len() - 1] == child);
    assert(st2[st2.len() - 2] == top);
    assert(st2.subrange(0, st2.len() - 2) =~= stack);
}

/// Running the operations for the tree below a node pushes the entry that
/// stands for that tree.
pub proof fn lemma_node_ops_run(
    s: Shape,
    start: Seq<u8>,
    end: Seq<u8>,
    stack: Seq<FrameView>,
    lo: Option<Seq<u8>>,
    hi: Option<Seq<u8>>,
)
    requires
        s is Node,
        s.ok(lo, hi),
    ensures
        run(stack, node_ops(s, start, end)) == Ok::<Seq<FrameView>, Error>(
            stack.push(frame_of(s, start, end)),
        ),
    decreases s,
{
    let left = *s->left;
    let right = *s->right;
    let key = s->key;
    let value = s->value;
    let kv = kv_digest(key, value);
    let a0 = seq![OpView::PushLeaf(key, value)];
    let dl = lex_lt(start, key);
    let dr = lex_lt(key, end);
    let al = side_ops(left, dl, node_ops(left, start, end), OpView::ParentLeft);
    let ar = side_ops(right, dr, node_ops(right, start, end), OpView::ParentRight);
    let f0 = leaf_frame(key, value);
    lemma_run_one(stack, OpView::PushLeaf(key, value));
    assert(run(stack, a0) == Ok::<Seq<FrameView>, Error>(stack.push(f0)));
    lemma_shown(left, start, end, lo, Some(key));
    lemma_shown(right, start, end, Some(key), hi);
    let sl = shown_side(dl, shown(left, start, end));
    let sr = shown_side(dr, shown(right, start, end));
    // the left side
    let f1 = if left is Node {
        FrameView {
            left: left.digest(),
            left_height: left.height() as u8,
            has_left: true,
            digest: node_digest(kv, left.digest(), null_digest()),
            height: (left.height() + 1) as u8,
            leaves: sl + seq![(key, value)],
            ..f0
        }
    } else {
        f0
    };
    assert(run(stack.push(f0), al) == Ok::<Seq<FrameView>, Error>(stack.push(f1))) by {
        if left is Node {
            if dl {
                lemma_node_ops_run(left, start, end, stack.push(f0), lo, Some(key));
            }
            let below = frame_of(left, start, end);
            lemma_side_runs(stack, f0, left, dl, node_ops(left, start, end), below, true);
            let child = if dl {
                below
            } else {
                hash_frame(left.digest(), left.height() as u8)
            };
            assert(child.leaves =~= sl);
            if sl.len() > 0 {
                assert(lex_lt(sl[sl.len() - 1].0, key));
            }
            assert(may_follow(child.leaves, f0.leaves));
            assert(attach_left(f0, child) == Ok::<FrameView, Error>(f1));
        } else {
            assert(al =~= Seq::<OpView>::empty());
            assert(sl =~= Seq::<(Seq<u8>, Seq<u8>)>::empty());
            assert(f0.leaves =~= sl + seq![(key, value)]);
        }
    }
    // the right side
    let f2 = frame_of(s, start, end);
    assert(run(stack.push(f1), ar) == Ok::<Seq<FrameView>, Error>(stack.push(f2))) by {
        assert(f1.leaves =~= sl + seq![(key, value)]);
        if right is Node {
            if dr {
                lemma_node_ops_run(right, start, end, stack.push(f1), Some(key), hi);
            }
            let below = frame_of(right, start, end);
            lemma_side_runs(
                stack,
                f1,
                right,
                dr,
                node_ops(right, start, end),
                below,
                false,
            );
            let child = if dr {
                below
            } else {
                hash_frame(right.digest(), right.height() as u8)
            };
            assert(child.leaves =~= sr);
            assert(f1.leaves.last().0 == key);
            if sr.len() > 0 {
                assert(lex_lt(key, sr[0].0));
            }
            assert(may_follow(f1.leaves, child.leaves));
            assert(f1.leaves + child.leaves =~= shown(s, start, end));
            assert(attach_right(f1, child) == Ok::<FrameView, Error>(f2));
        } else {
            assert(ar =~= Seq::<OpView>::empty());
            assert(sr =~= Seq::<(Seq<u8>, Seq<u8>)>::empty());
            assert(f1.leaves =~= shown(s, start, end));
            assert(f1 == f2);
        }
    }
    lemma_run_concat(stack, a0, al);
    lemma_run_concat(stack, a0 + al, ar);
}

/// The round trip of a proof. For a search tree `s` and any range, the
/// proof made for the range verifies against the digest of the tree; the
/// pairs it gives are pairs of the tree, by ascending key; and among them is
/// every pair of the tree whose key lies in the range.
pub proof fn lemma_proof_round_trip(s: Shape, start: Seq<u8>, end: Seq<u8>)
    requires
        s.ok(None, None),
    ensures
        verified(s.digest(), proof_ops(s, start, end)) == Ok::<Seq<(Seq<u8>, Seq<u8>)>, Error>(
            shown(s, start, end),
        ),
        pairs_ascend(shown(s, start, end)),
        forall|i: int|
            0 <= i < shown(s, start, end).len() ==> s.map().contains_key(
                (#[trigger] shown(s, start, end)[i]).0,
            ) && s.map()[shown(s, start, end)[i].0] == shown(s, start, end)[i].1,
        forall|k: Seq<u8>|
            s.map().contains_key(k) && in_range(start, k, end) ==> exists|i: int|
                0 <= i < shown(s, start, end).len() && #[trigger] shown(s, start, end)[i] == (
                    k,
                    s.map()[k],
                ),
{
    lemma_shown(s, start, end, None, None);
    let empty = Seq::<FrameView>::empty();
    if s is Nil {
        lemma_run_one(empty, OpView::PushHash(null_digest(), 0u8));
        let st = empty.push(hash_frame(null_digest(), 0u8));
        assert(st[0] == hash_frame(null_digest(), 0u8));
        assert(st[0].leaves =~= shown(s, start, end));
    } else {
        lemma_node_ops_run(s, start, end, empty, None, None);
        let st = empty.push(frame_of(s, start, end));
        assert(st[0] == frame_of(s, start, end));
    }
}

/// Writes the operations for the tree below the node stored under `key`.
fn emit<D: Database>(
    db: &D,
    key: &[u8],
    start: &[u8],
    end: &[u8],
    out: &mut Vec<Op>,
    Ghost(s): Ghost<Shape>,
    Ghost(lo): Ghost<Option<Seq<u8>>>,
    Ghost(hi): Ghost<Option<Seq<u8>>>,
) -> (r: Result<(), Error>)
    requires
        db.inv(),
        s is Node,
        s.ok(lo, hi),
        s.stored(records(db.contents())),
        key@ == s->key,
    ensures
        r is Ok,
        ops_view(final(out)@) == ops_view(old(out)@) + node_ops(s, start@, end@),
    decreases s,
{
    let ghost before = ops_view(out@);
    let ghost left = *s->left;
    let ghost right = *s->right;
    let node = match get_node(db, key) {
        Ok(n) => n,
        Err(e) => { return Err(e); },
    };
    proof {
        lemma_record(s);
    }
    out.push(Op::PushLeaf(copy_bytes(node.key.as_slice()), copy_bytes(node.value.as_slice())));
    let ghost a0 = seq![OpView::PushLeaf(s->key, s->value)];
    assert(ops_view(out@) =~= before + a0);
    let ghost al = side_ops(
        left,
        lex_lt(start@, key@),
        node_ops(left, start@, end@),
        OpView::ParentLeft,
    );
    match &node.left {
        Some(l) => {
            let ghost mid = ops_view(out@);
            if compare_keys(start, key) == KeyOrder::Before {
                match emit(
                    db,
                    l.key.as_slice(),
                    start,
                    end,
                    out,
                    Ghost(left),
                    Ghost(lo),
                    Ghost(Some(key@)),
                ) {
                    Ok(_) => {},
                    Err(e) => { return Err(e); },
                }
            } else {
                out.push(Op::PushHash(l.hash, l.height));
                assert(ops_view(out@) =~= mid + seq![
                    OpView::PushHash(left.digest(), left.height() as u8),
                ]);
            }
            let ghost pushed = ops_view(out@);
            out.push(Op::ParentLeft);
            assert(ops_view(out@) =~= pushed + seq![OpView::ParentLeft]);
            assert(ops_view(out@) =~= before + a0 + al);
        },
        None => {
            assert(ops_view(out@) =~= before + a0 + al);
        },
    }
    let ghost ar = side_ops(
        right,
        lex_lt(key@, end@),
        node_ops(right, start@, end@),
        OpView::ParentRight,
    );
    match &node.right {
        Some(r) => {
            let ghost mid = ops_view(out@);
            if compare_keys(key, end) == KeyOrder::Before {
                match emit(
                    db,
                    r.key.as_slice(),
                    start,
                    end,
                    out,
                    Ghost(right),
                    Ghost(Some(key@)),
                    Ghost(hi),
                ) {
                    Ok(_) => {},
                    Err(e) => { return Err(e); },
                }
            } else {
                out.push(Op::PushHash(r.hash, r.height));
                assert(ops_view(out@) =~= mid + seq![
                    OpView::PushHash(right.digest(), right.height() as u8),
                ]);
            }
            let ghost pushed = ops_view(out@);
            out.push(Op::ParentRight);
            assert(ops_view(out@) =~= pushed + seq![OpView::ParentRight]);
            assert(ops_view(out@) =~= before + a0 + al + ar);
        },
        None => {
            assert(ops_view(out@) =~= before + a0 + al + ar);
        },
    }
    assert(before + a0 + al + ar =~= before + (a0 + al + ar));
    Ok(())
}

/// Makes the proof of the range from `start` to `end`, both included, for
/// the tree of the handle, fetching the nodes it shows from the store. The
/// handle stays as it is.
pub fn create<D: Database>(merk: &mut Merk<D>, start: &[u8], end: &[u8]) -> (r: Result<
    Vec<Op>,
    Error,
>)
    requires
        old(merk).wf(),
    ensures
        *final(merk) == *old(merk),
        r matches Ok(ops) && ops_view(ops@) == proof_ops(old(merk).shape(), start@, end@),
{
    let mut out: Vec<Op> = Vec::new();
    assert(ops_view(out@) =~= Seq::<OpView>::empty());
    match &merk.tree {
        Some(t) => {
            proof {
                crate::sparse_tree::lemma_wf_node(**t, records(merk.store()));
            }
            let ghost s = merk.shape();
            match emit(&merk.db, t.key(), start, end, &mut out, Ghost(s), Ghost(None), Ghost(None)) {
                Ok(_) => {},
                Err(e) => { return Err(e); },
            }
            assert(Seq::<OpView>::empty() + node_ops(merk.shape(), start@, end@) =~= node_ops(
                merk.shape(),
                start@,
                end@,
            ));
        },
        None => {
            assert(crate::hash::NULL_HASH@ =~= null_digest());
            out.push(Op::PushHash(crate::hash::NULL_HASH, 0));
            assert(ops_view(out@) =~= seq![OpView::PushHash(null_digest(), 0u8)]);
        },
    }
    Ok(out)
}

} // verus!
