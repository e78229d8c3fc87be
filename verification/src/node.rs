//! The persisted form of a tree node, the links to its children, and the
//! byte layout under which a node is stored.

use crate::bytes::{append_bytes, copy_bytes};
use crate::error::Error;
use crate::hash::{kv_digest, node_digest, null_digest};
use vstd::bytes::{
    lemma_auto_spec_u64_to_from_le_bytes, spec_u64_from_le_bytes, spec_u64_to_le_bytes,
    u64_from_le_bytes, u64_to_le_bytes,
};
use vstd::prelude::*;
use vstd::slice::slice_subrange;

verus! {

/// A reference to another tree node: its key, the digest of its subtree and
/// the height of its subtree. The node itself need not be in memory; it can
/// be fetched from the store by its key.
#[derive(Debug, PartialEq, Eq)]
pub struct Link {
    pub key: Vec<u8>,
    pub hash: crate::hash::Hash,
    pub height: u8,
}

/// A link as a mathematical value.
pub struct LinkView {
    pub key: Seq<u8>,
    pub hash: Seq<u8>,
    pub height: u8,
}

impl View for Link {
    type V = LinkView;

    open spec fn view(&self) -> LinkView {
        LinkView { key: self.key@, hash: self.hash@, height: self.height }
    }
}

impl Clone for Link {
    fn clone(&self) -> (res: Self)
        ensures
            res@ == self@,
    {
        Link { key: copy_bytes(self.key.as_slice()), hash: self.hash, height: self.height }
    }
}

/// A tree node with its key/value pair, as it is stored: the children are
/// links only.
#[derive(Debug, PartialEq, Eq)]
pub struct Node {
    pub key: Vec<u8>,
    pub value: Vec<u8>,
    pub kv_hash: crate::hash::Hash,
    pub left: Option<Link>,
    pub right: Option<Link>,
}

/// A node as a mathematical value.
pub struct NodeView {
    pub key: Seq<u8>,
    pub value: Seq<u8>,
    pub kv_hash: Seq<u8>,
    pub left: Option<LinkView>,
    pub right: Option<LinkView>,
}

/// The view of an optional link.
pub open spec fn link_view(link: Option<Link>) -> Option<LinkView> {
    match link {
        Some(l) => Some(l@),
        None => None,
    }
}

/// The digest that an optional link contributes to its parent.
pub open spec fn link_digest(link: Option<LinkView>) -> Seq<u8> {
    match link {
        Some(l) => l.hash,
        None => null_digest(),
    }
}

/// The height that an optional link contributes to its parent.
pub open spec fn link_height(link: Option<LinkView>) -> int {
    match link {
        Some(l) => l.height as int,
        None => 0,
    }
}

impl NodeView {
    /// The digest of the node's subtree, from its key/value digest and the
    /// digests that its links record.
    pub open spec fn digest(self) -> Seq<u8> {
        node_digest(self.kv_hash, link_digest(self.left), link_digest(self.right))
    }

    /// One more than the greater of the heights that the links record.
    pub open spec fn height(self) -> int {
        if link_height(self.left) >= link_height(self.right) {
            link_height(self.left) + 1
        } else {
            link_height(self.right) + 1
        }
    }

    /// The recorded height of the right child less that of the left.
    pub open spec fn balance_factor(self) -> int {
        link_height(self.right) - link_height(self.left)
    }

    /// The link under which a parent refers to this node.
    pub open spec fn as_link(self) -> LinkView
        recommends
            self.height() <= 255,
    {
        LinkView { key: self.key, hash: self.digest(), height: self.height() as u8 }
    }

    /// Every digest held is 20 bytes wide, and the lengths fit 64 bits.
    pub open spec fn encodable(self) -> bool {
        &&& self.value.len() <= u64::MAX
        &&& self.kv_hash.len() == 20
        &&& child_encodable(self.left)
        &&& child_encodable(self.right)
    }
}

/// An optional link whose digest is 20 bytes wide and whose key length fits
/// 64 bits.
pub open spec fn child_encodable(c: Option<LinkView>) -> bool {
    match c {
        Some(l) => l.key.len() <= u64::MAX && l.hash.len() == 20,
        None => true,
    }
}

impl View for Node {
    type V = NodeView;

    open spec fn view(&self) -> NodeView {
        NodeView {
            key: self.key@,
            value: self.value@,
            kv_hash: self.kv_hash@,
            left: link_view(self.left),
            right: link_view(self.right),
        }
    }
}

fn clone_link(link: &Option<Link>) -> (res: Option<Link>)
    ensures
        link_view(res) == link_view(*link),
{
    match link {
        Some(l) => Some(l.clone()),
        None => None,
    }
}

impl Clone for Node {
    fn clone(&self) -> (res: Self)
        ensures
            res@ == self@,
    {
        Node {
            key: copy_bytes(self.key.as_slice()),
            value: copy_bytes(self.value.as_slice()),
            kv_hash: self.kv_hash,
            left: clone_link(&self.left),
            right: clone_link(&self.right),
        }
    }
}

// ---------------------------------------------------------------------------
// The stored layout
// ---------------------------------------------------------------------------

/// A byte string in the layout: its length as 8 bytes, low byte first, then
/// the bytes.
pub open spec fn encode_bytes(s: Seq<u8>) -> Seq<u8> {
    spec_u64_to_le_bytes(s.len() as u64) + s
}

/// A link in the layout: key, digest, height.
pub open spec fn encode_link(l: LinkView) -> Seq<u8> {
    encode_bytes(l.key) + l.hash + seq![l.height]
}

/// An optional link in the layout: the byte 0, or the byte 1 and the link.
pub open spec fn encode_child(c: Option<LinkView>) -> Seq<u8> {
    match c {
        None => seq![0u8],
        Some(l) => seq![1u8] + encode_link(l),
    }
}

/// A node in the layout: value, key/value digest, left link, right link. The
/// key is not part of it: a node is stored under its key.
pub open spec fn encode_node(n: NodeView) -> Seq<u8> {
    encode_bytes(n.value) + n.kv_hash + encode_child(n.left) + encode_child(n.right)
}

/// Reads a length-prefixed byte string at `at`; gives it with the index
/// behind it.
pub open spec fn parse_bytes(b: Seq<u8>, at: int) -> Option<(Seq<u8>, int)> {
    if 0 <= at && at + 8 <= b.len() {
        let n = spec_u64_from_le_bytes(b.subrange(at, at + 8)) as int;
        if at + 8 + n <= b.len() {
            Some((b.subrange(at + 8, at + 8 + n), at + 8 + n))
        } else {
            None
        }
    } else {
        None
    }
}

/// Reads a digest at `at`.
pub open spec fn parse_hash(b: Seq<u8>, at: int) -> Option<(Seq<u8>, int)> {
    if 0 <= at && at + 20 <= b.len() {
        Some((b.subrange(at, at + 20), at + 20))
    } else {
        None
    }
}

/// Reads a link at `at`.
pub open spec fn parse_link(b: Seq<u8>, at: int) -> Option<(LinkView, int)> {
    match parse_bytes(b, at) {
        Some((key, at1)) => match parse_hash(b, at1) {
            Some((hash, at2)) => if at2 < b.len() {
                Some((LinkView { key, hash, height: b[at2] }, at2 + 1))
            } else {
                None
            },
            None => None,
        },
        None => None,
    }
}

/// Reads an optional link at `at`.
pub open spec fn parse_child(b: Seq<u8>, at: int) -> Option<(Option<LinkView>, int)> {
    if 0 <= at < b.len() {
        if b[at] == 0 {
            Some((None, at + 1))
        } else if b[at] == 1 {
            match parse_link(b, at + 1) {
                Some((l, at1)) => Some((Some(l), at1)),
                None => None,
            }
        } else {
            None
        }
    } else {
        None
    }
}

/// The node that the bytes `b` hold in the layout, under the key `key`, if
/// they start with a node. Bytes behind the node are ignored.
pub open spec fn decode_node(key: Seq<u8>, b: Seq<u8>) -> Option<NodeView> {
    match parse_bytes(b, 0) {
        Some((value, at1)) => match parse_hash(b, at1) {
            Some((kv_hash, at2)) => match parse_child(b, at2) {
                Some((left, at3)) => match parse_child(b, at3) {
                    Some((right, _)) => Some(NodeView { key, value, kv_hash, left, right }),
                    None => None,
                },
                None => None,
            },
            None => None,
        },
        None => None,
    }
}

proof fn lemma_parse_bytes(b: Seq<u8>, at: int, s: Seq<u8>)
    requires
        0 <= at,
        s.len() <= u64::MAX,
        at + encode_bytes(s).len() <= b.len(),
        b.subrange(at, at + encode_bytes(s).len()) == encode_bytes(s),
    ensures
        encode_bytes(s).len() == 8 + s.len(),
        parse_bytes(b, at) == Some((s, at + 8 + s.len())),
{
    lemma_auto_spec_u64_to_from_le_bytes();
    let e = encode_bytes(s);
    let n = s.len() as u64;
    let sl = s.len() as int;
    assert(e.len() == 8 + sl);
    assert(b.subrange(at, at + 8) =~= e.subrange(0, 8));
    assert(e.subrange(0, 8) =~= spec_u64_to_le_bytes(n));
    assert(b.subrange(at + 8, at + 8 + sl) =~= e.subrange(8, 8 + sl));
    assert(e.subrange(8, 8 + sl) =~= s);
}

proof fn lemma_parse_link(b: Seq<u8>, at: int, l: LinkView)
    requires
        0 <= at,
        l.key.len() <= u64::MAX,
        l.hash.len() == 20,
        at + encode_link(l).len() <= b.len(),
        b.subrange(at, at + encode_link(l).len()) == encode_link(l),
    ensures
        encode_link(l).len() == 29 + l.key.len(),
        parse_link(b, at) == Some((l, at + 29 + l.key.len())),
{
    lemma_auto_spec_u64_to_from_le_bytes();
    let e = encode_link(l);
    let k = encode_bytes(l.key);
    let kl = k.len() as int;
    assert(kl == 8 + l.key.len());
    assert(b.subrange(at, at + kl) =~= e.subrange(0, kl));
    assert(e.subrange(0, kl) =~= k);
    lemma_parse_bytes(b, at, l.key);
    let at1 = at + kl;
    assert(b.subrange(at1, at1 + 20) =~= e.subrange(kl, kl + 20));
    assert(e.subrange(kl, kl + 20) =~= l.hash);
    assert(b[at1 + 20] == b.subrange(at, at + e.len())[kl + 20]);
}

proof fn lemma_parse_child(b: Seq<u8>, at: int, c: Option<LinkView>)
    requires
        0 <= at,
        child_encodable(c),
        at + encode_child(c).len() <= b.len(),
        b.subrange(at, at + encode_child(c).len()) == encode_child(c),
    ensures
        parse_child(b, at) == Some((c, at + encode_child(c).len())),
{
    let e = encode_child(c);
    assert(b[at] == b.subrange(at, at + e.len())[0]);
    match c {
        None => {},
        Some(l) => {
            lemma_auto_spec_u64_to_from_le_bytes();
            let el = encode_link(l);
            let n = el.len() as int;
            assert(b.subrange(at + 1, at + 1 + n) =~= e.subrange(1, 1 + n));
            assert(e.subrange(1, 1 + n) =~= el);
            lemma_parse_link(b, at + 1, l);
        },
    }
}

/// Decoding what was encoded gives the node back, under the key it is stored
/// by, whatever bytes follow the encoding.
pub proof fn lemma_decode_encode_prefix(n: NodeView, rest: Seq<u8>)
    requires
        n.encodable(),
    ensures
        decode_node(n.key, encode_node(n) + rest) == Some(n),
{
    lemma_auto_spec_u64_to_from_le_bytes();
    let b = encode_node(n) + rest;
    let e1 = encode_bytes(n.value);
    let e3 = encode_child(n.left);
    let e4 = encode_child(n.right);
    assert(b.subrange(0, e1.len() as int) =~= e1);
    lemma_parse_bytes(b, 0, n.value);
    let at1 = e1.len() as int;
    assert(b.subrange(at1, at1 + 20) =~= n.kv_hash);
    let at2 = at1 + 20;
    assert(b.subrange(at2, at2 + e3.len()) =~= e3);
    lemma_parse_child(b, at2, n.left);
    let at3 = at2 + e3.len();
    assert(b.subrange(at3, at3 + e4.len()) =~= e4);
    lemma_parse_child(b, at3, n.right);
}

/// Decoding what was encoded gives the node back, under the key it is stored
/// by.
pub proof fn lemma_decode_encode(n: NodeView)
    requires
        n.encodable(),
    ensures
        decode_node(n.key, encode_node(n)) == Some(n),
{
    lemma_decode_encode_prefix(n, Seq::empty());
    assert(encode_node(n) + Seq::<u8>::empty() =~= encode_node(n));
}

proof fn lemma_parsed_bytes(b: Seq<u8>, at: int)
    requires
        parse_bytes(b, at) is Some,
    ensures
        ({
            let (s, next) = parse_bytes(b, at).unwrap();
            &&& s.len() <= u64::MAX
            &&& 0 <= at <= next <= b.len()
            &&& next == at + encode_bytes(s).len()
            &&& b.subrange(at, next) == encode_bytes(s)
        }),
{
    lemma_auto_spec_u64_to_from_le_bytes();
    let (s, next) = parse_bytes(b, at).unwrap();
    let head = b.subrange(at, at + 8);
    let n = spec_u64_from_le_bytes(head);
    assert(s.len() == n);
    assert(spec_u64_to_le_bytes(n) == head);
    assert(b.subrange(at, next) =~= encode_bytes(s));
}

proof fn lemma_parsed_child(b: Seq<u8>, at: int)
    requires
        parse_child(b, at) is Some,
    ensures
        ({
            let (c, next) = parse_child(b, at).unwrap();
            &&& child_encodable(c)
            &&& 0 <= at <= next <= b.len()
            &&& next == at + encode_child(c).len()
            &&& b.subrange(at, next) == encode_child(c)
        }),
{
    lemma_auto_spec_u64_to_from_le_bytes();
    let (c, next) = parse_child(b, at).unwrap();
    match c {
        None => {
            assert(b.subrange(at, next) =~= encode_child(c));
        },
        Some(l) => {
            lemma_parsed_bytes(b, at + 1);
            let (key, at1) = parse_bytes(b, at + 1).unwrap();
            assert(b.subrange(at, next) =~= seq![1u8] + b.subrange(at + 1, at1) + b.subrange(
                at1,
                at1 + 20,
            ) + seq![b[at1 + 20]]);
            assert(b.subrange(at, next) =~= encode_child(c));
        },
    }
}

/// What decodes to a node starts with the encoding of that node, and the
/// node has the key it was decoded under: so bytes fail to decode exactly
/// where they start with no node's encoding.
pub proof fn lemma_decoded_is_prefix(key: Seq<u8>, b: Seq<u8>)
    requires
        decode_node(key, b) is Some,
    ensures
        ({
            let n = decode_node(key, b).unwrap();
            &&& n.key == key
            &&& n.encodable()
            &&& encode_node(n).len() <= b.len()
            &&& b.subrange(0, encode_node(n).len() as int) == encode_node(n)
        }),
{
    let n = decode_node(key, b).unwrap();
    lemma_parsed_bytes(b, 0);
    let (value, at1) = parse_bytes(b, 0).unwrap();
    let (kv_hash, at2) = parse_hash(b, at1).unwrap();
    lemma_parsed_child(b, at2);
    let (left, at3) = parse_child(b, at2).unwrap();
    lemma_parsed_child(b, at3);
    let (right, at4) = parse_child(b, at3).unwrap();
    assert(b.subrange(0, at4) =~= b.subrange(0, at1) + b.subrange(at1, at2) + b.subrange(at2, at3)
        + b.subrange(at3, at4));
    assert(encode_node(n) =~= b.subrange(0, at4));
}

/// The view of any node in memory can be encoded.
pub proof fn lemma_node_encodable(n: Node)
    ensures
        n@.encodable(),
{
    assert(n.value@.len() == n.value.len());
    assert(n.kv_hash@.len() == 20);
    match n.left {
        Some(l) => {
            assert(l.key@.len() == l.key.len());
            assert(l.hash@.len() == 20);
        },
        None => {},
    }
    match n.right {
        Some(l) => {
            assert(l.key@.len() == l.key.len());
            assert(l.hash@.len() == 20);
        },
        None => {},
    }
}

fn put_bytes(buf: &mut Vec<u8>, s: &[u8])
    ensures
        final(buf)@ == old(buf)@ + encode_bytes(s@),
{
    let len = u64_to_le_bytes(s.len() as u64);
    append_bytes(buf, len.as_slice());
    append_bytes(buf, s);
    assert(buf@ =~= old(buf)@ + encode_bytes(s@));
}

fn put_child(buf: &mut Vec<u8>, c: &Option<Link>)
    ensures
        final(buf)@ == old(buf)@ + encode_child(link_view(*c)),
{
    match c {
        None => {
            buf.push(0u8);
            assert(buf@ =~= old(buf)@ + encode_child(link_view(*c)));
        },
        Some(l) => {
            buf.push(1u8);
            put_bytes(buf, l.key.as_slice());
            append_bytes(buf, l.hash.as_slice());
            buf.push(l.height);
            assert(buf@ =~= old(buf)@ + encode_child(link_view(*c)));
        },
    }
}

fn take_bytes(b: &[u8], at: usize) -> (r: Option<(Vec<u8>, usize)>)
    requires
        at <= b@.len(),
    ensures
        match r {
            Some((v, next)) => parse_bytes(b@, at as int) == Some((v@, next as int)) && next
                <= b@.len(),
            None => parse_bytes(b@, at as int) is None,
        },
{
    if b.len() - at < 8 {
        return None;
    }
    let n = u64_from_le_bytes(slice_subrange(b, at, at + 8));
    let left = b.len() - at - 8;
    if n > left as u64 {
        return None;
    }
    let start = at + 8;
    let end = start + n as usize;
    Some((copy_bytes(slice_subrange(b, start, end)), end))
}

fn take_hash(b: &[u8], at: usize) -> (r: Option<(crate::hash::Hash, usize)>)
    requires
        at <= b@.len(),
    ensures
        match r {
            Some((h, next)) => parse_hash(b@, at as int) == Some((h@, next as int)) && next
                <= b@.len(),
            None => parse_hash(b@, at as int) is None,
        },
{
    if b.len() - at < 20 {
        return None;
    }
    let mut h: crate::hash::Hash = crate::hash::NULL_HASH;
    let mut i: usize = 0;
    while i < 20
        invariant
            i <= 20,
            at + 20 <= b@.len() <= usize::MAX,
            forall|j: int| 0 <= j < i ==> h@[j] == b@[at + j],
        decreases 20 - i,
    {
        h[i] = b[at + i];
        i += 1;
    }
    assert(h@ =~= b@.subrange(at as int, at + 20));
    Some((h, at + 20))
}

fn take_child(b: &[u8], at: usize) -> (r: Option<(Option<Link>, usize)>)
    requires
        at <= b@.len(),
    ensures
        match r {
            Some((c, next)) => parse_child(b@, at as int) == Some((link_view(c), next as int))
                && next <= b@.len(),
            None => parse_child(b@, at as int) is None,
        },
{
    if at >= b.len() {
        return None;
    }
    let tag = b[at];
    if tag == 0 {
        return Some((None, at + 1));
    }
    if tag != 1 {
        return None;
    }
    match take_bytes(b, at + 1) {
        None => None,
        Some((key, at1)) => match take_hash(b, at1) {
            None => None,
            Some((hash, at2)) => {
                if at2 < b.len() {
                    Some((Some(Link { key, hash, height: b[at2] }), at2 + 1))
                } else {
                    None
                }
            },
        },
    }
}

impl Node {
    /// A node without children for the pair; the key holds at most 255
    /// bytes and the value at most 65 535.
    pub fn new(key: &[u8], value: &[u8]) -> (node: Node)
        requires
            key@.len() <= 255,
            value@.len() <= 65535,
        ensures
            node@ == (NodeView {
                key: key@,
                value: value@,
                kv_hash: kv_digest(key@, value@),
                left: None,
                right: None,
            }),
    {
        Node {
            key: copy_bytes(key),
            value: copy_bytes(value),
            kv_hash: crate::hash::kv_hash(key, value),
            left: None,
            right: None,
        }
    }

    /// Reads a node from its stored bytes; the key is the one it was stored
    /// under. Fails with `DecodeError` exactly when the bytes do not start
    /// with a node in the layout.
    pub fn decode(key: &[u8], bytes: &[u8]) -> (r: Result<Node, Error>)
        ensures
            match r {
                Ok(node) => decode_node(key@, bytes@) == Some(node@),
                Err(e) => e == Error::DecodeError && decode_node(key@, bytes@) is None,
            },
    {
        let (value, at1) = match take_bytes(bytes, 0) {
            Some(p) => p,
            None => { return Err(Error::DecodeError); },
        };
        let (kv_hash, at2) = match take_hash(bytes, at1) {
            Some(p) => p,
            None => { return Err(Error::DecodeError); },
        };
        let (left, at3) = match take_child(bytes, at2) {
            Some(p) => p,
            None => { return Err(Error::DecodeError); },
        };
        let (right, _at4) = match take_child(bytes, at3) {
            Some(p) => p,
            None => { return Err(Error::DecodeError); },
        };
        Ok(Node { key: copy_bytes(key), value, kv_hash, left, right })
    }

    /// Sets the key/value digest to that of the current key and value.
    pub fn update_kv_hash(&mut self)
        requires
            old(self).key@.len() <= 255,
            old(self).value@.len() <= 65535,
        ensures
            final(self)@ == (NodeView {
                kv_hash: kv_digest(old(self)@.key, old(self)@.value),
                ..old(self)@
            }),
    {
        self.kv_hash = crate::hash::kv_hash(self.key.as_slice(), self.value.as_slice());
    }

    /// The digest of the node's subtree.
    pub fn hash(&self) -> (h: crate::hash::Hash)
        ensures
            h@ == self@.digest(),
    {
        let left = match &self.left {
            Some(l) => Some(&l.hash),
            None => None,
        };
        let right = match &self.right {
            Some(r) => Some(&r.hash),
            None => None,
        };
        crate::hash::hash(&self.kv_hash, left, right)
    }

    /// The link to the left child if `left`, else to the right one.
    pub fn child_link(&self, left: bool) -> (link: &Option<Link>)
        ensures
            *link == if left {
                self.left
            } else {
                self.right
            },
    {
        if left {
            &self.left
        } else {
            &self.right
        }
    }

    /// The height that the link on the given side records, 0 without one.
    pub fn child_height(&self, left: bool) -> (h: u8)
        ensures
            h as int == link_height(
                if left {
                    self@.left
                } else {
                    self@.right
                },
            ),
    {
        match self.child_link(left) {
            Some(link) => link.height,
            None => 0,
        }
    }

    /// The height of the node's subtree. Heights are kept in one byte, so
    /// no child may record 255.
    pub fn height(&self) -> (h: u8)
        requires
            self@.height() <= 255,
        ensures
            h as int == self@.height(),
    {
        let l = self.child_height(true);
        let r = self.child_height(false);
        if l >= r {
            l + 1
        } else {
            r + 1
        }
    }

    /// The height of the right child less that of the left; both fit the
    /// signed byte.
    pub fn balance_factor(&self) -> (f: i8)
        requires
            link_height(self@.left) <= 127,
            link_height(self@.right) <= 127,
        ensures
            f as int == self@.balance_factor(),
    {
        self.child_height(false) as i8 - self.child_height(true) as i8
    }

    /// The link under which a parent refers to this node.
    pub fn as_link(&self) -> (link: Link)
        requires
            self@.height() <= 255,
        ensures
            link@ == self@.as_link(),
    {
        Link { key: copy_bytes(self.key.as_slice()), hash: self.hash(), height: self.height() }
    }

    /// Replaces the link on the given side.
    pub fn set_child(&mut self, left: bool, link: Option<Link>)
        ensures
            final(self)@ == if left {
                NodeView { left: link_view(link), ..old(self)@ }
            } else {
                NodeView { right: link_view(link), ..old(self)@ }
            },
    {
        if left {
            self.left = link;
        } else {
            self.right = link;
        }
    }

    /// Replaces the value and brings the key/value digest up to date.
    pub fn set_value(&mut self, value: Vec<u8>)
        requires
            old(self).key@.len() <= 255,
            value@.len() <= 65535,
        ensures
            final(self)@ == (NodeView {
                value: value@,
                kv_hash: kv_digest(old(self)@.key, value@),
                ..old(self)@
            }),
    {
        self.value = value;
        self.update_kv_hash();
    }

    /// The bytes under which the node is stored. This never fails.
    pub fn encode(&self) -> (r: Result<Vec<u8>, Error>)
        ensures
            r matches Ok(bytes) && bytes@ == encode_node(self@),
    {
        let mut buf: Vec<u8> = Vec::new();
        put_bytes(&mut buf, self.value.as_slice());
        append_bytes(&mut buf, self.kv_hash.as_slice());
        put_child(&mut buf, &self.left);
        put_child(&mut buf, &self.right);
        assert(buf@ =~= encode_node(self@));
        Ok(buf)
    }

    /// Whether the node has no child.
    pub fn is_leaf(&self) -> (r: bool)
        ensures
            r == (self@.left is None && self@.right is None),
    {
        !(self.left.is_some() || self.right.is_some())
    }
}

} // verus!
