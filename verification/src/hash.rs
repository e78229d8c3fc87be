//! The two digests of the tree: that of a key/value pair and that of a node
//! with its two children.

use crate::bytes::append_bytes;
use vstd::prelude::*;

verus! {

/// The width of a digest in bytes.
pub const HASH_LENGTH: usize = 20;

/// A digest: Blake2b cut to 160 bits.
pub type Hash = [u8; 20];

/// The digest that stands for a missing child.
pub const NULL_HASH: Hash = [0, 0, 0, 0, 0, 0, 0, 0, 0, 0, 0, 0, 0, 0, 0, 0, 0, 0, 0, 0];

/// The Blake2b digest of 20 bytes, without key, of a byte string.
pub uninterp spec fn blake2b_160(data: Seq<u8>) -> Seq<u8>;

/// The all-zero digest as a sequence.
pub open spec fn null_digest() -> Seq<u8> {
    Seq::new(20, |i: int| 0u8)
}

/// What is hashed for a key/value pair: the key's length in one byte, the
/// key, the value's length in two bytes, high byte first, and the value.
pub open spec fn kv_preimage(key: Seq<u8>, value: Seq<u8>) -> Seq<u8> {
    seq![key.len() as u8] + key + seq![(value.len() / 256) as u8, (value.len() % 256) as u8]
        + value
}

/// The digest of a key/value pair.
pub open spec fn kv_digest(key: Seq<u8>, value: Seq<u8>) -> Seq<u8> {
    blake2b_160(kv_preimage(key, value))
}

/// The digest of a node: that of its key/value digest followed by the digests
/// of its left and right children.
pub open spec fn node_digest(kv: Seq<u8>, left: Seq<u8>, right: Seq<u8>) -> Seq<u8> {
    blake2b_160(node_preimage(kv, left, right))
}

/// Calls `blake2_rfc::blake2b::blake2b` for a 20-byte digest with an empty
/// key. The result is taken to be a function of the input bytes alone, named
/// `blake2b_160`; nothing else is claimed about it.
#[verifier::external_body]
fn blake2b_160_of(data: &[u8]) -> (digest: Hash)
    ensures
        digest@ == blake2b_160(data@),
{
    let res = blake2_rfc::blake2b::blake2b(20, &[], data);
    let mut digest = [0u8; 20];
    digest.copy_from_slice(res.as_bytes());
    digest
}

/// What is hashed for a node: its key/value digest and the digests of its
/// two children.
pub open spec fn node_preimage(kv: Seq<u8>, left: Seq<u8>, right: Seq<u8>) -> Seq<u8> {
    kv + left + right
}

/// The bytes that are hashed for a key/value pair. The key holds at most 255
/// bytes and the value at most 65 535, so that their lengths fit the
/// prefixes.
pub fn kv_hash_input(key: &[u8], value: &[u8]) -> (bytes: Vec<u8>)
    requires
        key@.len() <= 255,
        value@.len() <= 65535,
    ensures
        bytes@ == kv_preimage(key@, value@),
{
    let mut buf: Vec<u8> = Vec::new();
    buf.push(key.len() as u8);
    append_bytes(&mut buf, key);
    buf.push((value.len() / 256) as u8);
    buf.push((value.len() % 256) as u8);
    append_bytes(&mut buf, value);
    assert(buf@ =~= kv_preimage(key@, value@));
    buf
}

/// The bytes that are hashed for a node, a missing child counting as the
/// null digest.
pub fn node_hash_input(kv: &Hash, left: Option<&Hash>, right: Option<&Hash>) -> (bytes: Vec<u8>)
    ensures
        bytes@ == node_preimage(
            kv@,
            match left {
                Some(l) => l@,
                None => null_digest(),
            },
            match right {
                Some(r) => r@,
                None => null_digest(),
            },
        ),
{
    let mut buf: Vec<u8> = Vec::new();
    append_bytes(&mut buf, kv.as_slice());
    match left {
        Some(l) => append_bytes(&mut buf, l.as_slice()),
        None => {
            append_bytes(&mut buf, NULL_HASH.as_slice());
            assert(NULL_HASH@ =~= null_digest());
        },
    }
    match right {
        Some(r) => append_bytes(&mut buf, r.as_slice()),
        None => {
            append_bytes(&mut buf, NULL_HASH.as_slice());
            assert(NULL_HASH@ =~= null_digest());
        },
    }
    buf
}

/// The digest of a key/value pair. The key holds at most 255 bytes and the
/// value at most 65 535, so that their lengths fit the prefixes.
pub fn kv_hash(key: &[u8], value: &[u8]) -> (h: Hash)
    requires
        key@.len() <= 255,
        value@.len() <= 65535,
    ensures
        h@ == kv_digest(key@, value@),
{
    let input = kv_hash_input(key, value);
    blake2b_160_of(input.as_slice())
}

/// The digest of a node from its key/value digest and the digests of its
/// children, a missing child counting as the null digest.
pub fn hash(kv: &Hash, left: Option<&Hash>, right: Option<&Hash>) -> (h: Hash)
    ensures
        h@ == node_digest(
            kv@,
            match left {
                Some(l) => l@,
                None => null_digest(),
            },
            match right {
                Some(r) => r@,
                None => null_digest(),
            },
        ),
{
    let input = node_hash_input(kv, left, right);
    blake2b_160_of(input.as_slice())
}

} // verus!
