//! A key/value pair together with its digest.

use crate::hash::kv_digest;
use vstd::prelude::*;

verus! {

/// A key/value pair and the digest recorded for it.
pub struct KV {
    key: Vec<u8>,
    value: Vec<u8>,
    hash: crate::hash::Hash,
}

/// A `KV` as a mathematical value.
pub struct KvView {
    pub key: Seq<u8>,
    pub value: Seq<u8>,
    pub hash: Seq<u8>,
}

impl View for KV {
    type V = KvView;

    closed spec fn view(&self) -> KvView {
        KvView { key: self.key@, value: self.value@, hash: self.hash@ }
    }
}

impl KV {
    /// A pair with its digest computed; the key holds at most 255 bytes and
    /// the value at most 65 535.
    pub fn new(key: Vec<u8>, value: Vec<u8>) -> (kv: Self)
        requires
            key@.len() <= 255,
            value@.len() <= 65535,
        ensures
            kv@ == (KvView { key: key@, value: value@, hash: kv_digest(key@, value@) }),
    {
        let hash = crate::hash::kv_hash(key.as_slice(), value.as_slice());
        KV { key, value, hash }
    }

    /// A pair with the digest as given; the digest is not checked against
    /// the pair.
    pub fn from_fields(key: Vec<u8>, value: Vec<u8>, hash: crate::hash::Hash) -> (kv: Self)
        ensures
            kv@ == (KvView { key: key@, value: value@, hash: hash@ }),
    {
        KV { key, value, hash }
    }

    /// The pair with its value replaced and its digest brought up to date.
    pub fn with_value(self, value: Vec<u8>) -> (kv: Self)
        requires
            self@.key.len() <= 255,
            value@.len() <= 65535,
        ensures
            kv@ == (KvView {
                key: self@.key,
                value: value@,
                hash: kv_digest(self@.key, value@),
            }),
    {
        let mut kv = self;
        kv.value = value;
        kv.hash = crate::hash::kv_hash(kv.key.as_slice(), kv.value.as_slice());
        kv
    }

    /// The key.
    pub fn key(&self) -> (k: &[u8])
        ensures
            k@ == self@.key,
    {
        self.key.as_slice()
    }

    /// The value.
    pub fn value(&self) -> (v: &[u8])
        ensures
            v@ == self@.value,
    {
        self.value.as_slice()
    }

    /// The recorded digest.
    pub fn hash(&self) -> (h: &crate::hash::Hash)
        ensures
            h@ == self@.hash,
    {
        &self.hash
    }

    /// Gives up the pair for its key.
    pub fn take_key(self) -> (k: Vec<u8>)
        ensures
            k@ == self@.key,
    {
        self.key
    }
}

} // verus!
