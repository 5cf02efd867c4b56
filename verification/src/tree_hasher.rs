//! Domain-separated hashing of tree nodes: building and parsing leaf and
//! internal node payloads, deriving paths from keys, and the all-zero
//! placeholder digest that stands for an empty subtree.

use vstd::prelude::*;
use crate::utils::zero_bytes;

verus! {

/// A hash function with a fixed output width in bytes. The tree is generic
/// over it; `hash_spec` is the mathematical function the implementation
/// computes, and every implementation must return exactly `output_size_spec`
/// bytes.
pub trait Hasher: Sized {
    /// The digest of `data`, as a mathematical function of the bytes alone.
    spec fn hash_spec(&self, data: Seq<u8>) -> Seq<u8>;

    /// The width of a digest, in bytes.
    spec fn output_size_spec(&self) -> nat;

    /// The width of a digest in bytes, between 1 and 2048.
    fn output_size(&self) -> (n: usize)
        ensures
            n as nat == self.output_size_spec(),
            1 <= n <= 2048,
    ;

    /// Computes the digest of `data`.
    fn hash(&self, data: &[u8]) -> (r: Vec<u8>)
        ensures
            r@ == self.hash_spec(data@),
            r@.len() == self.output_size_spec(),
    ;
}

/// Wraps a [`Hasher`] with the tree's hashing scheme: a leaf payload is
/// `0x00 ‖ path ‖ value_hash`, an internal payload is `0x01 ‖ left ‖ right`,
/// and the digest of a node is the hash of its payload. The prefix byte is a
/// domain separator between the two node kinds.
#[derive(Clone)]
pub struct TreeHasher<H: Hasher> {
    pub hasher: H,
    pub zero_hash: Vec<u8>,
}

impl<H: Hasher> TreeHasher<H> {
    /// Digest width in bytes.
    pub open spec fn n_spec(&self) -> nat {
        self.hasher.output_size_spec()
    }

    /// Depth of the tree: the digest width in bits.
    pub open spec fn depth_spec(&self) -> nat {
        8 * self.n_spec()
    }

    /// The digest of `data` under the wrapped hash function.
    pub open spec fn hash_s(&self, data: Seq<u8>) -> Seq<u8> {
        self.hasher.hash_spec(data)
    }

    /// The all-zero placeholder digest denoting an empty subtree.
    pub open spec fn placeholder_s(&self) -> Seq<u8> {
        zero_bytes(self.n_spec() as int)
    }

    /// The payload of a leaf node for `path` and `value_hash`.
    pub open spec fn leaf_payload_s(&self, path: Seq<u8>, value_hash: Seq<u8>) -> Seq<u8> {
        seq![0u8] + path + value_hash
    }

    /// The payload of an internal node with children `left` and `right`.
    pub open spec fn node_payload_s(&self, left: Seq<u8>, right: Seq<u8>) -> Seq<u8> {
        seq![1u8] + left + right
    }

    /// The digest of a leaf node for `path` and `value_hash`.
    pub open spec fn leaf_digest_s(&self, path: Seq<u8>, value_hash: Seq<u8>) -> Seq<u8> {
        self.hash_s(self.leaf_payload_s(path, value_hash))
    }

    /// The digest of an internal node with children `left` and `right`.
    pub open spec fn node_digest_s(&self, left: Seq<u8>, right: Seq<u8>) -> Seq<u8> {
        self.hash_s(self.node_payload_s(left, right))
    }

    /// True iff `payload` is a leaf payload: its prefix byte is `0x00`.
    pub open spec fn is_leaf_s(&self, payload: Seq<u8>) -> bool {
        payload.len() >= 1 && payload[0] == 0u8
    }

    /// The tree hasher is consistent: its cached zero digest has the width
    /// the hash function produces.
    pub open spec fn wf(&self) -> bool {
        &&& self.zero_hash@ == self.placeholder_s()
        &&& 1 <= self.n_spec() <= 2048
    }

    pub fn new(hasher: H) -> (r: Self)
        ensures
            r.wf(),
            r.hasher == hasher,
    {
        let n = hasher.output_size();
        let mut zero_hash: Vec<u8> = Vec::new();
        while zero_hash.len() < n
            invariant
                zero_hash@.len() <= n,
                forall|j: int| 0 <= j < zero_hash@.len() ==> zero_hash@[j] == 0u8,
            decreases n - zero_hash@.len(),
        {
            zero_hash.push(0u8);
        }
        proof {
            assert(zero_hash@ =~= zero_bytes(n as int));
        }
        Self { hasher, zero_hash }
    }

    /// The path of `key`: its digest, read MSB-first as the sequence of
    /// branch choices from the root.
    pub fn path(&self, key: &[u8]) -> (r: Vec<u8>)
        ensures
            r@ == self.hash_s(key@),
            r@.len() == self.n_spec(),
    {
        self.hasher.hash(key)
    }

    /// The digest of an arbitrary byte string.
    pub fn digest(&self, data: &[u8]) -> (r: Vec<u8>)
        ensures
            r@ == self.hash_s(data@),
            r@.len() == self.n_spec(),
    {
        self.hasher.hash(data)
    }

    /// Builds the payload of an internal node with children `left` and
    /// `right` and returns `(digest, payload)`.
    pub fn digest_node(&self, left: &[u8], right: &[u8]) -> (r: (Vec<u8>, Vec<u8>))
        ensures
            r.1@ == self.node_payload_s(left@, right@),
            r.0@ == self.hash_s(r.1@),
            r.0@.len() == self.n_spec(),
    {
        let mut data: Vec<u8> = Vec::new();
        data.push(1u8);
        append_bytes(&mut data, left);
        append_bytes(&mut data, right);
        proof {
            assert(data@ =~= self.node_payload_s(left@, right@));
        }
        let d = self.hasher.hash(data.as_slice());
        (d, data)
    }

    /// Builds the payload of a leaf node for `path` and `value_hash` and
    /// returns `(digest, payload)`.
    pub fn digest_leaf(&self, path: &[u8], value_hash: &[u8]) -> (r: (Vec<u8>, Vec<u8>))
        ensures
            r.1@ == self.leaf_payload_s(path@, value_hash@),
            r.0@ == self.hash_s(r.1@),
            r.0@.len() == self.n_spec(),
    {
        let mut data: Vec<u8> = Vec::new();
        data.push(0u8);
        append_bytes(&mut data, path);
        append_bytes(&mut data, value_hash);
        proof {
            assert(data@ =~= self.leaf_payload_s(path@, value_hash@));
        }
        let d = self.hasher.hash(data.as_slice());
        (d, data)
    }

    /// Splits a leaf payload into `(path, value_hash)`: the bytes after the
    /// prefix up to the digest width, and the rest.
    pub fn parse_leaf(&self, data: &[u8]) -> (r: (Vec<u8>, Vec<u8>))
        requires
            data@.len() >= 1 + self.n_spec(),
        ensures
            r.0@ == data@.subrange(1, 1 + self.n_spec() as int),
            r.1@ == data@.subrange(1 + self.n_spec() as int, data@.len() as int),
    {
        let n = self.hasher.output_size();
        let path = vstd::slice::slice_to_vec(vstd::slice::slice_subrange(data, 1, 1 + n));
        let rest = vstd::slice::slice_to_vec(vstd::slice::slice_subrange(data, 1 + n, data.len()));
        (path, rest)
    }

    /// Splits an internal payload into `(left, right)`: the bytes after the
    /// prefix up to the digest width, and the rest.
    pub fn parse_node(&self, data: &[u8]) -> (r: (Vec<u8>, Vec<u8>))
        requires
            data@.len() >= 1 + self.n_spec(),
        ensures
            r.0@ == data@.subrange(1, 1 + self.n_spec() as int),
            r.1@ == data@.subrange(1 + self.n_spec() as int, data@.len() as int),
    {
        let n = self.hasher.output_size();
        let left = vstd::slice::slice_to_vec(vstd::slice::slice_subrange(data, 1, 1 + n));
        let right = vstd::slice::slice_to_vec(vstd::slice::slice_subrange(data, 1 + n, data.len()));
        (left, right)
    }

    /// True iff `data` is a leaf payload, judged by its prefix byte.
    pub fn is_leaf(&self, data: &[u8]) -> (r: bool)
        requires
            data@.len() >= 1,
        ensures
            r == self.is_leaf_s(data@),
    {
        data[0] == 0u8
    }
}

/// Appends all of `src` to `dst`.
pub fn append_bytes(dst: &mut Vec<u8>, src: &[u8])
    ensures
        final(dst)@ == old(dst)@ + src@,
{
    let ghost orig = dst@;
    let mut i: usize = 0;
    while i < src.len()
        invariant
            0 <= i <= src@.len(),
            dst@ == orig + src@.subrange(0, i as int),
        decreases src@.len() - i,
    {
        dst.push(src[i]);
        proof {
            assert(orig + src@.subrange(0, i as int) + seq![src@[i as int]] =~= orig + src@.subrange(
                0,
                i + 1,
            ));
        }
        i += 1;
    }
    proof {
        assert(orig + src@.subrange(0, src@.len() as int) =~= orig + src@);
    }
}

/// Copies a byte slice into a fresh vector.
pub fn copy_bytes(src: &[u8]) -> (r: Vec<u8>)
    ensures
        r@ == src@,
{
    vstd::slice::slice_to_vec(src)
}

} // verus!
