//! The Keccak-256 instantiation of [`Hasher`], backed by the `tiny_keccak`
//! crate.

use vstd::prelude::*;
use crate::tree_hasher::Hasher;

verus! {

/// The Keccak-256 digest of a byte string: 32 bytes determined by the input
/// alone.
pub uninterp spec fn keccak256_of(data: Seq<u8>) -> Seq<u8>;

/// Relies on tiny_keccak's `Keccak::v256` with `update` then `finalize`: it
/// fills the 32-byte output buffer with the Keccak-256 digest of the input,
/// a function of the input bytes alone.
#[verifier::external_body]
fn keccak256(data: &[u8]) -> (r: Vec<u8>)
    ensures
        r@ == keccak256_of(data@),
        r@.len() == 32,
{
    let mut state = tiny_keccak::Keccak::v256();
    tiny_keccak::Hasher::update(&mut state, data);
    let mut out = vec![0u8; 32];
    tiny_keccak::Hasher::finalize(state, &mut out);
    out
}

/// A [`Hasher`] computing Keccak-256: 32-byte digests.
pub struct KeccakHasher {}

impl KeccakHasher {
    pub fn new() -> (r: Self) {
        KeccakHasher {  }
    }
}

impl Hasher for KeccakHasher {
    open spec fn hash_spec(&self, data: Seq<u8>) -> Seq<u8> {
        keccak256_of(data)
    }

    open spec fn output_size_spec(&self) -> nat {
        32
    }

    fn output_size(&self) -> usize {
        32
    }

    fn hash(&self, data: &[u8]) -> Vec<u8> {
        keccak256(data)
    }
}

} // verus!
