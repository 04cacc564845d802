//! The digest primitive over bytes: SHA-256, framed as a leaf hash and as a
//! node hash over the concatenation of two digests.
use vstd::prelude::*;
use crypto::digest::Digest;

verus! {

/// The SHA-256 digest of a byte string.
pub uninterp spec fn sha256_of(b: Seq<u8>) -> Seq<u8>;

/// Inputs that the digest accepts: their length in bits fits in 64 bits.
pub open spec fn hashable(b: Seq<u8>) -> bool {
    b.len() < 0x2000_0000_0000_0000
}

/// Relies on crypto::sha2::Sha256 (`new`, `input`, then `result`): the SHA-256
/// digest of `b`. `input` panics where the length in bits overflows `u64`.
#[verifier::external_body]
fn sha256(b: &[u8]) -> (r: [u8; 32])
    requires
        hashable(b@),
    ensures
        r@ == sha256_of(b@),
{
    let mut sha = crypto::sha2::Sha256::new();
    let mut result = [0u8; 32];
    sha.input(b);
    sha.result(&mut result);
    result
}

/// The leaf hash: the digest of the bytes themselves.
pub open spec fn leaf_hash(d: Seq<u8>) -> Seq<u8> {
    sha256_of(d)
}

/// The node hash: the digest of the left bytes followed by the right ones.
pub open spec fn node_hash(a: Seq<u8>, b: Seq<u8>) -> Seq<u8> {
    sha256_of(a + b)
}

pub open spec fn leaf_fn() -> spec_fn(Seq<u8>) -> Seq<u8> {
    |d: Seq<u8>| leaf_hash(d)
}

pub open spec fn node_fn() -> spec_fn(Seq<u8>, Seq<u8>) -> Seq<u8> {
    |a: Seq<u8>, b: Seq<u8>| node_hash(a, b)
}

/// Hashes a leaf value (or a digest promoted on its own).
pub fn hash_leaf(value: &[u8]) -> (r: [u8; 32])
    requires
        hashable(value@),
    ensures
        r@ == leaf_hash(value@),
{
    sha256(value)
}

/// Hashes a pair: the digest of `left` followed by `right`.
pub fn hash_node(left: &[u8], right: &[u8]) -> (r: [u8; 32])
    requires
        hashable(left@ + right@),
    ensures
        r@ == node_hash(left@, right@),
{
    let mut both: Vec<u8> = Vec::with_capacity(left.len());
    both.extend_from_slice(left);
    both.extend_from_slice(right);
    assert(both@ =~= left@ + right@);
    sha256(both.as_slice())
}

} // verus!
