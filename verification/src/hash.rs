//! The hash engine: SHA-256 over fixed-width big-endian encodings, combining
//! two 256-bit values into one digest.

use vstd::prelude::*;
use crate::hash256::Hash256;
use sha2::Digest;

verus! {

/// What SHA-256 returns on a byte string; the digest depends on the input
/// bytes alone.
pub uninterp spec fn sha256_digest(input: Seq<u8>) -> Seq<u8>;

/// Relies on sha2::Sha256 through the Digest trait's one-shot digest: the
/// 32-byte SHA-256 digest of the input, a function of the input bytes alone.
#[verifier::external_body]
pub(crate) fn sha256(input: &Vec<u8>) -> (r: Vec<u8>)
    ensures
        r@ == sha256_digest(input@),
        r@.len() == 32,
{
    sha2::Sha256::digest(input.as_slice()).to_vec()
}

/// The digest of one sibling pair: SHA-256 over the concatenation of the two
/// 32-byte big-endian encodings.
pub open spec fn pair_digest(a: Seq<u8>, b: Seq<u8>) -> Seq<u8> {
    sha256_digest(a + b)
}

/// Combines two 256-bit values into one digest. Order-sensitive: the left
/// operand's bytes are hashed first.
pub fn hash_pair(lhs: Hash256, rhs: Hash256) -> (r: Hash256)
    ensures
        r@ == pair_digest(lhs@, rhs@),
{
    let mut input: Vec<u8> = Vec::new();
    lhs.append_to(&mut input);
    rhs.append_to(&mut input);
    proof {
        assert(input@ =~= lhs@ + rhs@);
    }
    let digest = sha256(&input);
    Hash256::from_bytes(&digest)
}

} // verus!
