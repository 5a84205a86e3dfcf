//! SHA-256, as computed by the `sha2` crate.

use sha2::Digest as _;
use vstd::prelude::*;

verus! {

/// The SHA-256 digest of an octet string.
pub uninterp spec fn sha256(message: Seq<u8>) -> Seq<u8>;

/// The running state of `sha2::Sha256`, whose type is an alias for a generic wrapper that
/// the verifier cannot be told of directly.
#[verifier::external_body]
pub struct Hasher {
    state: sha2::Sha256,
}

/// The octets that a running state has taken in so far.
pub uninterp spec fn absorbed(hasher: Hasher) -> Seq<u8>;

/// `sha2::Sha256::new`: a state that has taken in nothing.
#[verifier::external_body]
pub(crate) fn hash_start() -> (hasher: Hasher)
    ensures
        absorbed(hasher) == Seq::<u8>::empty(),
{
    Hasher { state: sha2::Sha256::new() }
}

/// `sha2::Sha256::update`: takes in further octets behind the ones already taken in.
#[verifier::external_body]
pub(crate) fn hash_update(hasher: &mut Hasher, bytes: &[u8])
    ensures
        absorbed(*final(hasher)) == absorbed(*old(hasher)) + bytes@,
{
    hasher.state.update(bytes);
}

/// `sha2::Sha256::finalize` on a copy of the state: the digest of what it took in. The state
/// itself is left as it was.
#[verifier::external_body]
pub(crate) fn hash_finish(hasher: &Hasher) -> (digest: [u8; 32])
    ensures
        digest@ == sha256(absorbed(*hasher)),
{
    hasher.state.clone().finalize().into()
}

} // verus!
