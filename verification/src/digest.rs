//! The running digest of a round: SHA-224 as the `sha2` crate computes it.
//!
//! Nothing here is proved. Each item states what the crate's hasher does, in
//! terms of two names: the bytes that a hasher has absorbed, and the digest of
//! a message.

use sha2::{Digest, Sha224};
use vstd::prelude::*;

verus! {

/// The SHA-224 hasher of `sha2`, carried through as a value that the
/// verifier cannot look into.
#[verifier::external_type_specification]
#[verifier::external_body]
pub struct ExSha224(Sha224);

/// The bytes that `hasher` has absorbed since it was created, in order.
pub uninterp spec fn absorbed(hasher: Sha224) -> Seq<u8>;

/// The SHA-224 digest of `message`.
pub uninterp spec fn sha224(message: Seq<u8>) -> Seq<u8>;

/// The number of bytes in a SHA-224 digest.
pub const DIGEST_LEN: u64 = 28;

/// The longest message that the hasher can take: it counts the bits of its
/// input in a `u64`.
pub const MAX_MESSAGE_LEN: u64 = 0x1fff_ffff_ffff_ffff;

/// `Sha224::new`: a hasher that has absorbed nothing yet.
#[verifier::external_body]
pub(crate) fn start() -> (hasher: Sha224)
    ensures
        absorbed(hasher) == Seq::<u8>::empty(),
{
    Sha224::new()
}

/// `Digest::update`: the hasher absorbs `bytes` after what it has absorbed
/// before. The bound keeps the hasher's count of bits within `u64`.
#[verifier::external_body]
pub(crate) fn absorb(hasher: &mut Sha224, bytes: &[u8])
    requires
        absorbed(*old(hasher)).len() + bytes@.len() <= MAX_MESSAGE_LEN,
    ensures
        absorbed(*final(hasher)) == absorbed(*old(hasher)) + bytes@,
{
    hasher.update(bytes);
}

/// `Digest::finalize`: the digest of all that the hasher has absorbed, 28
/// bytes long.
#[verifier::external_body]
pub(crate) fn finish(hasher: Sha224) -> (digest: Vec<u8>)
    ensures
        digest@ == sha224(absorbed(hasher)),
        digest@.len() == DIGEST_LEN,
{
    hasher.finalize().to_vec()
}

/// `Clone::clone` of a hasher: the copy has absorbed what the hasher it was
/// made from has.
#[verifier::external_body]
pub(crate) fn fork(hasher: &Sha224) -> (copy: Sha224)
    ensures
        absorbed(copy) == absorbed(*hasher),
{
    hasher.clone()
}

/// The outcome that wins a round whose digest has absorbed `transcript`: the
/// first byte of the transcript's digest.
pub open spec fn winning_outcome(transcript: Seq<u8>) -> u8 {
    sha224(transcript)[0]
}

} // verus!
