//! SHA-1 digests through `ring`.

use vstd::prelude::*;

verus! {

/// The SHA-1 digest of a byte string, as `ring` computes it.
pub uninterp spec fn sha1(data: Seq<u8>) -> Seq<u8>;

/// Largest input (in bytes) whose bit length SHA-1 can record.
pub open spec fn sha1_input_fits(len: nat) -> bool {
    len < 0x2000_0000_0000_0000
}

/// Calls `ring::digest::digest` with `SHA1_FOR_LEGACY_USE_ONLY`. The
/// contract claims that the result is `sha1` of the input and is twenty
/// bytes long; `ring` panics on inputs of 2^61 bytes or more, which the
/// `requires` leaves out.
#[verifier::external_body]
pub(crate) fn sha1_digest(data: &[u8]) -> (d: Vec<u8>)
    requires
        sha1_input_fits(data@.len()),
    ensures
        d@ == sha1(data@),
        d@.len() == 20,
{
    ring::digest::digest(&ring::digest::SHA1_FOR_LEGACY_USE_ONLY, data).as_ref().to_vec()
}

} // verus!
