//! Stable 64-bit fingerprints of input identities and output destinations.
//!
//! The fingerprint is a fast non-cryptographic digest of the UTF-8 bytes of
//! a URL or a name. It is deterministic across runs and machines, which is
//! what lets the broker app name `pull_<fingerprint>` round-trip through the
//! broker and back into the callback plane.

use vstd::prelude::*;

verus! {

/// The 64-bit digest that `xxh3_64` yields on the UTF-8 bytes of a string.
///
/// The digest depends on the hashed characters alone: UTF-8 encoding is
/// injective, so the result is a function of the character sequence.
pub uninterp spec fn fingerprint_of(s: Seq<char>) -> u64;

/// Fingerprints a string.
///
/// Relies on `xxhash_rust::xxh3::xxh3_64`: a pure 64-bit digest of the
/// input bytes, depending on its argument alone.
#[verifier::external_body]
pub(crate) fn fingerprint_str(s: &str) -> (r: u64)
    ensures
        r == fingerprint_of(s@),
{
    xxhash_rust::xxh3::xxh3_64(s.as_bytes())
}

} // verus!
