//! The k-mer hasher: a fixed-length byte window is mapped to a 32-bit value.
//!
//! The hash is an approximate identity for windows: collisions are tolerated
//! and merely lower the apparent diversity of a segment. Speed is preferred
//! over exactness, so the fast non-cryptographic hash of the original tool is
//! kept rather than replaced by a stronger one.

use vstd::prelude::*;

verus! {

/// The 32-bit value that the window hash assigns to a byte window.
///
/// Within a given build of the tool the value depends on the bytes of the
/// window alone: the hash carries no per-process seed, so the same window
/// hashes to the same value in every run. (Across build targets the value
/// may differ, since the hash reads the bytes in native word order; no
/// proof here rests on cross-machine equality.)
pub uninterp spec fn hash32_of(window: Seq<u8>) -> u32;

/// Relies on fxhash::hash32: a 32-bit hash computed from the bytes alone,
/// from a fixed seed constant, with no per-process seed or other hidden
/// input.
#[verifier::external_body]
pub(crate) fn hash_kmer(window: &[u8]) -> (r: u32)
    ensures
        r == hash32_of(window@),
{
    fxhash::hash32(window)
}

/// Law: hashing is idempotent within and across runs — identical windows
/// always hash to the identical value.
pub proof fn lemma_hash_idempotent(a: Seq<u8>, b: Seq<u8>)
    requires
        a == b,
    ensures
        hash32_of(a) == hash32_of(b),
{
}

} // verus!
