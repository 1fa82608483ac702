use std::hash::Hasher;

use rustc_hash::FxHasher;
use vstd::prelude::*;

verus! {

/// The 64-bit FxHash of a byte string, written in one piece into a fresh hasher.
pub uninterp spec fn fx_hash_of(bytes: Seq<u8>) -> u64;

/// Relies on rustc_hash's `FxHasher` (`default`, `Hasher::write`, `Hasher::finish`):
/// the hash of a fresh hasher fed `bytes` once depends on those bytes alone.
#[verifier::external_body]
pub(crate) fn fx_hash(bytes: &[u8]) -> (r: u64)
    ensures
        r == fx_hash_of(bytes@),
{
    let mut hasher = FxHasher::default();
    hasher.write(bytes);
    hasher.finish()
}

} // verus!
