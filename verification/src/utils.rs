use vstd::prelude::*;
use ahash::AHasher;
use std::hash::Hasher;

verus! {

/// `ahash::AHasher`, opaque to the verifier.
#[verifier::external_type_specification]
#[verifier::external_body]
pub struct ExAHasher(AHasher);

/// `AHasher::default`: a hasher in its initial state. Its keys are drawn once
/// per process, so nothing is promised of the state.
#[verifier::external_body]
fn hasher_new() -> (h: AHasher) {
    AHasher::default()
}

/// `Hasher::write_u32` on an `AHasher`: feeds one 32-bit word.
#[verifier::external_body]
fn hasher_write(h: &mut AHasher, word: u32) {
    h.write_u32(word)
}

/// `Hasher::finish` on an `AHasher`: the digest of what was fed so far.
#[verifier::external_body]
fn hasher_finish(h: &AHasher) -> (r: u64) {
    h.finish()
}

/// Fingerprints a vector by feeding the bit pattern of each component, in
/// order, to a fast non-cryptographic hasher. Two vectors with the same bit
/// patterns get the same fingerprint within one process; the value itself
/// depends on keys the hasher draws at start-up, so callers learn nothing of
/// it but its type.
pub fn hash_vector(vec: &Vec<u32>) -> (r: u64) {
    let mut hasher = hasher_new();
    let mut i: usize = 0;
    while i < vec.len()
        invariant
            i <= vec.len(),
        decreases vec.len() - i,
    {
        hasher_write(&mut hasher, vec[i]);
        i += 1;
    }
    hasher_finish(&hasher)
}

} // verus!
