//! The seeded hash engine: one keyed 128-bit digest per key, split into the
//! three fragments that bucketing and displacement consume.
//!
//! The same function is used at build time and at lookup time; that both
//! sides agree on it is a correctness requirement of the whole structure.

use vstd::prelude::*;

use crate::HashValue;

verus! {

/// The 128-bit keyed digest that the hash engine produces for a seed and a
/// byte string, as a pair `(low half, high half)`.
pub uninterp spec fn spec_sip128(seed: u64, data: Seq<u8>) -> (u64, u64);

/// Relies on `const_siphasher::sip128::SipHasher13::hash`: the SipHash-1-3
/// 128-bit digest of the byte string under the key `(0, seed)`, a pure
/// function of the key and the bytes alone.
#[verifier::external_body]
fn sip128(seed: u64, data: &[u8]) -> (r: (u64, u64))
    ensures
        r == spec_sip128(seed, data@),
{
    let hash = const_siphasher::sip128::SipHasher13::new_with_keys(0, seed).hash(data);
    (hash.h1, hash.h2)
}

/// The hash of one key under one seed, split into fragments as
/// `HashValue::finalize` splits the raw digest.
pub open spec fn spec_hash(seed: u64, key: Seq<u8>) -> HashValue {
    let (lower, upper) = spec_sip128(seed, key);
    HashValue { g: (lower >> 32) as u32, f1: lower as u32, f2: upper as u32 }
}

/// Hash one key under one seed.
pub fn hash_key(seed: u64, key: &[u8]) -> (r: HashValue)
    ensures
        r == spec_hash(seed, key@),
{
    let (lower, upper) = sip128(seed, key);
    HashValue::finalize(lower, upper)
}

} // verus!
