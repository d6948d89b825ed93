//! Ordered maps and sets backed by a perfect hash function.
//!
//! The table is built with the CHD scheme (compress, hash, displace): every
//! key is hashed into three 32-bit fragments, keys are grouped into buckets
//! by the first fragment, and each bucket is assigned a displacement pair
//! that sends its members to globally distinct slots of one shared table.
//! Lookups recompute the same hash and land on the unique candidate slot in
//! constant time; iteration walks the entries in insertion order.

use vstd::prelude::*;

pub mod generator;
pub mod hashing;
pub mod map;
pub mod set;

pub mod buckets;
pub mod solver;

pub use generator::build;
pub use generator::BuildError;
pub use generator::Config;
pub use map::OrderedMap;
pub use set::OrderedSet;

verus! {

/// A hash result broken down into parts for ease of use in displacement.
#[derive(Clone, Copy, Default, PartialEq, Eq, Structural)]
pub struct HashValue {
    pub g: u32,
    pub f1: u32,
    pub f2: u32,
}

impl HashValue {
    pub fn new() -> (r: Self)
        ensures
            r == (HashValue { g: 0, f1: 0, f2: 0 }),
    {
        HashValue { f1: 0, f2: 0, g: 0 }
    }

    /// The 96-bit integer `g * 2^64 + f1 * 2^32 + f2` that gives hash values
    /// their total order, used only for deterministic tie-breaking.
    pub open spec fn as_int(self) -> int {
        self.g * 0x1_0000_0000_0000_0000 + self.f1 * 0x1_0000_0000 + self.f2
    }

    /// Split one 128-bit digest into the three fragments: `g` is bits 32..64
    /// of the low half, `f1` bits 0..32 of the low half, and `f2` the low
    /// 32 bits of the high half.
    pub fn finalize(lower: u64, upper: u64) -> (r: Self)
        ensures
            r.g == (lower >> 32) as u32,
            r.f1 == lower as u32,
            r.f2 == upper as u32,
    {
        HashValue {
            g: #[verifier::truncate] ((lower >> 32) as u32),
            f1: #[verifier::truncate] (lower as u32),
            f2: #[verifier::truncate] (upper as u32),
        }
    }

    pub fn eq(&self, other: &Self) -> (r: bool)
        ensures
            r == (*self == *other),
    {
        self.g == other.g && self.f1 == other.f1 && self.f2 == other.f2
    }

    pub fn gt(&self, other: &Self) -> (r: bool)
        ensures
            r == (self.as_int() > other.as_int()),
    {
        let lhs: u128 = ((self.g as u128) << 64u128) | ((self.f1 as u128) << 32u128)
            | (self.f2 as u128);
        let rhs: u128 = ((other.g as u128) << 64u128) | ((other.f1 as u128) << 32u128)
            | (other.f2 as u128);
        proof {
            lemma_pack96(self.g, self.f1, self.f2);
            lemma_pack96(other.g, other.f1, other.f2);
        }
        lhs > rhs
    }
}

/// Packing three 32-bit fragments into disjoint bit ranges of a `u128` agrees
/// with the arithmetic form `g * 2^64 + f1 * 2^32 + f2`.
proof fn lemma_pack96(g: u32, f1: u32, f2: u32)
    ensures
        ((g as u128) << 64u128) | ((f1 as u128) << 32u128) | (f2 as u128) == g
            * 0x1_0000_0000_0000_0000 + f1 * 0x1_0000_0000 + f2,
{
    assert(((g as u128) << 64u128) | ((f1 as u128) << 32u128) | (f2 as u128) == (g as u128)
        * 0x1_0000_0000_0000_0000 + (f1 as u128) * 0x1_0000_0000 + (f2 as u128)) by (bit_vector);
}

/// Displace as `d2 + f1*d1 + f2`, in wrapping 32-bit arithmetic.
pub open spec fn spec_displace(f1: u32, f2: u32, d1: u32, d2: u32) -> u32 {
    vstd::wrapping::u32_specs::wrapping_add(
        vstd::wrapping::u32_specs::wrapping_add(
            d2,
            vstd::wrapping::u32_specs::wrapping_mul(f1, d1),
        ),
        f2,
    )
}

/// Displace as `d2 + f1*d1 + f2`
#[inline(always)]
pub(crate) fn displace(f1: u32, f2: u32, d1: u32, d2: u32) -> (r: u32)
    ensures
        r == spec_displace(f1, f2, d1, d2),
{
    d2.wrapping_add(f1.wrapping_mul(d1)).wrapping_add(f2)
}

/// First-level bucket of a hash value, for `b` buckets.
pub open spec fn spec_bucket(h: HashValue, b: int) -> int {
    (h.g as int) % b
}

/// Final slot of a hash value in a table of `t` slots, given the displacement
/// pair `(d1, d2)` of its bucket.
pub open spec fn spec_slot(h: HashValue, d1: u32, d2: u32, t: int) -> int {
    (spec_displace(h.f1, h.f2, d1, d2) as int) % t
}

/// Final slot of a hash value once the whole displacement table is known:
/// the bucket of `h` picks the pair, the pair picks the slot.
pub open spec fn spec_slot_in(h: HashValue, disps: Seq<(u32, u32)>, t: int) -> int {
    let d = disps[spec_bucket(h, disps.len() as int)];
    spec_slot(h, d.0, d.1, t)
}

pub(crate) fn slot_for(h: &HashValue, d1: u32, d2: u32, t: usize) -> (r: usize)
    requires
        t >= 1,
    ensures
        r == spec_slot(*h, d1, d2, t as int),
        r < t,
{
    (displace(h.f1, h.f2, d1, d2) as usize) % t
}

/// Exact byte-for-byte equality of two byte strings.
pub fn bytes_eq(a: &[u8], b: &[u8]) -> (r: bool)
    ensures
        r == (a@ == b@),
{
    if a.len() != b.len() {
        return false;
    }
    for i in 0..a.len()
        invariant
            a@.len() == b@.len(),
            i <= a@.len(),
            forall|k: int| 0 <= k < i ==> a@[k] == b@[k],
    {
        if a[i] != b[i] {
            return false;
        }
    }
    proof {
        assert(a@ =~= b@);
    }
    true
}

} // verus!
