//! Construction: hash all entries under a seed, reject duplicate keys, plan
//! and solve the displacement table, and retry with fresh seeds from a
//! deterministic sequence until the solver succeeds or the attempt budget
//! runs out.

use vstd::prelude::*;

use crate::hashing::{hash_key, spec_hash};
use crate::map::OrderedMap;
use crate::solver::{solve, spec_placed, spec_solve};
use crate::{bytes_eq, spec_slot_in, HashValue};

verus! {

broadcast use
    vstd::std_specs::vec::axiom_spec_len,
    vstd::seq::axiom_seq_subrange_index,
    vstd::seq::axiom_seq_subrange_len;

/// Why a construction failed.
#[derive(Clone, Copy, Debug, PartialEq, Eq, Structural)]
pub enum BuildError {
    /// Two input entries carry equal keys: a caller input error, surfaced
    /// immediately and never retried.
    DuplicateKey,
    /// No seed up to the attempt budget produced a complete placement; the
    /// size parameters, not the keys, need adjusting.
    ConstructionExhausted,
    /// Externally supplied parts do not form a consistent table.
    InvalidTable,
}

/// Construction parameters.
pub struct Config {
    /// Aimed-for entries per bucket; the bucket count is the entry count
    /// divided by this, rounded up.
    pub bucket_size_target: usize,
    /// Seed of the first attempt and of the seed sequence behind retries.
    pub initial_seed: u64,
    /// Total number of attempts allowed before giving up.
    pub max_attempts: usize,
}

impl Config {
    /// The default configuration: five entries per bucket, a fixed seed,
    /// and a generous attempt budget.
    pub fn new() -> (r: Self)
        ensures
            r.bucket_size_target == 5,
            r.initial_seed == 0x243F_6A88_85A3_08D3u64,
            r.max_attempts == 64,
    {
        Config { bucket_size_target: 5, initial_seed: 0x243F_6A88_85A3_08D3u64, max_attempts: 64 }
    }
}

impl Default for Config {
    /// The same parameters as [`Config::new`].
    fn default() -> (r: Self)
        ensures
            r.bucket_size_target == 5,
            r.initial_seed == 0x243F_6A88_85A3_08D3u64,
            r.max_attempts == 64,
    {
        Config::new()
    }
}

/// One draw of the deterministic seed sequence: a 64-bit mix of the initial
/// seed and the attempt counter, so that a `(keys, seed)` pair always
/// reproduces the same sequence of attempts.
pub open spec fn spec_next_seed(base: u64, attempt: u64) -> u64 {
    let z0 = vstd::wrapping::u64_specs::wrapping_add(
        base,
        vstd::wrapping::u64_specs::wrapping_mul(attempt, 0x9E37_79B9_7F4A_7C15u64),
    );
    let z1 = vstd::wrapping::u64_specs::wrapping_mul(z0 ^ (z0 >> 30u64), 0xBF58_476D_1CE4_E5B9u64);
    let z2 = vstd::wrapping::u64_specs::wrapping_mul(z1 ^ (z1 >> 27u64), 0x94D0_49BB_1331_11EBu64);
    z2 ^ (z2 >> 31u64)
}

pub(crate) fn next_seed(base: u64, attempt: u64) -> (r: u64)
    ensures
        r == spec_next_seed(base, attempt),
{
    let z0 = base.wrapping_add(attempt.wrapping_mul(0x9E37_79B9_7F4A_7C15u64));
    let z1 = (z0 ^ (z0 >> 30u64)).wrapping_mul(0xBF58_476D_1CE4_E5B9u64);
    let z2 = (z1 ^ (z1 >> 27u64)).wrapping_mul(0x94D0_49BB_1331_11EBu64);
    z2 ^ (z2 >> 31u64)
}

/// The bucket count chosen for `n` entries under a bucket-size target: the
/// entry count over the target, rounded up, and at least one.
pub open spec fn spec_bucket_count_of(n: int, target: int) -> int {
    let q = n / target;
    let b = if n % target != 0 {
        q + 1
    } else {
        q
    };
    if b == 0 {
        1
    } else {
        b
    }
}

/// The smallest power of two at or above `acc` (doubling from `acc`) that
/// also reaches `n`.
pub open spec fn spec_next_pow2_from(n: int, acc: int) -> int
    decreases n - acc,
{
    if acc >= n || acc < 1 {
        acc
    } else if 2 * acc >= n {
        2 * acc
    } else {
        spec_next_pow2_from(n, 2 * acc)
    }
}

/// The table length chosen for `n` entries: the smallest power of two at or
/// above `n`, and at least one.
pub open spec fn spec_table_len_of(n: int) -> int {
    spec_next_pow2_from(n, 1)
}

/// The key of each entry, as the byte string the container hashes.
pub open spec fn spec_entry_keys<V>(entries: Seq<(Vec<u8>, V)>) -> Seq<Seq<u8>> {
    Seq::new(entries.len(), |i: int| entries[i].0@)
}

/// The hashes of all keys under one seed.
pub open spec fn spec_hashes(seed: u64, keys: Seq<Seq<u8>>) -> Seq<HashValue> {
    Seq::new(keys.len(), |i: int| spec_hash(seed, keys[i]))
}

/// The seed of attempt `a`: the caller's seed first, then draws of the
/// deterministic sequence.
pub open spec fn spec_attempt_seed(initial: u64, a: int) -> u64 {
    if a == 0 {
        initial
    } else {
        spec_next_seed(initial, a as u64)
    }
}

/// Whether attempt `a` succeeds: the solver completes on the hashes that the
/// attempt's seed gives the keys, for `b` buckets and `t` slots.
pub open spec fn spec_attempt_ok(keys: Seq<Seq<u8>>, initial: u64, b: int, t: int, a: int) -> bool {
    spec_solve(spec_hashes(spec_attempt_seed(initial, a), keys), b, t) is Some
}

/// The first successful attempt at or after `a` and below `max`, if any.
pub open spec fn spec_first_ok(
    keys: Seq<Seq<u8>>,
    initial: u64,
    b: int,
    t: int,
    max: int,
    a: int,
) -> Option<int>
    decreases max - a,
{
    if a >= max || a < 0 {
        None
    } else if spec_attempt_ok(keys, initial, b, t, a) {
        Some(a)
    } else {
        spec_first_ok(keys, initial, b, t, max, a + 1)
    }
}

/// Whether two positions of the key list hold equal keys.
pub open spec fn spec_has_duplicate(keys: Seq<Seq<u8>>) -> bool {
    exists|i: int, j: int| 0 <= i < j < keys.len() && keys[i] == keys[j]
}

/// Find a duplicated key, if any.
fn find_duplicate(keys: &Vec<Vec<u8>>) -> (r: bool)
    ensures
        r == spec_has_duplicate(Seq::new(keys@.len(), |i: int| keys@[i]@)),
{
    let ghost ks = Seq::new(keys@.len(), |i: int| keys@[i]@);
    let n = keys.len();
    for i in 0..n
        invariant
            n == keys@.len(),
            ks == Seq::new(keys@.len(), |i: int| keys@[i]@),
            forall|i2: int, j2: int| 0 <= i2 < j2 < n && i2 < i ==> ks[i2] != ks[j2],
    {
        for j in (i + 1)..n
            invariant
                i < n,
                n == keys@.len(),
                ks == Seq::new(keys@.len(), |i: int| keys@[i]@),
                forall|j2: int| i < j2 < j ==> ks[i as int] != ks[j2],
        {
            if bytes_eq(keys[i].as_slice(), keys[j].as_slice()) {
                proof {
                    assert(ks[i as int] == ks[j as int]);
                }
                return true;
            }
        }
    }
    false
}

/// Build an [`OrderedMap`] from a list of entries.
///
/// The entry order is the iteration order of the finished map. Construction
/// fails with [`BuildError::DuplicateKey`] exactly when two entries carry
/// equal keys, and with [`BuildError::ConstructionExhausted`] exactly when
/// no attempt within the budget succeeds in the modeled construction
/// (`spec_first_ok`): hash under the attempt's seed, plan and order the
/// buckets, and search candidates `d1` outer, `d2` inner, each over the
/// table length. No partial container is ever returned. On success the
/// stored seed, displacement table and index table are those of the first
/// successful attempt, so one input and one initial seed always yield one
/// identical artifact. The bucket count is the entry count over the target
/// rounded up; the table length is the smallest power of two at or above
/// the entry count.
pub fn build<V>(entries: Vec<(Vec<u8>, V)>, config: Config) -> (r: Result<
    OrderedMap<V>,
    BuildError,
>)
    requires
        config.bucket_size_target >= 1,
        entries@.len() < 0x8000_0000,
    ensures
        r matches Ok(m) ==> {
            &&& m.wf()
            &&& m.spec_len() == entries@.len()
            &&& forall|i: int|
                0 <= i < entries@.len() ==> m.spec_keys()[i] == entries@[i].0@
                    && m.spec_values()[i] == entries@[i].1
            &&& m.spec_bucket_count() == spec_bucket_count_of(
                entries@.len() as int,
                config.bucket_size_target as int,
            )
            &&& m.spec_table_len() == spec_table_len_of(entries@.len() as int)
        },
        r == Err::<OrderedMap<V>, BuildError>(BuildError::DuplicateKey) <==> exists|i: int, j: int|
            0 <= i < j < entries@.len() && entries@[i].0@ == entries@[j].0@,
        r is Err ==> r == Err::<OrderedMap<V>, BuildError>(BuildError::DuplicateKey) || r
            == Err::<OrderedMap<V>, BuildError>(BuildError::ConstructionExhausted),
        !(exists|i: int, j: int| 0 <= i < j < entries@.len() && entries@[i].0@ == entries@[j].0@)
            ==> (r is Ok <==> spec_first_ok(
            spec_entry_keys(entries@),
            config.initial_seed,
            spec_bucket_count_of(entries@.len() as int, config.bucket_size_target as int),
            spec_table_len_of(entries@.len() as int),
            config.max_attempts as int,
            0,
        ) is Some),
        r matches Ok(m) ==> {
            let a = spec_first_ok(
                spec_entry_keys(entries@),
                config.initial_seed,
                spec_bucket_count_of(entries@.len() as int, config.bucket_size_target as int),
                spec_table_len_of(entries@.len() as int),
                config.max_attempts as int,
                0,
            )->0;
            let sd = spec_attempt_seed(config.initial_seed, a);
            &&& m.spec_seed() == sd
            &&& spec_solve(
                spec_hashes(sd, spec_entry_keys(entries@)),
                spec_bucket_count_of(entries@.len() as int, config.bucket_size_target as int),
                spec_table_len_of(entries@.len() as int),
            ) == Some((m.spec_disps(), m.spec_idxs()))
        },
{
    let ghost entries0 = entries@;
    let n = entries.len();

    // Split the entries into parallel key and value lists, preserving order.
    let mut rest = entries;
    let mut keys_rev: Vec<Vec<u8>> = Vec::new();
    let mut values_rev: Vec<V> = Vec::new();
    proof {
        assert(entries0.take(entries0.len() as int) =~= entries0);
    }
    while rest.len() > 0
        invariant
            entries0.len() == n as int,
            rest@.len() + keys_rev@.len() == n as int,
            values_rev@.len() == keys_rev@.len(),
            rest@ == entries0.take(rest@.len() as int),
            forall|m: int|
                0 <= m < keys_rev@.len() ==> keys_rev@[m] == entries0[n - 1 - m].0
                    && values_rev@[m] == entries0[n - 1 - m].1,
        decreases rest@.len(),
    {
        let ghost prerest = rest@;
        let (k, v) = rest.pop().unwrap();
        keys_rev.push(k);
        values_rev.push(v);
        proof {
            assert(prerest[prerest.len() - 1] == entries0[prerest.len() - 1]);
            assert(rest@ =~= entries0.take(rest@.len() as int));
        }
    }
    let mut keys: Vec<Vec<u8>> = Vec::new();
    let mut values: Vec<V> = Vec::new();
    while keys_rev.len() > 0
        invariant
            entries0.len() == n as int,
            keys_rev@.len() + keys@.len() == n as int,
            values_rev@.len() == keys_rev@.len(),
            values@.len() == keys@.len(),
            forall|m: int|
                0 <= m < keys_rev@.len() ==> keys_rev@[m] == entries0[n - 1 - m].0
                    && values_rev@[m] == entries0[n - 1 - m].1,
            forall|m: int|
                0 <= m < keys@.len() ==> keys@[m] == entries0[m].0 && values@[m] == entries0[m].1,
        decreases keys_rev@.len(),
    {
        let k = keys_rev.pop().unwrap();
        let v = values_rev.pop().unwrap();
        keys.push(k);
        values.push(v);
    }
    proof {
        assert(keys@.len() == n as int);
    }

    // Duplicate keys are an input error, detected before any attempt and
    // never retried.
    if find_duplicate(&keys) {
        return Err(BuildError::DuplicateKey);
    }
    proof {
        assert forall|i: int, j: int|
            0 <= i < j < entries0.len() implies entries0[i].0@ != entries0[j].0@ by {
            let ks = Seq::new(keys@.len(), |i: int| keys@[i]@);
            assert(ks[i] == entries0[i].0@);
            assert(ks[j] == entries0[j].0@);
        }
    }

    // Bucket count: entry count over the target size, rounded up; table
    // length: the smallest power of two at or above the entry count.
    proof {
        vstd::arithmetic::div_mod::lemma_div_is_ordered_by_denominator(
            n as int,
            1,
            config.bucket_size_target as int,
        );
    }
    let mut b = n / config.bucket_size_target;
    if n % config.bucket_size_target != 0 {
        b = b + 1;
    }
    if b == 0 {
        b = 1;
    }
    let mut t64: u64 = 1;
    while t64 < n as u64
        invariant
            1 <= t64 < 0x1_0000_0000u64,
            n < 0x8000_0000,
            spec_next_pow2_from(n as int, t64 as int) == spec_table_len_of(n as int),
        decreases 2 * (n as int) - t64,
    {
        t64 = t64 * 2;
    }
    let t = t64 as usize;
    proof {
        assert(t as int == spec_table_len_of(n as int));
        assert(b as int == spec_bucket_count_of(n as int, config.bucket_size_target as int));
    }

    let mut attempt: usize = 0;
    let mut seed = config.initial_seed;
    while attempt < config.max_attempts
        invariant
            n == keys@.len(),
            n == values@.len(),
            n < 0x8000_0000,
            b >= 1,
            1 <= t <= u32::MAX,
            n <= t,
            forall|m: int|
                0 <= m < n ==> keys@[m] == entries0[m].0 && values@[m] == entries0[m].1,
            forall|i: int, j: int| 0 <= i < j < n ==> keys@[i]@ != keys@[j]@,
            entries0.len() == n as int,
            entries0 == entries@,
            b as int == spec_bucket_count_of(n as int, config.bucket_size_target as int),
            t as int == spec_table_len_of(n as int),
            attempt <= config.max_attempts,
            seed == spec_attempt_seed(config.initial_seed, attempt as int),
            spec_first_ok(
                spec_entry_keys(entries0),
                config.initial_seed,
                b as int,
                t as int,
                config.max_attempts as int,
                0,
            ) == spec_first_ok(
                spec_entry_keys(entries0),
                config.initial_seed,
                b as int,
                t as int,
                config.max_attempts as int,
                attempt as int,
            ),
        decreases config.max_attempts - attempt,
    {
        let mut hashes: Vec<crate::HashValue> = Vec::new();
        for i in 0..n
            invariant
                n == keys@.len(),
                hashes@.len() == i as int,
                forall|m: int| 0 <= m < i ==> hashes@[m] == spec_hash(seed, keys@[m]@),
        {
            hashes.push(hash_key(seed, keys[i].as_slice()));
        }
        let ghost kviews = spec_entry_keys(entries0);
        proof {
            assert forall|i: int| 0 <= i < n implies hashes@[i] == spec_hashes(seed, kviews)[i] by {
                assert(kviews[i] == entries0[i].0@);
                assert(keys@[i] == entries0[i].0);
            }
            assert(hashes@ =~= spec_hashes(seed, kviews));
        }
        match solve(&hashes, b, t) {
            Some((disps, idxs)) => {
                proof {
                    assert(spec_solve(spec_hashes(seed, kviews), b as int, t as int) == Some(
                        (disps@, idxs@),
                    ));
                    assert(spec_attempt_ok(
                        kviews,
                        config.initial_seed,
                        b as int,
                        t as int,
                        attempt as int,
                    ));
                    assert(spec_first_ok(
                        kviews,
                        config.initial_seed,
                        b as int,
                        t as int,
                        config.max_attempts as int,
                        attempt as int,
                    ) == Some(attempt as int));
                    assert(spec_placed(hashes@, disps@, idxs@));
                    assert forall|i: int|
                        0 <= i < keys@.len() implies 0 <= spec_slot_in(
                        #[trigger] spec_hash(seed, keys@[i]@),
                        disps@,
                        idxs@.len() as int,
                    ) < idxs@.len() && idxs@[spec_slot_in(
                        spec_hash(seed, keys@[i]@),
                        disps@,
                        idxs@.len() as int,
                    )] == Some(i as usize) by {
                        assert(hashes@[i] == spec_hash(seed, keys@[i]@));
                    }
                    assert forall|s: int|
                        0 <= s < idxs@.len() implies ((#[trigger] idxs@[s]) matches Some(i) ==> i
                        < keys@.len() && spec_slot_in(
                        spec_hash(seed, keys@[i as int]@),
                        disps@,
                        idxs@.len() as int,
                    ) == s) by {
                        if idxs@[s] is Some {
                            let i = idxs@[s]->0;
                            assert(hashes@[i as int] == spec_hash(seed, keys@[i as int]@));
                        }
                    }
                }
                let ghost gkeys = keys@;
                let m = OrderedMap::assemble(seed, disps, idxs, keys, values);
                proof {
                    assert forall|i: int|
                        0 <= i < entries0.len() implies m.spec_keys()[i] == entries0[i].0@
                        && m.spec_values()[i] == entries0[i].1 by {
                        assert(m.spec_keys()[i] == gkeys[i]@);
                        assert(gkeys[i] == entries0[i].0);
                    }
                    assert forall|i: int, j: int|
                        0 <= i < j < entries0.len() implies entries0[i].0@ != entries0[j].0@ by {
                        assert(gkeys[i]@ != gkeys[j]@);
                        assert(gkeys[i] == entries0[i].0);
                        assert(gkeys[j] == entries0[j].0);
                    }
                }
                return Ok(m);
            },
            None => {
                proof {
                    assert(spec_solve(spec_hashes(seed, kviews), b as int, t as int) is None);
                    assert(!spec_attempt_ok(
                        kviews,
                        config.initial_seed,
                        b as int,
                        t as int,
                        attempt as int,
                    ));
                    assert(spec_first_ok(
                        kviews,
                        config.initial_seed,
                        b as int,
                        t as int,
                        config.max_attempts as int,
                        attempt as int,
                    ) == spec_first_ok(
                        kviews,
                        config.initial_seed,
                        b as int,
                        t as int,
                        config.max_attempts as int,
                        attempt as int + 1,
                    ));
                }
                attempt = attempt + 1;
                seed = next_seed(config.initial_seed, attempt as u64);
            },
        }
    }
    proof {
        assert(spec_first_ok(
            spec_entry_keys(entries0),
            config.initial_seed,
            b as int,
            t as int,
            config.max_attempts as int,
            attempt as int,
        ) is None);
    }
    Err(BuildError::ConstructionExhausted)
}

} // verus!
