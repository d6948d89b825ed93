//! The immutable artifact of construction: entries in insertion order plus
//! the displacement table, giving constant-time exact lookup and
//! order-preserving iteration.

use vstd::prelude::*;

use crate::generator::BuildError;
use crate::hashing::{hash_key, spec_hash};
use crate::{bytes_eq, slot_for, spec_bucket, spec_slot_in};

verus! {

broadcast use vstd::std_specs::vec::axiom_spec_len;

/// The consistency conditions on externally supplied parts: exactly the
/// placement conditions that a fresh construction establishes.
pub open spec fn spec_parts_consistent(
    seed: u64,
    disps: Seq<(u32, u32)>,
    idxs: Seq<Option<usize>>,
    keys: Seq<Vec<u8>>,
    n_values: int,
) -> bool {
    &&& disps.len() >= 1
    &&& idxs.len() >= 1
    &&& n_values == keys.len()
    &&& keys.len() <= idxs.len()
    &&& forall|i: int|
        0 <= i < keys.len() ==> 0 <= spec_slot_in(
            #[trigger] spec_hash(seed, keys[i]@),
            disps,
            idxs.len() as int,
        ) < idxs.len() && idxs[spec_slot_in(spec_hash(seed, keys[i]@), disps, idxs.len() as int)]
            == Some(i as usize)
    &&& forall|s: int|
        0 <= s < idxs.len() ==> ((#[trigger] idxs[s]) matches Some(e) ==> e < keys.len()
            && spec_slot_in(spec_hash(seed, keys[e as int]@), disps, idxs.len() as int) == s)
}

/// An immutable map from byte-string keys to values.
///
/// A key of any shape takes part through its byte projection: the container
/// hashes and compares the projected bytes, at build time and at lookup time
/// alike. Entries keep their insertion order; the displacement table sends
/// each present key to its own slot of the index table, so `get` probes one
/// slot and confirms with full key equality.
pub struct OrderedMap<V> {
    seed: u64,
    disps: Vec<(u32, u32)>,
    idxs: Vec<Option<usize>>,
    keys: Vec<Vec<u8>>,
    values: Vec<V>,
}

impl<V> OrderedMap<V> {
    /// The keys, in insertion order.
    pub closed spec fn spec_keys(self) -> Seq<Seq<u8>> {
        Seq::new(self.keys@.len(), |i: int| self.keys@[i]@)
    }

    /// The values, in insertion order.
    pub closed spec fn spec_values(self) -> Seq<V> {
        self.values@
    }

    pub closed spec fn spec_len(self) -> nat {
        self.keys@.len()
    }

    pub closed spec fn spec_seed(self) -> u64 {
        self.seed
    }

    pub closed spec fn spec_bucket_count(self) -> nat {
        self.disps@.len()
    }

    pub closed spec fn spec_table_len(self) -> nat {
        self.idxs@.len()
    }

    pub closed spec fn spec_disps(self) -> Seq<(u32, u32)> {
        self.disps@
    }

    /// The index table: for each slot, the entry it holds, if any.
    pub closed spec fn spec_idxs(self) -> Seq<Option<usize>> {
        self.idxs@
    }

    /// The shape facts of a well-formed container: the displacement table
    /// has one pair per bucket, there is at least one bucket, and the index
    /// table has a slot for every entry.
    pub proof fn lemma_wf_shape(self)
        requires
            self.wf(),
        ensures
            self.spec_disps().len() == self.spec_bucket_count(),
            self.spec_idxs().len() == self.spec_table_len(),
            self.spec_bucket_count() >= 1,
            self.spec_table_len() >= 1,
            self.spec_len() <= self.spec_table_len(),
            self.spec_values().len() == self.spec_len(),
    {
    }

    /// The slot that entry `i` occupies in the index table.
    pub closed spec fn spec_slot_of(self, i: int) -> int {
        spec_slot_in(
            spec_hash(self.seed, self.spec_keys()[i]),
            self.disps@,
            self.idxs@.len() as int,
        )
    }

    /// Well-formed: every entry sits in its own slot of the index table, and
    /// every occupied slot points back at the entry whose slot it is; keys
    /// are pairwise distinct.
    pub closed spec fn wf(self) -> bool {
        &&& self.disps@.len() >= 1
        &&& self.idxs@.len() >= 1
        &&& self.values@.len() == self.keys@.len()
        &&& self.keys@.len() <= self.idxs@.len()
        &&& forall|i: int|
            0 <= i < self.keys@.len() ==> 0 <= #[trigger] self.spec_slot_of(i) < self.idxs@.len()
                && self.idxs@[self.spec_slot_of(i)] == Some(i as usize)
        &&& forall|s: int|
            0 <= s < self.idxs@.len() ==> ((#[trigger] self.idxs@[s]) matches Some(i) ==> i
                < self.keys@.len() && self.spec_slot_of(i as int) == s)
        &&& forall|i: int, j: int|
            0 <= i < j < self.keys@.len() ==> self.spec_keys()[i] != self.spec_keys()[j]
    }

    pub open spec fn spec_contains_key(self, k: Seq<u8>) -> bool {
        exists|i: int| 0 <= i < self.spec_len() && self.spec_keys()[i] == k
    }

    /// The position of key `k` among the entries (meaningful only when the
    /// key is present; unique in a well-formed container).
    pub open spec fn spec_index_of(self, k: Seq<u8>) -> int {
        choose|i: int| 0 <= i < self.spec_len() && self.spec_keys()[i] == k
    }

    /// The value stored under key `k` (meaningful only when present).
    pub open spec fn spec_value_of(self, k: Seq<u8>) -> V {
        self.spec_values()[self.spec_index_of(k)]
    }

    /// The entry count fits a machine word, as any vector's length does.
    proof fn lemma_len_bound(self)
        ensures
            self.keys@.len() <= usize::MAX,
    {
        assert(self.keys@.len() == vstd::std_specs::vec::spec_vec_len(&self.keys));
    }

    /// In a well-formed container the position of a present key is unique.
    pub proof fn lemma_index_unique(self, i: int, k: Seq<u8>)
        requires
            self.wf(),
            0 <= i < self.spec_len(),
            self.spec_keys()[i] == k,
        ensures
            self.spec_contains_key(k),
            self.spec_index_of(k) == i,
    {
        assert(self.spec_contains_key(k));
        let j = self.spec_index_of(k);
        assert(0 <= j < self.spec_len() && self.spec_keys()[j] == k);
        if i < j {
            assert(self.spec_keys()[i] != self.spec_keys()[j]);
        } else if j < i {
            assert(self.spec_keys()[j] != self.spec_keys()[i]);
        }
    }

    /// No collision: two distinct entries of a well-formed container never
    /// share a slot.
    pub proof fn lemma_no_collision(self, i: int, j: int)
        requires
            self.wf(),
            0 <= i < self.spec_len(),
            0 <= j < self.spec_len(),
            i != j,
        ensures
            self.spec_slot_of(i) != self.spec_slot_of(j),
    {
        self.lemma_len_bound();
        if self.spec_slot_of(i) == self.spec_slot_of(j) {
            assert(self.idxs@[self.spec_slot_of(i)] == Some(i as usize));
            assert(self.idxs@[self.spec_slot_of(j)] == Some(j as usize));
        }
    }

    /// Positive correctness, on the model: the key at position `i` is
    /// present and maps to the value at position `i`.
    pub proof fn lemma_entry_lookup(self, i: int)
        requires
            self.wf(),
            0 <= i < self.spec_len(),
        ensures
            self.spec_contains_key(self.spec_keys()[i]),
            self.spec_value_of(self.spec_keys()[i]) == self.spec_values()[i],
    {
        self.lemma_index_unique(i, self.spec_keys()[i]);
    }

    /// Build the container from already-placed parts. The requires clauses
    /// are exactly the placement conditions that `wf` records.
    pub(crate) fn assemble(
        seed: u64,
        disps: Vec<(u32, u32)>,
        idxs: Vec<Option<usize>>,
        keys: Vec<Vec<u8>>,
        values: Vec<V>,
    ) -> (r: Self)
        requires
            disps@.len() >= 1,
            idxs@.len() >= 1,
            values@.len() == keys@.len(),
            keys@.len() <= idxs@.len(),
            forall|i: int|
                0 <= i < keys@.len() ==> 0 <= spec_slot_in(
                    #[trigger] spec_hash(seed, keys@[i]@),
                    disps@,
                    idxs@.len() as int,
                ) < idxs@.len() && idxs@[spec_slot_in(
                    spec_hash(seed, keys@[i]@),
                    disps@,
                    idxs@.len() as int,
                )] == Some(i as usize),
            forall|s: int|
                0 <= s < idxs@.len() ==> ((#[trigger] idxs@[s]) matches Some(i) ==> i
                    < keys@.len() && spec_slot_in(
                    spec_hash(seed, keys@[i as int]@),
                    disps@,
                    idxs@.len() as int,
                ) == s),
            forall|i: int, j: int| 0 <= i < j < keys@.len() ==> keys@[i]@ != keys@[j]@,
        ensures
            r.wf(),
            r.spec_len() == keys@.len(),
            forall|i: int| 0 <= i < keys@.len() ==> r.spec_keys()[i] == keys@[i]@,
            r.spec_values() == values@,
            r.spec_seed() == seed,
            r.spec_bucket_count() == disps@.len(),
            r.spec_table_len() == idxs@.len(),
            r.spec_disps() == disps@,
            r.spec_idxs() == idxs@,
    {
        let r = OrderedMap { seed, disps, idxs, keys, values };
        proof {
            assert forall|i: int| 0 <= i < r.keys@.len() implies 0 <= #[trigger] r.spec_slot_of(i)
                < r.idxs@.len() && r.idxs@[r.spec_slot_of(i)] == Some(i as usize) by {
                assert(r.spec_keys()[i] == r.keys@[i]@);
            }
            assert forall|s: int|
                0 <= s < r.idxs@.len() implies ((#[trigger] r.idxs@[s]) matches Some(i) ==> i
                < r.keys@.len() && r.spec_slot_of(i as int) == s) by {
                if r.idxs@[s] is Some {
                    let i = r.idxs@[s]->0;
                    assert(r.spec_keys()[i as int] == r.keys@[i as int]@);
                }
            }
        }
        r
    }

    /// Rebuild a container from externally supplied (for example,
    /// deserialized) parts, after checking that they form a consistent
    /// table; inconsistent parts are rejected with
    /// [`BuildError::InvalidTable`], never left to misbehave.
    pub fn from_parts(
        seed: u64,
        disps: Vec<(u32, u32)>,
        idxs: Vec<Option<usize>>,
        keys: Vec<Vec<u8>>,
        values: Vec<V>,
    ) -> (r: Result<Self, BuildError>)
        ensures
            r is Ok <==> spec_parts_consistent(seed, disps@, idxs@, keys@, values@.len() as int),
            r matches Ok(m) ==> {
                &&& m.wf()
                &&& m.spec_len() == keys@.len()
                &&& forall|i: int| 0 <= i < keys@.len() ==> m.spec_keys()[i] == keys@[i]@
                &&& m.spec_values() == values@
                &&& m.spec_seed() == seed
                &&& m.spec_disps() == disps@
                &&& m.spec_table_len() == idxs@.len()
            },
            r is Err ==> r == Err::<Self, BuildError>(BuildError::InvalidTable),
    {
        if disps.len() == 0 || idxs.len() == 0 || values.len() != keys.len() || keys.len()
            > idxs.len() {
            return Err(BuildError::InvalidTable);
        }
        let n = keys.len();
        let t = idxs.len();
        for i in 0..n
            invariant
                n == keys@.len(),
                t == idxs@.len(),
                disps@.len() >= 1,
                t >= 1,
                forall|i2: int|
                    0 <= i2 < i ==> 0 <= spec_slot_in(
                        #[trigger] spec_hash(seed, keys@[i2]@),
                        disps@,
                        idxs@.len() as int,
                    ) < idxs@.len() && idxs@[spec_slot_in(
                        spec_hash(seed, keys@[i2]@),
                        disps@,
                        idxs@.len() as int,
                    )] == Some(i2 as usize),
        {
            let h = hash_key(seed, keys[i].as_slice());
            let b = (h.g as usize) % disps.len();
            let (d1, d2) = disps[b];
            let slot = slot_for(&h, d1, d2, t);
            proof {
                assert(b as int == spec_bucket(h, disps@.len() as int));
                assert(slot as int == spec_slot_in(h, disps@, idxs@.len() as int));
            }
            let ok = match idxs[slot] {
                Some(e) => e == i,
                None => false,
            };
            if !ok {
                return Err(BuildError::InvalidTable);
            }
        }
        for s in 0..t
            invariant
                n == keys@.len(),
                t == idxs@.len(),
                disps@.len() >= 1,
                t >= 1,
                n <= t,
                n == values@.len(),
                forall|i2: int|
                    0 <= i2 < n ==> 0 <= spec_slot_in(
                        #[trigger] spec_hash(seed, keys@[i2]@),
                        disps@,
                        idxs@.len() as int,
                    ) < idxs@.len() && idxs@[spec_slot_in(
                        spec_hash(seed, keys@[i2]@),
                        disps@,
                        idxs@.len() as int,
                    )] == Some(i2 as usize),
                forall|s2: int|
                    0 <= s2 < s ==> ((#[trigger] idxs@[s2]) matches Some(e) ==> e < keys@.len()
                        && spec_slot_in(
                        spec_hash(seed, keys@[e as int]@),
                        disps@,
                        idxs@.len() as int,
                    ) == s2),
        {
            match idxs[s] {
                Some(e) => {
                    if e >= n {
                        return Err(BuildError::InvalidTable);
                    }
                    let h = hash_key(seed, keys[e].as_slice());
                    let b = (h.g as usize) % disps.len();
                    let (d1, d2) = disps[b];
                    let slot = slot_for(&h, d1, d2, t);
                    proof {
                        assert(b as int == spec_bucket(h, disps@.len() as int));
                        assert(slot as int == spec_slot_in(h, disps@, idxs@.len() as int));
                    }
                    if slot != s {
                        return Err(BuildError::InvalidTable);
                    }
                },
                None => {},
            }
        }
        proof {
            assert(keys@.len() == vstd::std_specs::vec::spec_vec_len(&keys));
            assert forall|i: int, j: int|
                0 <= i < j < keys@.len() implies keys@[i]@ != keys@[j]@ by {
                if keys@[i]@ == keys@[j]@ {
                    assert(spec_hash(seed, keys@[i]@) == spec_hash(seed, keys@[j]@));
                    let si = spec_slot_in(spec_hash(seed, keys@[i]@), disps@, idxs@.len() as int);
                    assert(idxs@[si] == Some(i as usize));
                    assert(idxs@[si] == Some(j as usize));
                }
            }
        }
        Ok(OrderedMap::assemble(seed, disps, idxs, keys, values))
    }

    /// Constant-time exact lookup: probe the one candidate slot, then
    /// confirm with full key equality.
    pub fn get(&self, key: &[u8]) -> (r: Option<&V>)
        requires
            self.wf(),
        ensures
            r is Some <==> self.spec_contains_key(key@),
            r matches Some(v) ==> *v == self.spec_value_of(key@),
    {
        let h = hash_key(self.seed, key);
        let b = (h.g as usize) % self.disps.len();
        let (d1, d2) = self.disps[b];
        let slot = slot_for(&h, d1, d2, self.idxs.len());
        proof {
            assert(b as int == spec_bucket(h, self.disps@.len() as int));
            assert(slot as int == spec_slot_in(h, self.disps@, self.idxs@.len() as int));
        }
        match self.idxs[slot] {
            None => {
                proof {
                    assert forall|i: int|
                        0 <= i < self.spec_len() implies self.spec_keys()[i] != key@ by {
                        if self.spec_keys()[i] == key@ {
                            assert(spec_hash(self.seed, self.spec_keys()[i]) == h);
                            assert(self.spec_slot_of(i) == slot as int);
                            assert(self.idxs@[self.spec_slot_of(i)] == Some(i as usize));
                        }
                    }
                }
                None
            },
            Some(i) => {
                if bytes_eq(key, self.keys[i].as_slice()) {
                    proof {
                        assert(self.spec_keys()[i as int] == self.keys@[i as int]@);
                        self.lemma_index_unique(i as int, key@);
                    }
                    Some(&self.values[i])
                } else {
                    proof {
                        assert forall|j: int|
                            0 <= j < self.spec_len() implies self.spec_keys()[j] != key@ by {
                            if self.spec_keys()[j] == key@ {
                                assert(spec_hash(self.seed, self.spec_keys()[j]) == h);
                                assert(self.spec_slot_of(j) == slot as int);
                                assert(self.idxs@[self.spec_slot_of(j)] == Some(j as usize));
                                assert(j == i as int);
                                assert(self.spec_keys()[i as int] == self.keys@[i as int]@);
                            }
                        }
                    }
                    None
                }
            },
        }
    }

    /// Whether the exact key is present.
    pub fn contains_key(&self, key: &[u8]) -> (r: bool)
        requires
            self.wf(),
        ensures
            r == self.spec_contains_key(key@),
    {
        self.get(key).is_some()
    }

    /// Number of entries.
    pub fn len(&self) -> (r: usize)
        ensures
            r == self.spec_len(),
    {
        self.keys.len()
    }

    pub fn is_empty(&self) -> (r: bool)
        ensures
            r == (self.spec_len() == 0),
    {
        self.keys.len() == 0
    }

    /// The key at position `i` of the insertion order.
    pub fn key_at(&self, i: usize) -> (r: &Vec<u8>)
        requires
            i < self.spec_len(),
        ensures
            r@ == self.spec_keys()[i as int],
    {
        proof {
            assert(self.spec_keys()[i as int] == self.keys@[i as int]@);
        }
        &self.keys[i]
    }

    /// The value at position `i` of the insertion order.
    pub fn value_at(&self, i: usize) -> (r: &V)
        requires
            self.wf(),
            i < self.spec_len(),
        ensures
            *r == self.spec_values()[i as int],
    {
        &self.values[i]
    }

    /// The seed the container was built with.
    pub fn seed(&self) -> (r: u64)
        ensures
            r == self.spec_seed(),
    {
        self.seed
    }

    /// Number of first-level buckets.
    pub fn bucket_count(&self) -> (r: usize)
        ensures
            r == self.spec_bucket_count(),
    {
        self.disps.len()
    }

    /// Number of slots of the index table.
    pub fn table_len(&self) -> (r: usize)
        ensures
            r == self.spec_table_len(),
    {
        self.idxs.len()
    }

    /// The displacement table, one pair per bucket.
    pub fn displacements(&self) -> (r: &Vec<(u32, u32)>)
        ensures
            r@ == self.spec_disps(),
            r@.len() == self.spec_bucket_count(),
    {
        &self.disps
    }
}

} // verus!
