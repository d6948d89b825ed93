//! The ordered set: a specialization of the ordered map with a unit value.

use vstd::prelude::*;

use crate::generator::{
    build, spec_bucket_count_of, spec_entry_keys, spec_first_ok, spec_table_len_of, BuildError,
    Config,
};
use crate::map::OrderedMap;

verus! {

broadcast use vstd::std_specs::vec::axiom_spec_len;

/// An immutable set of byte-string keys with constant-time membership and
/// iteration in insertion order.
pub struct OrderedSet {
    inner: OrderedMap<()>,
}

impl OrderedSet {
    pub closed spec fn wf(self) -> bool {
        self.inner.wf()
    }

    /// The keys, in insertion order.
    pub closed spec fn spec_keys(self) -> Seq<Seq<u8>> {
        self.inner.spec_keys()
    }

    pub closed spec fn spec_len(self) -> nat {
        self.inner.spec_len()
    }

    pub open spec fn spec_contains(self, k: Seq<u8>) -> bool {
        exists|i: int| 0 <= i < self.spec_len() && self.spec_keys()[i] == k
    }

    /// Build an [`OrderedSet`] from a list of keys; the key order is the
    /// iteration order. Fails with [`BuildError::DuplicateKey`] exactly when
    /// two keys are equal, else as the map construction does.
    pub fn build_set(keys: Vec<Vec<u8>>, config: Config) -> (r: Result<OrderedSet, BuildError>)
        requires
            config.bucket_size_target >= 1,
            keys@.len() < 0x8000_0000,
        ensures
            r matches Ok(s) ==> {
                &&& s.wf()
                &&& s.spec_len() == keys@.len()
                &&& forall|i: int| 0 <= i < keys@.len() ==> s.spec_keys()[i] == keys@[i]@
            },
            r == Err::<OrderedSet, BuildError>(BuildError::DuplicateKey) <==> exists|i: int, j: int|
                0 <= i < j < keys@.len() && keys@[i]@ == keys@[j]@,
            r is Err ==> r == Err::<OrderedSet, BuildError>(BuildError::DuplicateKey) || r
                == Err::<OrderedSet, BuildError>(BuildError::ConstructionExhausted),
            !(exists|i: int, j: int| 0 <= i < j < keys@.len() && keys@[i]@ == keys@[j]@) ==> (r
                is Ok <==> spec_first_ok(
                Seq::new(keys@.len(), |i: int| keys@[i]@),
                config.initial_seed,
                spec_bucket_count_of(keys@.len() as int, config.bucket_size_target as int),
                spec_table_len_of(keys@.len() as int),
                config.max_attempts as int,
                0,
            ) is Some),
    {
        let ghost keys0 = keys@;
        let n = keys.len();
        let mut rest = keys;
        let mut entries_rev: Vec<(Vec<u8>, ())> = Vec::new();
        proof {
            assert(keys0.take(keys0.len() as int) =~= keys0);
        }
        while rest.len() > 0
            invariant
                keys0.len() == n as int,
                rest@.len() + entries_rev@.len() == n as int,
                rest@ == keys0.take(rest@.len() as int),
                forall|m: int|
                    0 <= m < entries_rev@.len() ==> (#[trigger] entries_rev@[m]).0 == keys0[n - 1
                        - m],
            decreases rest@.len(),
        {
            let ghost prerest = rest@;
            let k = rest.pop().unwrap();
            entries_rev.push((k, ()));
            proof {
                assert(prerest[prerest.len() - 1] == keys0.take(prerest.len() as int)[prerest.len()
                    - 1]);
                assert(rest@ =~= keys0.take(rest@.len() as int));
            }
        }
        let mut entries: Vec<(Vec<u8>, ())> = Vec::new();
        while entries_rev.len() > 0
            invariant
                keys0.len() == n as int,
                entries_rev@.len() + entries@.len() == n as int,
                forall|m: int|
                    0 <= m < entries_rev@.len() ==> (#[trigger] entries_rev@[m]).0 == keys0[n - 1
                        - m],
                forall|m: int|
                    0 <= m < entries@.len() ==> (#[trigger] entries@[m]).0 == keys0[m],
            decreases entries_rev@.len(),
        {
            let e = entries_rev.pop().unwrap();
            entries.push(e);
        }
        match build(entries, config) {
            Ok(m) => {
                let s = OrderedSet { inner: m };
                proof {
                    assert(spec_entry_keys(entries@) =~= Seq::new(
                        keys0.len(),
                        |i: int| keys0[i]@,
                    ));
                    assert forall|i: int|
                        0 <= i < keys0.len() implies s.spec_keys()[i] == keys0[i]@ by {
                        assert(s.spec_keys()[i] == entries@[i].0@);
                    }
                    if exists|i: int, j: int| 0 <= i < j < keys0.len() && keys0[i]@ == keys0[j]@ {
                        let (i, j) = choose|i: int, j: int|
                            0 <= i < j < keys0.len() && keys0[i]@ == keys0[j]@;
                        assert(entries@[i].0 == keys0[i]);
                        assert(entries@[j].0 == keys0[j]);
                        assert(entries@[i].0@ == entries@[j].0@);
                    }
                }
                Ok(s)
            },
            Err(e) => {
                proof {
                    assert(spec_entry_keys(entries@) =~= Seq::new(
                        keys0.len(),
                        |i: int| keys0[i]@,
                    ));
                    if exists|i: int, j: int| 0 <= i < j < n && entries@[i].0@ == entries@[j].0@ {
                        let (i, j) = choose|i: int, j: int|
                            0 <= i < j < n && entries@[i].0@ == entries@[j].0@;
                        assert(entries@[i].0 == keys0[i]);
                        assert(entries@[j].0 == keys0[j]);
                        assert(keys0[i]@ == keys0[j]@);
                    }
                    if exists|i: int, j: int| 0 <= i < j < keys0.len() && keys0[i]@ == keys0[j]@ {
                        let (i, j) = choose|i: int, j: int|
                            0 <= i < j < keys0.len() && keys0[i]@ == keys0[j]@;
                        assert(entries@[i].0 == keys0[i]);
                        assert(entries@[j].0 == keys0[j]);
                        assert(entries@[i].0@ == entries@[j].0@);
                    }
                }
                Err(e)
            },
        }
    }

    /// Whether the exact key is in the set.
    pub fn contains(&self, key: &[u8]) -> (r: bool)
        requires
            self.wf(),
        ensures
            r == self.spec_contains(key@),
    {
        let r = self.inner.contains_key(key);
        proof {
            if self.inner.spec_contains_key(key@) {
                let i = choose|i: int|
                    0 <= i < self.inner.spec_len() && self.inner.spec_keys()[i] == key@;
                assert(self.spec_keys()[i] == key@);
            }
            if self.spec_contains(key@) {
                let i = choose|i: int| 0 <= i < self.spec_len() && self.spec_keys()[i] == key@;
                assert(self.inner.spec_keys()[i] == key@);
                assert(self.inner.spec_contains_key(key@));
            }
        }
        r
    }

    /// Number of keys.
    pub fn len(&self) -> (r: usize)
        ensures
            r == self.spec_len(),
    {
        self.inner.len()
    }

    pub fn is_empty(&self) -> (r: bool)
        ensures
            r == (self.spec_len() == 0),
    {
        self.inner.is_empty()
    }

    /// The key at position `i` of the insertion order.
    pub fn key_at(&self, i: usize) -> (r: &Vec<u8>)
        requires
            i < self.spec_len(),
        ensures
            r@ == self.spec_keys()[i as int],
    {
        self.inner.key_at(i)
    }
}

} // verus!
