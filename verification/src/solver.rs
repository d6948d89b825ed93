//! The displacement solver: process buckets in planner order and give each
//! one a pair `(d1, d2)` that sends its members to table slots which are
//! free and pairwise distinct. No backtracking: if some bucket exhausts the
//! candidate space, the whole attempt is abandoned and the caller retries
//! with a fresh seed.

use vstd::prelude::*;

use crate::buckets::{bucket_order, plan_buckets};
use crate::{slot_for, spec_bucket, spec_slot, spec_slot_in, HashValue};

verus! {

broadcast use vstd::std_specs::vec::axiom_spec_len;

/// A processed bucket: one that stands in the first `p` positions of the
/// processing order.
pub(crate) open spec fn spec_processed(order: Seq<usize>, p: int, j: int) -> bool {
    exists|q: int| 0 <= q < p && order[q] == j
}

/// The placement conditions of a finished attempt: every entry sits in the
/// slot its hash and its bucket's displacement pair pick, and every occupied
/// slot points back at the entry it holds.
pub(crate) open spec fn spec_placed(
    hashes: Seq<HashValue>,
    disps: Seq<(u32, u32)>,
    idxs: Seq<Option<usize>>,
) -> bool {
    &&& forall|i: int|
        0 <= i < hashes.len() ==> 0 <= #[trigger] spec_slot_in(hashes[i], disps, idxs.len() as int)
            < idxs.len() && idxs[spec_slot_in(hashes[i], disps, idxs.len() as int)] == Some(
            i as usize,
        )
    &&& forall|s: int|
        0 <= s < idxs.len() ==> ((#[trigger] idxs[s]) matches Some(i) ==> i < hashes.len()
            && spec_slot_in(hashes[i as int], disps, idxs.len() as int) == s)
}

/// Whether one candidate pair is acceptable for one bucket: every member
/// lands on a slot that is free in the table and distinct from every other
/// member's slot.
pub open spec fn spec_cand_ok(
    hashes: Seq<HashValue>,
    ms: Seq<usize>,
    d1: u32,
    d2: u32,
    idxs: Seq<Option<usize>>,
) -> bool {
    &&& forall|m: int|
        0 <= m < ms.len() ==> idxs[#[trigger] spec_slot(
            hashes[ms[m] as int],
            d1,
            d2,
            idxs.len() as int,
        )] is None
    &&& forall|m1: int, m2: int|
        0 <= m1 < m2 < ms.len() ==> spec_slot(hashes[ms[m1] as int], d1, d2, idxs.len() as int)
            != spec_slot(hashes[ms[m2] as int], d1, d2, idxs.len() as int)
}

/// The first acceptable `d2` for a fixed `d1`, searching upward from `d2`.
pub open spec fn spec_search_d2(
    hashes: Seq<HashValue>,
    ms: Seq<usize>,
    idxs: Seq<Option<usize>>,
    t: int,
    d1: u32,
    d2: int,
) -> Option<(u32, u32)>
    decreases t - d2,
{
    if d2 >= t || d2 < 0 {
        None
    } else if spec_cand_ok(hashes, ms, d1, d2 as u32, idxs) {
        Some((d1, d2 as u32))
    } else {
        spec_search_d2(hashes, ms, idxs, t, d1, d2 + 1)
    }
}

/// The first acceptable candidate pair in search order — `d1` outer, `d2`
/// inner, each over `0..t` — searching upward from `d1`.
pub open spec fn spec_search_d1(
    hashes: Seq<HashValue>,
    ms: Seq<usize>,
    idxs: Seq<Option<usize>>,
    t: int,
    d1: int,
) -> Option<(u32, u32)>
    decreases t - d1,
{
    if d1 >= t || d1 < 0 {
        None
    } else if spec_search_d2(hashes, ms, idxs, t, d1 as u32, 0) is Some {
        spec_search_d2(hashes, ms, idxs, t, d1 as u32, 0)
    } else {
        spec_search_d1(hashes, ms, idxs, t, d1 + 1)
    }
}

/// The candidate pair the bounded deterministic search yields for one
/// bucket against the current table, if any.
pub open spec fn spec_search(
    hashes: Seq<HashValue>,
    ms: Seq<usize>,
    idxs: Seq<Option<usize>>,
) -> Option<(u32, u32)> {
    spec_search_d1(hashes, ms, idxs, idxs.len() as int, 0)
}

/// Check one candidate pair against one bucket: all members must land on
/// slots that are free in the table and distinct from one another. On
/// success the members' slots come back, in member order.
fn try_candidate(
    hashes: &Vec<HashValue>,
    members: &Vec<usize>,
    d1: u32,
    d2: u32,
    idxs: &Vec<Option<usize>>,
) -> (r: Option<Vec<usize>>)
    requires
        idxs@.len() >= 1,
        forall|m: int| 0 <= m < members@.len() ==> (#[trigger] members@[m]) < hashes@.len(),
    ensures
        r is Some <==> spec_cand_ok(hashes@, members@, d1, d2, idxs@),
        r matches Some(slots) ==> {
            &&& slots@.len() == members@.len()
            &&& forall|m: int|
                0 <= m < members@.len() ==> (#[trigger] slots@[m]) < idxs@.len() && slots@[m]
                    == spec_slot(hashes@[members@[m] as int], d1, d2, idxs@.len() as int)
                    && idxs@[slots@[m] as int] is None
            &&& forall|m1: int, m2: int|
                0 <= m1 < m2 < members@.len() ==> slots@[m1] != slots@[m2]
        },
{
    let t = idxs.len();
    let mut slots: Vec<usize> = Vec::new();
    for m in 0..members.len()
        invariant
            t == idxs@.len(),
            t >= 1,
            forall|m2: int| 0 <= m2 < members@.len() ==> (#[trigger] members@[m2]) < hashes@.len(),
            slots@.len() == m as int,
            forall|m2: int|
                0 <= m2 < m ==> (#[trigger] slots@[m2]) < idxs@.len() && slots@[m2] == spec_slot(
                    hashes@[members@[m2] as int],
                    d1,
                    d2,
                    idxs@.len() as int,
                ) && idxs@[slots@[m2] as int] is None,
            forall|m1: int, m2: int| 0 <= m1 < m2 < m ==> slots@[m1] != slots@[m2],
    {
        let e = members[m];
        let slot = slot_for(&hashes[e], d1, d2, t);
        if idxs[slot].is_some() {
            proof {
                assert(idxs@[spec_slot(
                    hashes@[members@[m as int] as int],
                    d1,
                    d2,
                    idxs@.len() as int,
                )] is Some);
            }
            return None;
        }
        for m2 in 0..slots.len()
            invariant
                t == idxs@.len(),
                m < members@.len(),
                slots@.len() == m as int,
                slot == spec_slot(hashes@[members@[m as int] as int], d1, d2, idxs@.len() as int),
                forall|m3: int|
                    0 <= m3 < m ==> (#[trigger] slots@[m3]) == spec_slot(
                        hashes@[members@[m3] as int],
                        d1,
                        d2,
                        idxs@.len() as int,
                    ),
                forall|m3: int| 0 <= m3 < m2 ==> slots@[m3] != slot,
        {
            if slots[m2] == slot {
                proof {
                    assert(spec_slot(hashes@[members@[m2 as int] as int], d1, d2, idxs@.len() as int)
                        == spec_slot(hashes@[members@[m as int] as int], d1, d2, idxs@.len() as int));
                }
                return None;
            }
        }
        slots.push(slot);
    }
    proof {
        assert forall|m: int|
            0 <= m < members@.len() implies idxs@[#[trigger] spec_slot(
            hashes@[members@[m] as int],
            d1,
            d2,
            idxs@.len() as int,
        )] is None by {
            assert(idxs@[slots@[m] as int] is None);
        }
        assert forall|m1: int, m2: int|
            0 <= m1 < m2 < members@.len() implies spec_slot(
            hashes@[members@[m1] as int],
            d1,
            d2,
            idxs@.len() as int,
        ) != spec_slot(hashes@[members@[m2] as int], d1, d2, idxs@.len() as int) by {
            assert(slots@[m1] != slots@[m2]);
        }
    }
    Some(slots)
}

/// Search the whole bounded candidate space for one bucket, in a fixed
/// deterministic order: `d1` outer, `d2` inner, each over `0..t`.
fn search_bucket(
    hashes: &Vec<HashValue>,
    members: &Vec<usize>,
    t32: u32,
    idxs: &Vec<Option<usize>>,
) -> (r: Option<((u32, u32), Vec<usize>)>)
    requires
        idxs@.len() >= 1,
        t32 == idxs@.len(),
        forall|m: int| 0 <= m < members@.len() ==> (#[trigger] members@[m]) < hashes@.len(),
    ensures
        r is Some <==> spec_search(hashes@, members@, idxs@) is Some,
        r matches Some(found) ==> {
            &&& spec_search(hashes@, members@, idxs@) == Some(found.0)
            &&& found.1@.len() == members@.len()
            &&& forall|m: int|
                0 <= m < members@.len() ==> (#[trigger] found.1@[m]) < idxs@.len() && found.1@[m]
                    == spec_slot(hashes@[members@[m] as int], found.0.0, found.0.1, idxs@.len() as int)
                    && idxs@[found.1@[m] as int] is None
            &&& forall|m1: int, m2: int|
                0 <= m1 < m2 < members@.len() ==> found.1@[m1] != found.1@[m2]
        },
{
    let mut d1: u32 = 0;
    while d1 < t32
        invariant
            idxs@.len() >= 1,
            t32 == idxs@.len(),
            forall|m: int| 0 <= m < members@.len() ==> (#[trigger] members@[m]) < hashes@.len(),
            spec_search_d1(hashes@, members@, idxs@, t32 as int, 0) == spec_search_d1(
                hashes@,
                members@,
                idxs@,
                t32 as int,
                d1 as int,
            ),
        decreases t32 - d1,
    {
        let mut d2: u32 = 0;
        while d2 < t32
            invariant
                idxs@.len() >= 1,
                t32 == idxs@.len(),
                d1 < t32,
                forall|m: int| 0 <= m < members@.len() ==> (#[trigger] members@[m]) < hashes@.len(),
                spec_search_d1(hashes@, members@, idxs@, t32 as int, 0) == (
                if spec_search_d2(hashes@, members@, idxs@, t32 as int, d1, d2 as int) is Some {
                    spec_search_d2(hashes@, members@, idxs@, t32 as int, d1, d2 as int)
                } else {
                    spec_search_d1(hashes@, members@, idxs@, t32 as int, d1 as int + 1)
                }),
            decreases t32 - d2,
        {
            if let Some(slots) = try_candidate(hashes, members, d1, d2, idxs) {
                proof {
                    assert(spec_cand_ok(hashes@, members@, d1, d2, idxs@));
                    assert(spec_search_d2(hashes@, members@, idxs@, t32 as int, d1, d2 as int)
                        == Some((d1, d2)));
                }
                return Some(((d1, d2), slots));
            }
            proof {
                assert(!spec_cand_ok(hashes@, members@, d1, d2, idxs@));
                assert(spec_search_d2(hashes@, members@, idxs@, t32 as int, d1, d2 as int)
                    == spec_search_d2(hashes@, members@, idxs@, t32 as int, d1, d2 as int + 1));
            }
            d2 = d2 + 1;
        }
        proof {
            assert(spec_search_d2(hashes@, members@, idxs@, t32 as int, d1, t32 as int) is None);
        }
        d1 = d1 + 1;
    }
    proof {
        assert(spec_search_d1(hashes@, members@, idxs@, t32 as int, t32 as int) is None);
    }
    None
}

/// The table after the first `m` members of one bucket are written to the
/// slots that pair `d` gives them.
pub open spec fn spec_commit(
    idxs: Seq<Option<usize>>,
    hashes: Seq<HashValue>,
    ms: Seq<usize>,
    d: (u32, u32),
    m: int,
) -> Seq<Option<usize>>
    decreases m,
{
    if m <= 0 {
        idxs
    } else {
        spec_commit(idxs, hashes, ms, d, m - 1).update(
            spec_slot(hashes[ms[m - 1] as int], d.0, d.1, idxs.len() as int),
            Some(ms[m - 1]),
        )
    }
}

/// Greedy placement from position `pos` of the processing order onward: each
/// bucket takes the first acceptable candidate, or the whole attempt fails.
pub open spec fn spec_place(
    hashes: Seq<HashValue>,
    buckets: Seq<Seq<usize>>,
    order: Seq<usize>,
    pos: int,
    disps: Seq<(u32, u32)>,
    idxs: Seq<Option<usize>>,
) -> Option<(Seq<(u32, u32)>, Seq<Option<usize>>)>
    decreases order.len() - pos,
{
    if pos < 0 || pos > order.len() {
        None
    } else if pos == order.len() {
        Some((disps, idxs))
    } else {
        let ms = buckets[order[pos] as int];
        match spec_search(hashes, ms, idxs) {
            None => None,
            Some(d) => spec_place(
                hashes,
                buckets,
                order,
                pos + 1,
                disps.update(order[pos] as int, d),
                spec_commit(idxs, hashes, ms, d, ms.len() as int),
            ),
        }
    }
}

/// One whole attempt as a function of the hashes alone: plan the buckets,
/// order them, and place every one, starting from an all-zero displacement
/// table and an empty slot table.
pub open spec fn spec_solve(hashes: Seq<HashValue>, b: int, t: int) -> Option<
    (Seq<(u32, u32)>, Seq<Option<usize>>),
> {
    let buckets = crate::buckets::spec_plan(hashes, b);
    let order = crate::buckets::spec_order(buckets, hashes.len() as int);
    spec_place(
        hashes,
        buckets,
        order,
        0,
        Seq::new(b as nat, |j: int| (0u32, 0u32)),
        Seq::new(t as nat, |s: int| None::<usize>),
    )
}

/// One construction attempt over already-computed hashes: plan the buckets,
/// order them, and place them one by one. `None` is a bucket-level failure,
/// fully internal and recoverable by the caller's retry loop; the result is
/// exactly what `spec_solve` says for these hashes.
pub(crate) fn solve(hashes: &Vec<HashValue>, b: usize, t: usize) -> (r: Option<
    (Vec<(u32, u32)>, Vec<Option<usize>>),
>)
    requires
        b >= 1,
        t >= 1,
        t <= u32::MAX,
        hashes@.len() < usize::MAX,
    ensures
        r is Some <==> spec_solve(hashes@, b as int, t as int) is Some,
        r matches Some(placement) ==> {
            &&& Some((placement.0@, placement.1@)) == spec_solve(hashes@, b as int, t as int)
            &&& placement.0@.len() == b as int
            &&& placement.1@.len() == t as int
            &&& spec_placed(hashes@, placement.0@, placement.1@)
        },
{
    let n = hashes.len();
    let buckets = plan_buckets(hashes, b);
    let order = bucket_order(&buckets, n);
    let t32: u32 = t as u32;
    let ghost bv = Seq::new(buckets@.len(), |j: int| buckets@[j]@);
    proof {
        assert(bv =~= crate::buckets::spec_plan(hashes@, b as int));
        assert(order@ == crate::buckets::spec_order(bv, n as int));
    }

    let mut disps: Vec<(u32, u32)> = Vec::new();
    while disps.len() < b
        invariant
            disps@.len() <= b as int,
            forall|p: int| 0 <= p < disps@.len() ==> disps@[p] == (0u32, 0u32),
        decreases b - disps@.len(),
    {
        disps.push((0, 0));
    }
    let mut idxs: Vec<Option<usize>> = Vec::new();
    while idxs.len() < t
        invariant
            idxs@.len() <= t as int,
            forall|s: int| 0 <= s < idxs@.len() ==> idxs@[s] is None,
        decreases t - idxs@.len(),
    {
        idxs.push(None);
    }
    proof {
        assert(disps@ =~= Seq::new(b as nat, |j: int| (0u32, 0u32)));
        assert(idxs@ =~= Seq::new(t as nat, |s: int| None::<usize>));
    }

    let mut pos: usize = 0;
    while pos < order.len()
        invariant
            n == hashes@.len(),
            b >= 1,
            t >= 1,
            t <= u32::MAX,
            t32 == t,
            disps@.len() == b as int,
            idxs@.len() == t as int,
            pos <= order@.len(),
            buckets@.len() == b as int,
            forall|j: int, m: int|
                0 <= j < b && 0 <= m < buckets@[j]@.len() ==> (#[trigger] buckets@[j]@[m])
                    < hashes@.len() && spec_bucket(hashes@[buckets@[j]@[m] as int], b as int) == j,
            forall|i: int|
                0 <= i < hashes@.len() ==> buckets@[spec_bucket(hashes@[i], b as int)]@.contains(
                    i as usize,
                ),
            forall|p: int| 0 <= p < order@.len() ==> (#[trigger] order@[p]) < b,
            forall|p1: int, p2: int| 0 <= p1 < p2 < order@.len() ==> order@[p1] != order@[p2],
            forall|j: int| 0 <= j < b ==> #[trigger] order@.contains(j as usize),
            bv == Seq::new(buckets@.len(), |j: int| buckets@[j]@),
            bv == crate::buckets::spec_plan(hashes@, b as int),
            order@ == crate::buckets::spec_order(bv, n as int),
            spec_place(
                hashes@,
                bv,
                order@,
                0,
                Seq::new(b as nat, |j: int| (0u32, 0u32)),
                Seq::new(t as nat, |s: int| None::<usize>),
            ) == spec_place(hashes@, bv, order@, pos as int, disps@, idxs@),
            forall|i: int|
                0 <= i < hashes@.len() && spec_processed(
                    order@,
                    pos as int,
                    spec_bucket(hashes@[i], b as int) as int,
                ) ==> 0 <= #[trigger] spec_slot_in(hashes@[i], disps@, t as int) < t
                    && idxs@[spec_slot_in(hashes@[i], disps@, t as int)] == Some(i as usize),
            forall|s: int|
                0 <= s < t ==> ((#[trigger] idxs@[s]) matches Some(i) ==> i < hashes@.len()
                    && spec_processed(order@, pos as int, spec_bucket(hashes@[i as int], b as int))
                    && spec_slot_in(hashes@[i as int], disps@, t as int) == s),
        decreases order@.len() - pos,
    {
        let j = order[pos];
        let members = &buckets[j];
        proof {
            assert(members@ == bv[j as int]);
        }
        match search_bucket(hashes, members, t32, &idxs) {
            None => {
                proof {
                    assert(spec_place(hashes@, bv, order@, pos as int, disps@, idxs@) is None);
                }
                return None;
            },
            Some((d, slots)) => {
                let ghost predisps = disps@;
                let ghost preidxs = idxs@;
                disps[j] = d;
                proof {
                    // The bucket at hand was not processed before, so every
                    // already-placed entry belongs to another bucket and its
                    // slot is untouched by the displacement update.
                    assert forall|i: int|
                        0 <= i < hashes@.len() && spec_processed(
                            order@,
                            pos as int,
                            spec_bucket(hashes@[i], b as int) as int,
                        ) implies spec_slot_in(hashes@[i], disps@, t as int) == spec_slot_in(
                        hashes@[i],
                        predisps,
                        t as int,
                    ) by {
                        let jb = spec_bucket(hashes@[i], b as int);
                        if jb == j as int {
                            let q = choose|q: int|
                                0 <= q < pos && order@[q] == jb as usize;
                            assert(order@[q] != order@[pos as int]);
                            assert(false);
                        }
                        assert(disps@[jb] == predisps[jb]);
                    }
                }
                let mut m: usize = 0;
                while m < members.len()
                    invariant
                        m <= members@.len(),
                        idxs@.len() == t as int,
                        preidxs.len() == t as int,
                        t >= 1,
                        idxs@ == spec_commit(preidxs, hashes@, members@, d, m as int),
                        slots@.len() == members@.len(),
                        forall|m2: int|
                            0 <= m2 < members@.len() ==> (#[trigger] members@[m2])
                                < hashes@.len(),
                        forall|m2: int|
                            0 <= m2 < members@.len() ==> (#[trigger] slots@[m2]) < t && slots@[m2]
                                == spec_slot(
                                hashes@[members@[m2] as int],
                                d.0,
                                d.1,
                                t as int,
                            ) && preidxs[slots@[m2] as int] is None,
                        forall|m1: int, m2: int|
                            0 <= m1 < m2 < members@.len() ==> slots@[m1] != slots@[m2],
                        forall|m2: int|
                            0 <= m2 < m ==> idxs@[slots@[m2] as int] == Some(members@[m2]),
                        forall|s: int|
                            0 <= s < t && !(exists|m2: int|
                                0 <= m2 < m && slots@[m2] == s) ==> idxs@[s] == preidxs[s],
                    decreases members@.len() - m,
                {
                    idxs[slots[m]] = Some(members[m]);
                    proof {
                        assert(idxs@ == spec_commit(preidxs, hashes@, members@, d, m as int + 1));
                    }
                    m = m + 1;
                }
                proof {
                    assert(spec_place(hashes@, bv, order@, pos as int, predisps, preidxs)
                        == spec_place(hashes@, bv, order@, pos as int + 1, disps@, idxs@));
                    let dn = disps@;
                    assert forall|i: int|
                        0 <= i < hashes@.len() && spec_processed(
                            order@,
                            (pos + 1) as int,
                            spec_bucket(hashes@[i], b as int) as int,
                        ) implies 0 <= #[trigger] spec_slot_in(hashes@[i], dn, t as int) < t
                        && idxs@[spec_slot_in(hashes@[i], dn, t as int)] == Some(i as usize) by {
                        let jb = spec_bucket(hashes@[i], b as int);
                        if jb == j as int {
                            // a member of the bucket placed in this step
                            assert(buckets@[jb]@.contains(i as usize));
                            let mi = choose|mi: int|
                                0 <= mi < members@.len() && members@[mi] == i as usize;
                            assert(idxs@[slots@[mi] as int] == Some(members@[mi]));
                            assert(dn[jb] == d);
                            assert(spec_slot_in(hashes@[i], dn, t as int) == slots@[mi]);
                        } else {
                            // placed in an earlier step; still where it was
                            let q = choose|q: int|
                                0 <= q < pos + 1 && order@[q] == jb as usize;
                            assert(0 <= q < pos);
                            assert(spec_processed(order@, pos as int, jb));
                            let s = spec_slot_in(hashes@[i], predisps, t as int);
                            assert(preidxs[s] == Some(i as usize));
                            assert(spec_slot_in(hashes@[i], dn, t as int) == s);
                            assert forall|m2: int|
                                0 <= m2 < members@.len() implies slots@[m2] != s by {
                                if slots@[m2] == s {
                                    assert(preidxs[slots@[m2] as int] is None);
                                }
                            }
                            assert(idxs@[s] == preidxs[s]);
                        }
                    }
                    assert forall|s: int|
                        0 <= s < t implies ((#[trigger] idxs@[s]) matches Some(i) ==> i
                        < hashes@.len() && spec_processed(
                        order@,
                        (pos + 1) as int,
                        spec_bucket(hashes@[i as int], b as int),
                    ) && spec_slot_in(hashes@[i as int], dn, t as int) == s) by {
                        if idxs@[s] is Some {
                            let i = idxs@[s]->0;
                            if exists|m2: int| 0 <= m2 < members@.len() && slots@[m2] == s {
                                let m2 = choose|m2: int|
                                    0 <= m2 < members@.len() && slots@[m2] == s;
                                assert(idxs@[slots@[m2] as int] == Some(members@[m2]));
                                assert(i == members@[m2]);
                                let jb = spec_bucket(hashes@[i as int], b as int);
                                assert(jb == j as int);
                                assert(order@[pos as int] == j);
                                assert(spec_processed(order@, (pos + 1) as int, jb));
                                assert(dn[jb] == d);
                                assert(spec_slot_in(hashes@[i as int], dn, t as int)
                                    == slots@[m2]);
                            } else {
                                assert(idxs@[s] == preidxs[s]);
                                assert(preidxs[s] == Some(i));
                                let jb = spec_bucket(hashes@[i as int], b as int);
                                assert(spec_processed(order@, pos as int, jb));
                                let q = choose|q: int| 0 <= q < pos && order@[q] == jb as usize;
                                assert(0 <= q < pos + 1);
                                assert(spec_processed(order@, (pos + 1) as int, jb));
                                if jb == j as int {
                                    let q2 = choose|q2: int|
                                        0 <= q2 < pos && order@[q2] == jb as usize;
                                    assert(order@[q2] != order@[pos as int]);
                                    assert(false);
                                }
                                assert(dn[jb] == predisps[jb]);
                                assert(spec_slot_in(hashes@[i as int], dn, t as int)
                                    == spec_slot_in(hashes@[i as int], predisps, t as int));
                            }
                        }
                    }
                }
                pos = pos + 1;
            },
        }
    }
    proof {
        assert forall|i: int|
            0 <= i < hashes@.len() implies spec_processed(
            order@,
            order@.len() as int,
            spec_bucket(hashes@[i], b as int) as int,
        ) by {
            let jb = spec_bucket(hashes@[i], b as int);
            assert(order@.contains(jb as usize));
            let q = choose|q: int| 0 <= q < order@.len() && order@[q] == jb as usize;
        }
        assert(spec_place(hashes@, bv, order@, order@.len() as int, disps@, idxs@) == Some(
            (disps@, idxs@),
        ));
        assert(spec_solve(hashes@, b as int, t as int) == Some((disps@, idxs@)));
    }
    Some((disps, idxs))
}

} // verus!
