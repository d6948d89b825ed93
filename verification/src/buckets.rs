//! First-level bucketing: group entries by hash residue, stably, and order
//! the buckets for the solver — largest first, ties by ascending id — so
//! that crowded buckets are placed while the table is still mostly free.

use vstd::prelude::*;

use crate::{spec_bucket, HashValue};

verus! {

broadcast use vstd::std_specs::vec::axiom_spec_len;

/// The members of bucket `j` among the first `n` entries: the indices with
/// that bucket residue, in increasing order.
pub open spec fn spec_members(hashes: Seq<HashValue>, b: int, j: int, n: int) -> Seq<usize>
    decreases n,
{
    if n <= 0 {
        Seq::empty()
    } else if spec_bucket(hashes[n - 1], b) == j {
        spec_members(hashes, b, j, n - 1).push((n - 1) as usize)
    } else {
        spec_members(hashes, b, j, n - 1)
    }
}

/// The bucket plan: for each bucket id, its members.
pub open spec fn spec_plan(hashes: Seq<HashValue>, b: int) -> Seq<Seq<usize>> {
    Seq::new(b as nat, |j: int| spec_members(hashes, b, j, hashes.len() as int))
}

/// The bucket ids of size `s` among the first `j_hi` buckets, ascending.
pub open spec fn spec_ids_with_size(buckets: Seq<Seq<usize>>, s: int, j_hi: int) -> Seq<usize>
    decreases j_hi,
{
    if j_hi <= 0 {
        Seq::empty()
    } else if buckets[j_hi - 1].len() == s {
        spec_ids_with_size(buckets, s, j_hi - 1).push((j_hi - 1) as usize)
    } else {
        spec_ids_with_size(buckets, s, j_hi - 1)
    }
}

/// The bucket ids of size `top`, then `top - 1`, and so on down to size `s`,
/// each size group ascending.
pub open spec fn spec_order_down(buckets: Seq<Seq<usize>>, top: int, s: int) -> Seq<usize>
    decreases top - s,
{
    if s > top || s < 0 {
        Seq::empty()
    } else if s == top {
        spec_ids_with_size(buckets, s, buckets.len() as int)
    } else {
        spec_order_down(buckets, top, s + 1) + spec_ids_with_size(buckets, s, buckets.len() as int)
    }
}

/// The processing order of the solver: every bucket id once, by descending
/// size, ties broken by ascending id. `top` is any bound on bucket sizes.
pub open spec fn spec_order(buckets: Seq<Seq<usize>>, top: int) -> Seq<usize> {
    spec_order_down(buckets, top, 0)
}

/// Group entry indices by `spec_bucket`, keeping relative order inside each
/// bucket.
pub(crate) fn plan_buckets(hashes: &Vec<HashValue>, b: usize) -> (buckets: Vec<Vec<usize>>)
    requires
        b >= 1,
    ensures
        buckets@.len() == b as int,
        forall|j: int|
            0 <= j < b ==> buckets@[j]@ == spec_members(
                hashes@,
                b as int,
                j,
                hashes@.len() as int,
            ),
        forall|j: int, m: int|
            0 <= j < b && 0 <= m < buckets@[j]@.len() ==> (#[trigger] buckets@[j]@[m]) < hashes@.len() && spec_bucket(hashes@[buckets@[j]@[m] as int], b as int) == j,
        forall|j: int, m1: int, m2: int|
            0 <= j < b && 0 <= m1 < m2 < buckets@[j]@.len() ==> buckets@[j]@[m1] < buckets@[j]@[m2],
        forall|i: int|
            0 <= i < hashes@.len() ==> buckets@[spec_bucket(hashes@[i], b as int)]@.contains(
                i as usize,
            ),
        forall|j: int| 0 <= j < b ==> (#[trigger] buckets@[j]@.len()) <= hashes@.len(),
{
    let n = hashes.len();
    let mut buckets: Vec<Vec<usize>> = Vec::new();
    for j in 0..b
        invariant
            n == hashes@.len(),
            b >= 1,
            buckets@.len() == j as int,
            forall|j2: int|
                0 <= j2 < j ==> buckets@[j2]@ == spec_members(
                    hashes@,
                    b as int,
                    j2,
                    hashes@.len() as int,
                ),
            forall|j2: int, m: int|
                0 <= j2 < j && 0 <= m < buckets@[j2]@.len() ==> (#[trigger] buckets@[j2]@[m]) < hashes@.len() && spec_bucket(hashes@[buckets@[j2]@[m] as int], b as int)
                    == j2,
            forall|j2: int, m1: int, m2: int|
                0 <= j2 < j && 0 <= m1 < m2 < buckets@[j2]@.len() ==> buckets@[j2]@[m1]
                    < buckets@[j2]@[m2],
            forall|i: int|
                0 <= i < hashes@.len() && spec_bucket(hashes@[i], b as int) < j as int
                    ==> buckets@[spec_bucket(hashes@[i], b as int)]@.contains(i as usize),
            forall|j2: int| 0 <= j2 < j ==> (#[trigger] buckets@[j2]@.len()) <= hashes@.len(),
    {
        let mut bucket: Vec<usize> = Vec::new();
        for i in 0..n
            invariant
                n == hashes@.len(),
                b >= 1,
                j < b,
                bucket@.len() <= i as int,
                bucket@ == spec_members(hashes@, b as int, j as int, i as int),
                forall|m: int|
                    0 <= m < bucket@.len() ==> (#[trigger] bucket@[m]) < i
                        && spec_bucket(hashes@[bucket@[m] as int], b as int) == j as int,
                forall|m1: int, m2: int|
                    0 <= m1 < m2 < bucket@.len() ==> bucket@[m1] < bucket@[m2],
                forall|i2: int|
                    0 <= i2 < i && spec_bucket(hashes@[i2], b as int) == j as int
                        ==> bucket@.contains(i2 as usize),
        {
            if (hashes[i].g as usize) % b == j {
                let ghost pre = bucket@;
                bucket.push(i);
                proof {
                    assert(bucket@[pre.len() as int] == i);
                    assert forall|i2: int|
                        0 <= i2 < i + 1 && spec_bucket(hashes@[i2], b as int) == j as int
                            implies bucket@.contains(i2 as usize) by {
                        if i2 < i as int {
                            let m = choose|m: int| 0 <= m < pre.len() && pre[m] == i2 as usize;
                            assert(bucket@[m] == i2 as usize);
                        } else {
                            assert(bucket@[pre.len() as int] == i2 as usize);
                        }
                    }
                }
            }
        }
        let ghost prebs = buckets@;
        buckets.push(bucket);
        proof {
            assert forall|i2: int|
                0 <= i2 < hashes@.len() && spec_bucket(hashes@[i2], b as int) < j + 1
                    implies buckets@[spec_bucket(hashes@[i2], b as int)]@.contains(i2 as usize) by {
                let j2 = spec_bucket(hashes@[i2], b as int);
                if j2 < j as int {
                    assert(prebs[j2]@.contains(i2 as usize));
                    assert(buckets@[j2] == prebs[j2]);
                } else {
                    assert(buckets@[j2] == bucket);
                }
            }
        }
    }
    buckets
}

/// Order the bucket ids for the solver: by descending size, ties broken by
/// ascending id. Every bucket appears, and none appears twice.
///
/// `n` bounds every bucket's size (any number of entries at least as large
/// as their total will do).
pub(crate) fn bucket_order(buckets: &Vec<Vec<usize>>, n: usize) -> (order: Vec<usize>)
    requires
        n < usize::MAX,
        forall|j: int| 0 <= j < buckets@.len() ==> (#[trigger] buckets@[j]@.len()) <= n as int,
    ensures
        order@ == spec_order(Seq::new(buckets@.len(), |j: int| buckets@[j]@), n as int),
        forall|p: int| 0 <= p < order@.len() ==> (#[trigger] order@[p]) < buckets@.len(),
        forall|p1: int, p2: int| 0 <= p1 < p2 < order@.len() ==> order@[p1] != order@[p2],
        forall|j: int| 0 <= j < buckets@.len() ==> #[trigger] order@.contains(j as usize),
        forall|p1: int, p2: int|
            0 <= p1 < p2 < order@.len() ==> buckets@[order@[p1] as int]@.len()
                > buckets@[order@[p2] as int]@.len() || (buckets@[order@[p1] as int]@.len()
                == buckets@[order@[p2] as int]@.len() && order@[p1] < order@[p2]),
{
    let b = buckets.len();
    let ghost bv = Seq::new(buckets@.len(), |j: int| buckets@[j]@);
    let mut order: Vec<usize> = Vec::new();
    let mut round: usize = 0;
    while round <= n
        invariant
            b == buckets@.len(),
            bv == Seq::new(buckets@.len(), |j: int| buckets@[j]@),
            order@ == spec_order_down(bv, n as int, n as int - round as int + 1),
            n < usize::MAX,
            round <= n + 1,
            forall|j: int| 0 <= j < buckets@.len() ==> (#[trigger] buckets@[j]@.len()) <= n as int,
            forall|j: int|
                0 <= j < b ==> (order@.contains(j as usize) <==> buckets@[j]@.len() > n as int
                    - round as int),
            forall|p: int| 0 <= p < order@.len() ==> (#[trigger] order@[p]) < b,
            forall|p1: int, p2: int| 0 <= p1 < p2 < order@.len() ==> order@[p1] != order@[p2],
            forall|p1: int, p2: int|
                0 <= p1 < p2 < order@.len() ==> buckets@[order@[p1] as int]@.len()
                    > buckets@[order@[p2] as int]@.len() || (buckets@[order@[p1] as int]@.len()
                    == buckets@[order@[p2] as int]@.len() && order@[p1] < order@[p2]),
        decreases n + 1 - round,
    {
        let s = n - round;
        for j in 0..b
            invariant
                b == buckets@.len(),
                bv == Seq::new(buckets@.len(), |j: int| buckets@[j]@),
                order@ == spec_order_down(bv, n as int, s as int + 1) + spec_ids_with_size(
                    bv,
                    s as int,
                    j as int,
                ),
                round <= n,
                s == n - round,
                forall|j2: int|
                    0 <= j2 < b ==> (order@.contains(j2 as usize) <==> (buckets@[j2]@.len()
                        > s as int || (buckets@[j2]@.len() == s as int && j2 < j as int))),
                forall|p: int| 0 <= p < order@.len() ==> (#[trigger] order@[p]) < b,
                forall|p1: int, p2: int| 0 <= p1 < p2 < order@.len() ==> order@[p1] != order@[p2],
                forall|p1: int, p2: int|
                    0 <= p1 < p2 < order@.len() ==> buckets@[order@[p1] as int]@.len()
                        > buckets@[order@[p2] as int]@.len() || (buckets@[order@[p1] as int]@.len()
                        == buckets@[order@[p2] as int]@.len() && order@[p1] < order@[p2]),
        {
            if buckets[j].len() == s {
                let ghost pre = order@;
                proof {
                    assert(!pre.contains(j as usize));
                }
                order.push(j);
                proof {
                    assert(bv[j as int].len() == s as int);
                    assert(spec_ids_with_size(bv, s as int, j + 1) == spec_ids_with_size(
                        bv,
                        s as int,
                        j as int,
                    ).push(j));
                    assert(order@ =~= spec_order_down(bv, n as int, s as int + 1)
                        + spec_ids_with_size(bv, s as int, j + 1));
                    assert(order@[pre.len() as int] == j);
                    assert forall|j2: int|
                        0 <= j2 < b implies (order@.contains(j2 as usize) <==> (buckets@[j2]@.len()
                            > s as int || (buckets@[j2]@.len() == s as int && j2 < j + 1))) by {
                        if order@.contains(j2 as usize) {
                            let p = choose|p: int|
                                0 <= p < order@.len() && order@[p] == j2 as usize;
                            if p < pre.len() {
                                assert(pre[p] == j2 as usize);
                                assert(pre.contains(j2 as usize));
                            } else {
                                assert(j2 == j as int);
                            }
                        }
                        if buckets@[j2]@.len() > s as int || (buckets@[j2]@.len() == s as int && j2
                            < j + 1) {
                            if j2 == j as int {
                                assert(order@[pre.len() as int] == j2 as usize);
                            } else {
                                assert(pre.contains(j2 as usize));
                                let p = choose|p: int| 0 <= p < pre.len() && pre[p] == j2 as usize;
                                assert(order@[p] == j2 as usize);
                            }
                        }
                    }
                    assert forall|p1: int, p2: int|
                        0 <= p1 < p2 < order@.len() implies buckets@[order@[p1] as int]@.len()
                        > buckets@[order@[p2] as int]@.len() || (buckets@[order@[p1] as int]@.len()
                        == buckets@[order@[p2] as int]@.len() && order@[p1] < order@[p2]) by {
                        if p2 == pre.len() as int {
                            let e = order@[p1] as int;
                            assert(pre[p1] == order@[p1]);
                            assert(pre.contains(order@[p1]));
                            assert(buckets@[e]@.len() > s as int || (buckets@[e]@.len() == s as int
                                && e < j as int));
                        }
                    }
                }
            }
        }
        proof {
            assert(bv.len() == b as int);
            if s == n {
                assert(order@ =~= spec_order_down(bv, n as int, s as int));
            } else {
                assert(spec_order_down(bv, n as int, s as int) == spec_order_down(
                    bv,
                    n as int,
                    s as int + 1,
                ) + spec_ids_with_size(bv, s as int, bv.len() as int));
            }
        }
        round += 1;
        proof {
            assert forall|j2: int|
                0 <= j2 < b implies (order@.contains(j2 as usize) <==> buckets@[j2]@.len()
                    > n as int - round as int) by {}
        }
    }
    proof {
        assert forall|j: int| 0 <= j < buckets@.len() implies #[trigger] order@.contains(j as usize) by {
            assert(buckets@[j]@.len() > n as int - round as int);
        }
    }
    order
}

} // verus!
