//! What one sort leaves in the buffers: the histogram after counting, its
//! inclusive running sum after the scans and propagations, and a grouping
//! permutation in the sorting-id buffer after the scatter.
use crate::hierarchy::{
    lemma_groups_fit, lemma_propagate_step, lemma_scan_step, lemma_scans_done, propagated,
    scanned,
};
use crate::kernels::{
    count_spec, invocations, is_slot, lemma_scatter_in_index_order, lemma_wrap_small,
    occurrences, scatter, scatter_in, wrap32,
};
use crate::levels::{div_ceil, lemma_scan_levels_bounds, level_stride, level_workgroups};
use crate::module::{
    propagate_commands, run_spec, scan_commands, step_spec, Command,
    GpuCountingSortModule,
};
use vstd::prelude::*;

verus! {

/// Number of values in the buckets below `x`.
pub open spec fn bucket_prefix(values: Seq<u32>, x: int) -> int
    decreases x,
{
    if x <= 0 {
        0
    } else {
        bucket_prefix(values, x - 1) + occurrences(values, x - 1)
    }
}

/// Every value names one of the first `buckets` buckets.
pub open spec fn keys_below(values: Seq<u32>, buckets: int) -> bool {
    forall|i: int| 0 <= i < values.len() ==> #[trigger] values[i] < buckets
}

/// Where the scatter puts the index of value `i`: below the end of its
/// bucket by the number of values of that bucket up to and including `i`.
pub open spec fn placement(values: Seq<u32>, i: int) -> int {
    bucket_prefix(values, values[i] + 1) - occurrences(values.take(i + 1), values[i] as int)
}

pub proof fn lemma_prefix_monotone(values: Seq<u32>, a: int, b: int)
    requires
        a <= b,
    ensures
        bucket_prefix(values, a) <= bucket_prefix(values, b),
    decreases b - a,
{
    if a < b {
        lemma_prefix_monotone(values, a, b - 1);
    }
}

proof fn lemma_occurrences_of_push(s: Seq<u32>, v: u32, b: int)
    ensures
        occurrences(s.push(v), b) == occurrences(s, b) + if v == b {
            1nat
        } else {
            0nat
        },
{
    assert(s.push(v).drop_last() =~= s);
}

proof fn lemma_prefix_of_push(s: Seq<u32>, v: u32, x: int)
    ensures
        bucket_prefix(s.push(v), x) == bucket_prefix(s, x) + if v < x {
            1int
        } else {
            0int
        },
    decreases x,
{
    if x > 0 {
        lemma_prefix_of_push(s, v, x - 1);
        lemma_occurrences_of_push(s, v, x - 1);
    }
}

proof fn lemma_prefix_of_empty(values: Seq<u32>, x: int)
    requires
        values.len() == 0,
    ensures
        bucket_prefix(values, x) == 0,
    decreases x,
{
    if x > 0 {
        lemma_prefix_of_empty(values, x - 1);
    }
}

/// When every value has a bucket, the buckets hold all of them.
pub proof fn lemma_prefix_total(values: Seq<u32>, buckets: int)
    requires
        keys_below(values, buckets),
    ensures
        bucket_prefix(values, buckets) == values.len(),
    decreases values.len(),
{
    if values.len() == 0 {
        lemma_prefix_of_empty(values, buckets);
    } else {
        let s = values.drop_last();
        assert(values[values.len() - 1] < buckets);
        assert(keys_below(s, buckets)) by {
            assert forall|i: int| 0 <= i < s.len() implies #[trigger] s[i] < buckets by {
                assert(s[i] == values[i]);
            }
        }
        lemma_prefix_total(s, buckets);
        assert(s.push(values.last()) =~= values);
        lemma_prefix_of_push(s, values.last(), buckets);
    }
}

/// Counting over a longer prefix never counts fewer.
pub proof fn lemma_occurrences_grow(values: Seq<u32>, m: int, n: int, b: int)
    requires
        0 <= m <= n <= values.len(),
    ensures
        occurrences(values.take(m), b) <= occurrences(values.take(n), b),
    decreases n - m,
{
    if m < n {
        lemma_occurrences_grow(values, m, n - 1, b);
        assert(values.take(n).drop_last() =~= values.take(n - 1));
    }
}

/// Each count from one up to a bucket's total is reached at some value of
/// that bucket.
pub proof fn lemma_occurrence_reached(values: Seq<u32>, b: int, j: int, n: int)
    requires
        0 <= n <= values.len(),
        1 <= j <= occurrences(values.take(n), b),
    ensures
        exists|i: int|
            0 <= i < n && values[i] == b && #[trigger] occurrences(values.take(i + 1), b) == j,
    decreases n,
{
    assert(values.take(n).drop_last() =~= values.take(n - 1));
    if occurrences(values.take(n - 1), b) >= j {
        lemma_occurrence_reached(values, b, j, n - 1);
        let i = choose|i: int|
            0 <= i < n - 1 && values[i] == b && #[trigger] occurrences(values.take(i + 1), b)
                == j;
        assert(0 <= i < n && values[i] == b && occurrences(values.take(i + 1), b) == j);
    } else {
        assert(values.take(n).last() == values[n - 1]);
        assert(0 <= n - 1 < n && values[n - 1] == b && occurrences(values.take((n - 1) + 1), b)
            == j);
    }
}

/// Each position below the total lies in the range of some bucket.
pub proof fn lemma_bucket_of_position(values: Seq<u32>, k: int, x: int)
    requires
        0 <= k < bucket_prefix(values, x),
    ensures
        exists|b: int|
            0 <= b < x && bucket_prefix(values, b) <= k < #[trigger] bucket_prefix(values, b + 1),
    decreases x,
{
    if k >= bucket_prefix(values, x - 1) {
        assert(0 <= x - 1 < x && bucket_prefix(values, x - 1) <= k < bucket_prefix(
            values,
            (x - 1) + 1,
        ));
    } else {
        lemma_bucket_of_position(values, k, x - 1);
        let b = choose|b: int|
            0 <= b < x - 1 && bucket_prefix(values, b) <= k < #[trigger] bucket_prefix(
                values,
                b + 1,
            );
        assert(0 <= b < x && bucket_prefix(values, b) <= k < bucket_prefix(values, b + 1));
    }
}

/// A value's placement lies in its bucket's range.
pub proof fn lemma_placement_in_bucket(values: Seq<u32>, i: int)
    requires
        0 <= i < values.len(),
    ensures
        bucket_prefix(values, values[i] as int) <= placement(values, i) < bucket_prefix(
            values,
            values[i] + 1,
        ),
{
    let b = values[i] as int;
    lemma_occurrences_grow(values, i, i + 1, b);
    lemma_occurrences_grow(values, i + 1, values.len() as int, b);
    assert(values.take(values.len() as int) =~= values);
    assert(values.take(i + 1).drop_last() =~= values.take(i));
    assert(values.take(i + 1).last() == values[i]);
}

/// Two values never share a placement.
pub proof fn lemma_placement_injective(values: Seq<u32>, i: int, n: int)
    requires
        0 <= i < n < values.len(),
    ensures
        placement(values, i) != placement(values, n),
{
    let bi = values[i] as int;
    let bn = values[n] as int;
    lemma_placement_in_bucket(values, i);
    lemma_placement_in_bucket(values, n);
    if bi == bn {
        lemma_occurrences_grow(values, i + 1, n, bn);
        assert(values.take(n + 1).drop_last() =~= values.take(n));
        assert(values.take(n + 1).last() == values[n]);
    } else if bi < bn {
        lemma_prefix_monotone(values, bi + 1, bn);
    } else {
        lemma_prefix_monotone(values, bn + 1, bi);
    }
}

/// The keys in the order a scatter takes them.
pub open spec fn keys_in_order(values: Seq<u32>, order: Seq<u32>) -> Seq<u32> {
    Seq::new(order.len(), |t: int| values[order[t] as int])
}

/// What a scatter in `order` leaves after its first `n` steps, starting
/// from the inclusive running sum of the histogram: each counter is its
/// bucket's end less the values placed so far, and the index taken at each
/// step stands at that step's placement.
pub open spec fn scatter_state(
    values: Seq<u32>,
    order: Seq<u32>,
    buckets: int,
    n: int,
    c: Seq<u32>,
    d: Seq<u32>,
) -> bool {
    let r = keys_in_order(values, order);
    &&& c.len() == buckets
    &&& d.len() == values.len()
    &&& forall|b: int|
        0 <= b < buckets ==> #[trigger] c[b] == bucket_prefix(r, b + 1) - occurrences(
            r.take(n),
            b,
        )
    &&& forall|t: int| 0 <= t < n ==> d[#[trigger] placement(r, t)] == order[t]
}

pub proof fn lemma_scatter_state(
    values: Seq<u32>,
    count: Seq<u32>,
    ids: Seq<u32>,
    order: Seq<u32>,
    n: nat,
)
    requires
        n <= values.len() <= u32::MAX,
        order.len() == values.len(),
        forall|t: int| 0 <= t < order.len() ==> #[trigger] order[t] < values.len(),
        keys_below(values, count.len() as int),
        ids.len() == values.len(),
        forall|b: int|
            0 <= b < count.len() ==> #[trigger] count[b] == bucket_prefix(
                keys_in_order(values, order),
                b + 1,
            ),
    ensures
        ({
            let (c, d) = scatter_in(values, count, ids, order, n);
            scatter_state(values, order, count.len() as int, n as int, c, d)
        }),
    decreases n,
{
    let buckets = count.len() as int;
    let r = keys_in_order(values, order);
    assert(keys_below(r, buckets)) by {
        assert forall|t: int| 0 <= t < r.len() implies #[trigger] r[t] < buckets by {
            assert(order[t] < values.len());
        }
    }
    if n == 0 {
        assert forall|b: int| 0 <= b < buckets implies #[trigger] count[b] == bucket_prefix(
            r,
            b + 1,
        ) - occurrences(r.take(0), b) by {
            assert(r.take(0).len() == 0);
        }
    } else {
        let m = (n - 1) as int;
        lemma_scatter_state(values, count, ids, order, (n - 1) as nat);
        let (c, d) = scatter_in(values, count, ids, order, (n - 1) as nat);
        let b = r[m] as int;
        assert(b == values[order[m] as int]);
        assert(b < buckets);
        lemma_placement_in_bucket(r, m);
        lemma_prefix_monotone(r, b + 1, buckets);
        lemma_prefix_monotone(r, 0, b);
        lemma_prefix_total(r, buckets);
        assert(r.take(m + 1).drop_last() =~= r.take(m));
        assert(r.take(m + 1).last() == r[m]);
        let slot = placement(r, m);
        assert(c[b] - 1 == slot);
        lemma_wrap_small(slot);
        assert(wrap32(c[b] - 1) == slot);
        let (c2, d2) = scatter_in(values, count, ids, order, n);
        assert(c2 == c.update(b, slot as u32));
        assert(slot < d.len());
        assert(d2 == d.update(slot, order[m]));
        assert forall|a: int| 0 <= a < buckets implies #[trigger] c2[a] == bucket_prefix(
            r,
            a + 1,
        ) - occurrences(r.take(n as int), a) by {
            assert(r.take(n as int).drop_last() =~= r.take(m));
        }
        assert forall|t: int| 0 <= t < n implies d2[#[trigger] placement(r, t)] == order[t] by {
            if t < m {
                lemma_placement_injective(r, t, m);
                lemma_placement_in_bucket(r, t);
                assert(r[t] < buckets);
                lemma_prefix_monotone(r, 0, r[t] as int);
                lemma_prefix_monotone(r, r[t] + 1, buckets);
                assert(d[placement(r, t)] == order[t]);
            } else {
                assert(t == m);
                assert(d2[slot] == order[m]);
            }
        }
    }
}

proof fn lemma_occurrences_remove(s: Seq<u32>, j: int, b: int)
    requires
        0 <= j < s.len(),
    ensures
        occurrences(s, b) == occurrences(s.remove(j), b) + if s[j] == b {
            1nat
        } else {
            0nat
        },
    decreases s.len(),
{
    if j == s.len() - 1 {
        assert(s.remove(j) =~= s.drop_last());
    } else {
        lemma_occurrences_remove(s.drop_last(), j, b);
        assert(s.remove(j).drop_last() =~= s.drop_last().remove(j));
        assert(s.remove(j).last() == s.last());
    }
}

/// Taking the last index out of an index permutation leaves one of the
/// indices below it.
proof fn lemma_permutation_without_last(order: Seq<u32>, n: int, j: int)
    requires
        n >= 1,
        is_index_permutation(order, n),
        0 <= j < n,
        order[j] == n - 1,
    ensures
        is_index_permutation(order.remove(j), n - 1),
{
    let o = order.remove(j);
    assert forall|k: int| 0 <= k < n - 1 implies #[trigger] o[k] < n - 1 by {
        let k0 = if k < j { k } else { k + 1 };
        assert(o[k] == order[k0]);
        assert(order[k0] != order[j]);
    }
    assert forall|k1: int, k2: int|
        0 <= k1 < n - 1 && 0 <= k2 < n - 1 && k1 != k2 implies #[trigger] o[k1] != #[trigger] o[k2] by {
        let a = if k1 < j { k1 } else { k1 + 1 };
        let b = if k2 < j { k2 } else { k2 + 1 };
        assert(o[k1] == order[a] && o[k2] == order[b]);
    }
    assert forall|i: u32| i < n - 1 implies #[trigger] o.contains(i) by {
        assert(order.contains(i));
        let t = choose|t: int| 0 <= t < order.len() && order[t] == i;
        assert(t != j);
        let t2 = if t < j { t } else { t - 1 };
        assert(o[t2] == i);
    }
}

/// Taking the values in the order of an index permutation keeps the number
/// of each key.
pub proof fn lemma_rearranged_occurrences(values: Seq<u32>, order: Seq<u32>, b: int)
    requires
        values.len() <= u32::MAX,
        is_index_permutation(order, values.len() as int),
    ensures
        occurrences(keys_in_order(values, order), b) == occurrences(values, b),
    decreases values.len(),
{
    let n = values.len() as int;
    let r = keys_in_order(values, order);
    if n > 0 {
        assert(order.contains((n - 1) as u32));
        let j = choose|j: int| 0 <= j < order.len() && order[j] == (n - 1) as u32;
        lemma_permutation_without_last(order, n, j);
        let o = order.remove(j);
        let v = values.drop_last();
        lemma_rearranged_occurrences(v, o, b);
        assert(keys_in_order(v, o) =~= r.remove(j)) by {
            assert forall|t: int| 0 <= t < n - 1 implies #[trigger] keys_in_order(v, o)[t]
                == r.remove(j)[t] by {
                let t0 = if t < j { t } else { t + 1 };
                assert(o[t] == order[t0]);
                assert(o[t] < n - 1);
            }
        }
        lemma_occurrences_remove(r, j, b);
        assert(r[j] == values[n - 1]);
    }
}

proof fn lemma_rearranged_prefix(values: Seq<u32>, order: Seq<u32>, x: int)
    requires
        values.len() <= u32::MAX,
        is_index_permutation(order, values.len() as int),
    ensures
        bucket_prefix(keys_in_order(values, order), x) == bucket_prefix(values, x),
    decreases x,
{
    if x > 0 {
        lemma_rearranged_prefix(values, order, x - 1);
        lemma_rearranged_occurrences(values, order, x - 1);
    }
}

/// `ids` holds each index below `n` exactly once, and nothing else.
pub open spec fn is_index_permutation(ids: Seq<u32>, n: int) -> bool {
    &&& ids.len() == n
    &&& forall|k: int| 0 <= k < n ==> #[trigger] ids[k] < n
    &&& forall|k1: int, k2: int|
        0 <= k1 < n && 0 <= k2 < n && k1 != k2 ==> #[trigger] ids[k1] != #[trigger] ids[k2]
    &&& forall|i: u32| i < n ==> #[trigger] ids.contains(i)
}

/// Read through `ids`, the values never decrease.
pub open spec fn groups_by_key(values: Seq<u32>, ids: Seq<u32>) -> bool {
    forall|k1: int, k2: int|
        0 <= k1 <= k2 < ids.len() ==> #[trigger] values[ids[k1] as int] <= #[trigger] values[ids[k2] as int]
}

/// Whether reading `values` through `ids` never goes down (and every id
/// names a value).
pub fn is_sorted_by_id(values: &Vec<u32>, ids: &Vec<u32>) -> (r: bool)
    ensures
        r == ((forall|k: int| 0 <= k < ids@.len() ==> #[trigger] ids@[k] < values@.len())
            && groups_by_key(values@, ids@)),
{
    let mut i: usize = 0;
    while i < ids.len()
        invariant
            i <= ids@.len(),
            forall|k: int| 0 <= k < i ==> #[trigger] ids@[k] < values@.len(),
            forall|k1: int, k2: int|
                0 <= k1 <= k2 < i ==> #[trigger] values@[ids@[k1] as int] <= #[trigger] values@[ids@[k2] as int],
        decreases ids@.len() - i,
    {
        if ids[i] as usize >= values.len() {
            return false;
        }
        if i > 0 && values[ids[i] as usize] < values[ids[i - 1] as usize] {
            assert(!groups_by_key(values@, ids@)) by {
                let (a, b) = ((i - 1) as int, i as int);
                assert(values@[ids@[a] as int] > values@[ids@[b] as int]);
            }
            return false;
        }
        proof {
            assert forall|k1: int, k2: int|
                0 <= k1 <= k2 < i + 1 implies #[trigger] values@[ids@[k1] as int] <= #[trigger] values@[ids@[k2] as int] by {
                if k2 == i && k1 < i {
                    assert(values@[ids@[k1] as int] <= values@[ids@[i - 1] as int]);
                }
            }
        }
        i = i + 1;
    }
    true
}

/// The start of each bucket: the number of values in the buckets before it.
pub open spec fn bucket_starts(values: Seq<u32>, buckets: nat) -> Seq<u32> {
    Seq::new(buckets, |b: int| bucket_prefix(values, b) as u32)
}

/// The end of each bucket: the inclusive running sum of the histogram.
pub open spec fn bucket_ends(values: Seq<u32>, buckets: nat) -> Seq<u32> {
    Seq::new(buckets, |b: int| bucket_prefix(values, b + 1) as u32)
}

/// Every position below the number of values is some value's placement.
pub proof fn lemma_every_position_placed(values: Seq<u32>, buckets: int, k: int)
    requires
        keys_below(values, buckets),
        0 <= k < values.len(),
    ensures
        exists|i: int| 0 <= i < values.len() && #[trigger] placement(values, i) == k,
{
    let n = values.len() as int;
    lemma_prefix_total(values, buckets);
    lemma_bucket_of_position(values, k, buckets);
    let b = choose|b: int|
        0 <= b < buckets && bucket_prefix(values, b) <= k < #[trigger] bucket_prefix(values, b + 1);
    let j = bucket_prefix(values, b + 1) - k;
    assert(values.take(n) =~= values);
    lemma_occurrence_reached(values, b, j, n);
    let i = choose|i: int|
        0 <= i < n && values[i] == b && #[trigger] occurrences(values.take(i + 1), b) == j;
    assert(placement(values, i) == k);
}

/// Whatever order the scatter takes the values in, run over all of them
/// from the buckets' ends it leaves each counter at its bucket's start and
/// the sorting ids a permutation that groups the values by bucket.
pub proof fn lemma_scatter_any_order(
    values: Seq<u32>,
    count: Seq<u32>,
    ids: Seq<u32>,
    order: Seq<u32>,
)
    requires
        values.len() <= u32::MAX,
        keys_below(values, count.len() as int),
        ids.len() == values.len(),
        count == bucket_ends(values, count.len()),
        is_index_permutation(order, values.len() as int),
    ensures
        ({
            let (c, d) = scatter_in(values, count, ids, order, values.len());
            &&& c == bucket_starts(values, count.len())
            &&& is_index_permutation(d, values.len() as int)
            &&& groups_by_key(values, d)
        }),
{
    let n = values.len() as int;
    let buckets = count.len() as int;
    let r = keys_in_order(values, order);
    assert(keys_below(r, buckets)) by {
        assert forall|t: int| 0 <= t < r.len() implies #[trigger] r[t] < buckets by {
            assert(order[t] < n);
        }
    }
    assert forall|x: int| #[trigger] bucket_prefix(r, x) == bucket_prefix(values, x) by {
        lemma_rearranged_prefix(values, order, x);
    }
    lemma_prefix_total(values, buckets);
    assert forall|b: int| 0 <= b < buckets implies #[trigger] count[b] == bucket_prefix(
        r,
        b + 1,
    ) by {
        lemma_prefix_monotone(values, b + 1, buckets);
        lemma_prefix_monotone(values, 0, b + 1);
        lemma_wrap_small(bucket_prefix(values, b + 1));
    }
    lemma_scatter_state(values, count, ids, order, values.len());
    let (c, d) = scatter_in(values, count, ids, order, values.len());
    assert(r.take(n) =~= r);
    assert forall|b: int| 0 <= b < buckets implies #[trigger] c[b] == bucket_starts(
        values,
        buckets as nat,
    )[b] by {
        lemma_rearranged_prefix(values, order, b);
        lemma_rearranged_prefix(values, order, b + 1);
        lemma_prefix_monotone(values, b, buckets);
        lemma_prefix_monotone(values, 0, b);
    }
    assert(c =~= bucket_starts(values, buckets as nat));
    assert forall|k: int| 0 <= k < n implies #[trigger] d[k] < n by {
        lemma_every_position_placed(r, buckets, k);
        let t = choose|t: int| 0 <= t < n && #[trigger] placement(r, t) == k;
    }
    assert forall|k1: int, k2: int|
        0 <= k1 < n && 0 <= k2 < n && k1 != k2 implies #[trigger] d[k1] != #[trigger] d[k2] by {
        lemma_every_position_placed(r, buckets, k1);
        lemma_every_position_placed(r, buckets, k2);
        let t1 = choose|t: int| 0 <= t < n && #[trigger] placement(r, t) == k1;
        let t2 = choose|t: int| 0 <= t < n && #[trigger] placement(r, t) == k2;
    }
    assert forall|i: u32| i < n implies #[trigger] d.contains(i) by {
        assert(order.contains(i));
        let t = choose|t: int| 0 <= t < order.len() && order[t] == i;
        lemma_placement_in_bucket(r, t);
        lemma_prefix_monotone(r, 0, r[t] as int);
        lemma_prefix_monotone(r, r[t] + 1, buckets);
        assert(d[placement(r, t)] == i);
    }
    assert forall|k1: int, k2: int| 0 <= k1 <= k2 < d.len() implies #[trigger] values[d[k1] as int]
        <= #[trigger] values[d[k2] as int] by {
        lemma_every_position_placed(r, buckets, k1);
        lemma_every_position_placed(r, buckets, k2);
        let t1 = choose|t: int| 0 <= t < n && #[trigger] placement(r, t) == k1;
        let t2 = choose|t: int| 0 <= t < n && #[trigger] placement(r, t) == k2;
        lemma_placement_in_bucket(r, t1);
        lemma_placement_in_bucket(r, t2);
        if r[t1] > r[t2] {
            lemma_prefix_monotone(r, r[t2] + 1, r[t1] as int);
        }
    }
}

/// The scatter in index order, run over all values from the buckets' ends,
/// leaves each counter at its bucket's start and the sorting ids a
/// permutation that groups the values by bucket.
pub proof fn lemma_scatter_result(values: Seq<u32>, count: Seq<u32>, ids: Seq<u32>)
    requires
        values.len() <= u32::MAX,
        keys_below(values, count.len() as int),
        ids.len() == values.len(),
        count == bucket_ends(values, count.len()),
    ensures
        ({
            let (c, d) = scatter(values, count, ids, values.len());
            &&& c == bucket_starts(values, count.len())
            &&& is_index_permutation(d, values.len() as int)
            &&& groups_by_key(values, d)
        }),
{
    let n = values.len() as int;
    let order = Seq::new(values.len(), |t: int| t as u32);
    assert forall|i: u32| i < n implies #[trigger] order.contains(i) by {
        assert(order[i as int] == i);
    }
    lemma_scatter_in_index_order(values, count, ids, values.len());
    lemma_scatter_any_order(values, count, ids, order);
}

/// The number of values of each bucket.
pub open spec fn histogram(values: Seq<u32>, buckets: nat) -> Seq<u32> {
    Seq::new(buckets, |b: int| occurrences(values, b) as u32)
}

proof fn lemma_occurrences_bounded(values: Seq<u32>, b: int)
    ensures
        occurrences(values, b) <= values.len(),
    decreases values.len(),
{
    if values.len() > 0 {
        lemma_occurrences_bounded(values.drop_last(), b);
    }
}

proof fn lemma_div_ceil_covers(n: int, d: int)
    requires
        n >= 0,
        d >= 1,
    ensures
        div_ceil(n, d) * d >= n,
{
    let x = n + d - 1;
    vstd::arithmetic::div_mod::lemma_fundamental_div_mod(x, d);
    vstd::arithmetic::div_mod::lemma_mod_pos_bound(x, d);
    let q = x / d;
    assert(q * d == d * q) by (nonlinear_arith);
}

/// Running one more launch of a batch is one more step.
pub proof fn lemma_run_take(
    values: Seq<u32>,
    w: u32,
    state: (Seq<u32>, Seq<u32>),
    cmds: Seq<Command>,
    k: int,
)
    requires
        0 <= k < cmds.len(),
    ensures
        run_spec(values, w, state, cmds.take(k + 1)) == step_spec(
            values,
            w,
            run_spec(values, w, state, cmds.take(k)),
            cmds[k],
        ),
{
    assert(cmds.take(k + 1).drop_last() =~= cmds.take(k));
    assert(cmds.take(k + 1).last() == cmds[k]);
}

/// The launches of an engine's batch, by position.
proof fn lemma_plan_shape(m: GpuCountingSortModule)
    requires
        m.wf(),
    ensures
        ({
            let plan = m.plan();
            let top = m.scan_levels_spec() as int;
            let w = m.workgroup_size_spec();
            let len = m.count_size_spec() as nat;
            let groups = div_ceil(m.value_size_spec() as int, w as int) as u32;
            &&& top >= 1
            &&& plan.len() == 2 * top + 2
            &&& plan[0] == Command::ClearCount
            &&& plan[1] == Command::Count { workgroups: groups }
            &&& forall|l: int|
                0 <= l < top ==> #[trigger] plan[2 + l] == Command::Scan {
                    level: l as u32,
                    workgroups: level_workgroups(len, w as nat, l as nat) as u32,
                }
            &&& forall|j: int|
                0 <= j < top - 1 ==> #[trigger] plan[2 + top + j] == Command::Propagate {
                    level: (top - 2 - j) as u32,
                    workgroups: level_workgroups(len, w as nat, (top - 2 - j) as nat) as u32,
                }
            &&& plan[2 * top + 1] == Command::Sort { workgroups: groups }
        }),
{
    let top = m.scan_levels_spec();
    let w = m.workgroup_size_spec();
    lemma_scan_levels_bounds(m.count_size_spec() as nat, w as nat);
    let groups = div_ceil(m.value_size_spec() as int, w as int) as u32;
    let head = seq![Command::ClearCount, Command::Count { workgroups: groups }];
    let scans = scan_commands(m.count_size_spec(), w, top);
    let props = propagate_commands(m.count_size_spec(), w, top);
    let tail = seq![Command::Sort { workgroups: groups }];
    let plan = m.plan();
    assert(plan == head + scans + props + tail);
    assert forall|l: int| 0 <= l < top implies #[trigger] plan[2 + l] == scans[l] by {
        assert((head + scans + props + tail)[2 + l] == scans[l]);
    }
    assert forall|j: int| 0 <= j < top - 1 implies #[trigger] plan[2 + top + j] == props[j] by {
        assert((head + scans + props + tail)[2 + top + j] == props[j]);
    }
}

/// State of the buffers after the clear and the count of an engine's batch.
proof fn lemma_count_phase(
    m: GpuCountingSortModule,
    values: Seq<u32>,
    count: Seq<u32>,
    ids: Seq<u32>,
)
    requires
        m.wf(),
        values.len() == m.value_size_spec(),
        count.len() == m.count_size_spec(),
    ensures
        run_spec(values, m.workgroup_size_spec(), (count, ids), m.plan().take(2)) == (
            histogram(values, count.len()),
            ids,
        ),
{
    let w = m.workgroup_size_spec();
    let plan = m.plan();
    let n = values.len() as int;
    lemma_plan_shape(m);
    let groups = div_ceil(n, w as int);
    lemma_groups_fit(n, w as int);
    lemma_div_ceil_covers(n, w as int);
    lemma_run_take(values, w, (count, ids), plan, 0);
    lemma_run_take(values, w, (count, ids), plan, 1);
    assert(plan.take(0).len() == 0);
    let zeros = Seq::new(count.len(), |i: int| 0u32);
    assert(invocations(n, w, groups as u32) == n) by (nonlinear_arith)
        requires
            groups * w >= n,
            0 <= groups <= u32::MAX,
    ;
    assert(values.take(n) =~= values);
    let c = count_spec(values, zeros, w, groups as u32);
    assert forall|b: int| 0 <= b < count.len() implies #[trigger] c[b] == histogram(
        values,
        count.len(),
    )[b] by {
        lemma_occurrences_bounded(values, b);
        lemma_wrap_small(occurrences(values, b) as int);
    }
    assert(c =~= histogram(values, count.len()));
}

/// State of the count buffer after the scans and the propagations of an
/// engine's batch.
proof fn lemma_scan_phase(
    m: GpuCountingSortModule,
    values: Seq<u32>,
    count: Seq<u32>,
    ids: Seq<u32>,
    l: nat,
)
    requires
        m.wf(),
        values.len() == m.value_size_spec(),
        count.len() == m.count_size_spec(),
        keys_below(values, count.len() as int),
        l <= m.scan_levels_spec(),
    ensures
        ({
            let st = run_spec(values, m.workgroup_size_spec(), (count, ids), m.plan().take(2 + l as int));
            &&& st.0.len() == count.len()
            &&& st.1 == ids
            &&& scanned(values, m.workgroup_size_spec() as nat, l, st.0)
        }),
    decreases l,
{
    let w = m.workgroup_size_spec();
    let plan = m.plan();
    lemma_plan_shape(m);
    if l == 0 {
        lemma_count_phase(m, values, count, ids);
        let h = histogram(values, count.len());
        assert forall|i: int| 0 <= i < h.len() implies #[trigger] h[i] == bucket_prefix(
            values,
            i + 1,
        ) - bucket_prefix(values, i) by {
            lemma_occurrences_bounded(values, i);
        }
    } else {
        lemma_scan_phase(m, values, count, ids, (l - 1) as nat);
        lemma_run_take(values, w, (count, ids), plan, 2 + l - 1);
        let st = run_spec(values, w, (count, ids), plan.take(2 + l - 1));
        assert(plan[2 + (l - 1)] == Command::Scan {
            level: (l - 1) as u32,
            workgroups: level_workgroups(count.len(), w as nat, (l - 1) as nat) as u32,
        });
        lemma_scan_step(values, st.0, w, (l - 1) as nat);
    }
}

/// State of the count buffer after the propagations of an engine's batch
/// down to `top - 1 - j`.
proof fn lemma_propagate_phase(
    m: GpuCountingSortModule,
    values: Seq<u32>,
    count: Seq<u32>,
    ids: Seq<u32>,
    j: nat,
)
    requires
        m.wf(),
        values.len() == m.value_size_spec(),
        count.len() == m.count_size_spec(),
        keys_below(values, count.len() as int),
        j < m.scan_levels_spec(),
    ensures
        ({
            let top = m.scan_levels_spec() as nat;
            let st = run_spec(
                values,
                m.workgroup_size_spec(),
                (count, ids),
                m.plan().take(2 + top + j as int),
            );
            &&& st.0.len() == count.len()
            &&& st.1 == ids
            &&& propagated(
                values,
                m.workgroup_size_spec() as nat,
                top,
                (top - 1 - j) as nat,
                st.0,
            )
        }),
    decreases j,
{
    let w = m.workgroup_size_spec();
    let plan = m.plan();
    let top = m.scan_levels_spec() as nat;
    lemma_plan_shape(m);
    if j == 0 {
        lemma_scan_phase(m, values, count, ids, top);
        let st = run_spec(values, w, (count, ids), plan.take(2 + top as int));
        lemma_scans_done(values, st.0, w);
    } else {
        lemma_propagate_phase(m, values, count, ids, (j - 1) as nat);
        lemma_run_take(values, w, (count, ids), plan, 2 + top + j - 1);
        let st = run_spec(values, w, (count, ids), plan.take(2 + top + j - 1));
        assert(plan[2 + top + (j - 1)] == Command::Propagate {
            level: (top - 2 - (j - 1)) as u32,
            workgroups: level_workgroups(count.len(), w as nat, (top - 2 - (j - 1)) as nat) as u32,
        });
        lemma_propagate_step(values, st.0, w, (top - 1 - (j - 1)) as nat);
    }
}

/// After the clear and the count, the count buffer holds the histogram of
/// the values, bucket for bucket.
pub proof fn lemma_count_stage_is_histogram(
    m: GpuCountingSortModule,
    values: Seq<u32>,
    count: Seq<u32>,
    ids: Seq<u32>,
)
    requires
        m.wf(),
        values.len() == m.value_size_spec(),
        count.len() == m.count_size_spec(),
    ensures
        run_spec(values, m.workgroup_size_spec(), (count, ids), m.plan().take(2)).0 == histogram(
            values,
            count.len(),
        ),
{
    lemma_count_phase(m, values, count, ids);
}

/// After the scans and the propagations, before the scatter, the count
/// buffer holds the inclusive running sum of the histogram.
pub proof fn lemma_scan_stage_is_running_sum(
    m: GpuCountingSortModule,
    values: Seq<u32>,
    count: Seq<u32>,
    ids: Seq<u32>,
)
    requires
        m.wf(),
        values.len() == m.value_size_spec(),
        count.len() == m.count_size_spec(),
        keys_below(values, count.len() as int),
    ensures
        run_spec(
            values,
            m.workgroup_size_spec(),
            (count, ids),
            m.plan().take(m.plan().len() - 1),
        ).0 == bucket_ends(values, count.len()),
{
    let top = m.scan_levels_spec() as nat;
    let w = m.workgroup_size_spec();
    lemma_plan_shape(m);
    lemma_propagate_phase(m, values, count, ids, (top - 1) as nat);
    let c = run_spec(values, w, (count, ids), m.plan().take(2 + top + (top - 1))).0;
    let len = count.len() as int;
    lemma_prefix_total(values, len);
    assert(level_stride(w as nat, 0) == 1);
    assert forall|i: int| 0 <= i < len implies #[trigger] c[i] == bucket_ends(values, count.len())[i] by {
        assert((i + 1) % 1 == 0);
        assert(is_slot(len, 1, i));
        lemma_prefix_monotone(values, i + 1, len);
        lemma_prefix_monotone(values, 0, i + 1);
    }
    assert(c =~= bucket_ends(values, count.len()));
}

/// What the whole batch leaves: the counters at their buckets' starts and
/// the sorting ids grouped by bucket.
proof fn lemma_whole_batch(m: GpuCountingSortModule, values: Seq<u32>, count: Seq<u32>, ids: Seq<u32>)
    requires
        m.wf(),
        values.len() == m.value_size_spec(),
        count.len() == m.count_size_spec(),
        ids.len() == values.len(),
        keys_below(values, count.len() as int),
    ensures
        ({
            let (c, d) = run_spec(values, m.workgroup_size_spec(), (count, ids), m.plan());
            &&& c == bucket_starts(values, count.len())
            &&& is_index_permutation(d, values.len() as int)
            &&& groups_by_key(values, d)
        }),
{
    let top = m.scan_levels_spec() as nat;
    let w = m.workgroup_size_spec();
    let plan = m.plan();
    let n = values.len() as int;
    lemma_plan_shape(m);
    lemma_scan_stage_is_running_sum(m, values, count, ids);
    lemma_propagate_phase(m, values, count, ids, (top - 1) as nat);
    lemma_run_take(values, w, (count, ids), plan, plan.len() - 1);
    assert(plan.take(plan.len() as int) =~= plan);
    let st = run_spec(values, w, (count, ids), plan.take(plan.len() - 1));
    let groups = div_ceil(n, w as int);
    lemma_groups_fit(n, w as int);
    lemma_div_ceil_covers(n, w as int);
    assert(invocations(n, w, groups as u32) == n) by (nonlinear_arith)
        requires
            groups * w >= n,
            0 <= groups <= u32::MAX,
    ;
    lemma_scatter_result(values, st.0, ids);
}

/// After one sort, the sorting-id buffer holds each index of the values
/// exactly once.
pub proof fn lemma_sort_is_permutation(
    m: GpuCountingSortModule,
    values: Seq<u32>,
    count: Seq<u32>,
    ids: Seq<u32>,
)
    requires
        m.wf(),
        values.len() == m.value_size_spec(),
        count.len() == m.count_size_spec(),
        ids.len() == values.len(),
        keys_below(values, count.len() as int),
    ensures
        is_index_permutation(
            run_spec(values, m.workgroup_size_spec(), (count, ids), m.plan()).1,
            values.len() as int,
        ),
{
    lemma_whole_batch(m, values, count, ids);
}

/// After one sort, reading the values through the sorting-id buffer gives
/// them in non-decreasing order of bucket.
pub proof fn lemma_sort_groups_by_key(
    m: GpuCountingSortModule,
    values: Seq<u32>,
    count: Seq<u32>,
    ids: Seq<u32>,
)
    requires
        m.wf(),
        values.len() == m.value_size_spec(),
        count.len() == m.count_size_spec(),
        ids.len() == values.len(),
        keys_below(values, count.len() as int),
    ensures
        groups_by_key(values, run_spec(values, m.workgroup_size_spec(), (count, ids), m.plan()).1),
{
    lemma_whole_batch(m, values, count, ids);
}

/// After one sort, each counter has come down to its bucket's start.
pub proof fn lemma_sort_leaves_bucket_starts(
    m: GpuCountingSortModule,
    values: Seq<u32>,
    count: Seq<u32>,
    ids: Seq<u32>,
)
    requires
        m.wf(),
        values.len() == m.value_size_spec(),
        count.len() == m.count_size_spec(),
        ids.len() == values.len(),
        keys_below(values, count.len() as int),
    ensures
        run_spec(values, m.workgroup_size_spec(), (count, ids), m.plan()).0 == bucket_starts(
            values,
            count.len(),
        ),
{
    lemma_whole_batch(m, values, count, ids);
}

/// Whatever order the scatter's invocations take, the sort leaves the
/// sorting ids a permutation grouped by bucket and each counter at its
/// bucket's start: the scatter runs from the state that the launches before
/// it leave.
pub proof fn lemma_sort_in_any_order(
    m: GpuCountingSortModule,
    values: Seq<u32>,
    count: Seq<u32>,
    ids: Seq<u32>,
    order: Seq<u32>,
)
    requires
        m.wf(),
        values.len() == m.value_size_spec(),
        count.len() == m.count_size_spec(),
        ids.len() == values.len(),
        keys_below(values, count.len() as int),
        is_index_permutation(order, values.len() as int),
    ensures
        ({
            let before = run_spec(
                values,
                m.workgroup_size_spec(),
                (count, ids),
                m.plan().take(m.plan().len() - 1),
            );
            let (c, d) = scatter_in(values, before.0, before.1, order, values.len());
            &&& c == bucket_starts(values, count.len())
            &&& is_index_permutation(d, values.len() as int)
            &&& groups_by_key(values, d)
        }),
{
    let top = m.scan_levels_spec() as nat;
    lemma_plan_shape(m);
    lemma_scan_stage_is_running_sum(m, values, count, ids);
    lemma_propagate_phase(m, values, count, ids, (top - 1) as nat);
    lemma_scatter_any_order(
        values,
        run_spec(values, m.workgroup_size_spec(), (count, ids), m.plan().take(m.plan().len() - 1)).0,
        ids,
        order,
    );
}

} // verus!
