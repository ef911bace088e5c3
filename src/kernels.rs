//! The four kernels run on host memory, one launch at a time, with the
//! device's `u32` wrap-around arithmetic and its discarded out-of-range
//! writes. Each launch of the device has no ordering between invocations;
//! here the invocations of a launch run in index order, which is one of the
//! orders the device may take. Only the scatter depends on the order, and
//! `scatter_in` states it for any order.
use crate::levels::{
    lemma_scan_levels_bounds, lemma_stride_monotonic, lemma_stride_positive, lemma_stride_rest,
    level_stride, scan_levels,
};
use vstd::arithmetic::div_mod::{
    lemma_add_mod_noop, lemma_fundamental_div_mod, lemma_fundamental_div_mod_converse,
    lemma_mod_multiples_basic, lemma_mod_pos_bound, lemma_small_mod,
};
use vstd::prelude::*;

verus! {

/// `x` reduced to a `u32`, as the device's unsigned arithmetic wraps.
pub open spec fn wrap32(x: int) -> u32 {
    (x % 0x1_0000_0000) as u32
}

/// How many of `values` equal `b`.
pub open spec fn occurrences(values: Seq<u32>, b: int) -> nat
    decreases values.len(),
{
    if values.len() == 0 {
        0
    } else {
        occurrences(values.drop_last(), b) + if values.last() == b {
            1nat
        } else {
            0nat
        }
    }
}

/// Number of invocations that `workgroups` work-groups of width `w` run on
/// `n` items: those past the end do nothing.
pub open spec fn invocations(n: int, w: u32, workgroups: u32) -> int {
    if workgroups * w < n {
        workgroups * w
    } else {
        n
    }
}

/// Index `i` of an array of `len` elements is the last of its block of `s`
/// elements, the slot that stands for the block at the level of stride `s`.
pub open spec fn is_slot(len: int, s: int, i: int) -> bool {
    (i + 1) % s == 0 || i == len - 1
}

/// Sum of the stride-`s` slots of `c` in `[lo, hi)`.
pub open spec fn slot_sum(c: Seq<u32>, s: int, lo: int, hi: int) -> int
    decreases hi - lo,
{
    if hi <= lo {
        0
    } else {
        slot_sum(c, s, lo, hi - 1) + if is_slot(c.len() as int, s, hi - 1) {
            c[hi - 1] as int
        } else {
            0
        }
    }
}

/// Sum of `x` over `[lo, hi)`.
pub open spec fn window_sum(x: Seq<u32>, lo: int, hi: int) -> int
    decreases hi - lo,
{
    if hi <= lo {
        0
    } else {
        window_sum(x, lo, hi - 1) + x[hi - 1] as int
    }
}

/// Counts after the count kernel: each counter gains the number of counted
/// values in its bucket; values past the end of the buffer are dropped.
pub open spec fn count_spec(values: Seq<u32>, count: Seq<u32>, w: u32, workgroups: u32) -> Seq<
    u32,
> {
    let counted = values.take(invocations(values.len() as int, w, workgroups));
    Seq::new(count.len(), |b: int| wrap32(count[b] + occurrences(counted, b)))
}

/// The buffer after the work-group scan of `level`: each slot of that level
/// in a dispatched group holds the sum of the group's slots up to itself.
pub open spec fn scan_spec(c: Seq<u32>, w: u32, level: nat, workgroups: u32) -> Seq<u32> {
    let s = level_stride(w as nat, level) as int;
    let s1 = level_stride(w as nat, level + 1) as int;
    Seq::new(
        c.len(),
        |i: int|
            if is_slot(c.len() as int, s, i) && i / s1 < workgroups {
                wrap32(slot_sum(c, s, (i / s1) * s1, i + 1))
            } else {
                c[i]
            },
    )
}

/// The buffer after the propagation into `level`: each slot of that level
/// that does not end its group, outside the first group, gains the value of
/// the slot that ends the group before.
pub open spec fn propagate_spec(c: Seq<u32>, w: u32, level: nat, workgroups: u32) -> Seq<u32> {
    let s = level_stride(w as nat, level) as int;
    let s1 = level_stride(w as nat, level + 1) as int;
    Seq::new(
        c.len(),
        |i: int|
            if is_slot(c.len() as int, s, i) && !is_slot(c.len() as int, s1, i) && 0 < i / s1
                < workgroups {
                wrap32(c[i] + c[(i / s1) * s1 - 1])
            } else {
                c[i]
            },
    )
}

/// Counters and sorting ids after the first `n` values were scattered: each
/// takes one from its bucket's counter and writes its index at the new
/// value.
pub open spec fn scatter(values: Seq<u32>, count: Seq<u32>, ids: Seq<u32>, n: nat) -> (Seq<u32>, Seq<u32>)
    decreases n,
{
    if n == 0 {
        (count, ids)
    } else {
        let (c, d) = scatter(values, count, ids, (n - 1) as nat);
        let b = values[n - 1] as int;
        if b < c.len() {
            let slot = wrap32(c[b] - 1);
            (
                c.update(b, slot),
                if slot < d.len() {
                    d.update(slot as int, (n - 1) as u32)
                } else {
                    d
                },
            )
        } else {
            (c, d)
        }
    }
}

/// Counters and sorting ids after the values at `order[0 .. n)` were
/// scattered in that order, as any interleaving of the device's atomic
/// decrements may take them.
pub open spec fn scatter_in(values: Seq<u32>, count: Seq<u32>, ids: Seq<u32>, order: Seq<u32>, n: nat) -> (
    Seq<u32>,
    Seq<u32>,
)
    decreases n,
{
    if n == 0 {
        (count, ids)
    } else {
        let (c, d) = scatter_in(values, count, ids, order, (n - 1) as nat);
        let i = order[n - 1];
        let b = values[i as int] as int;
        if b < c.len() {
            let slot = wrap32(c[b] - 1);
            (
                c.update(b, slot),
                if slot < d.len() {
                    d.update(slot as int, i)
                } else {
                    d
                },
            )
        } else {
            (c, d)
        }
    }
}

/// The scatter in index order is the scatter in the order `0, 1, 2, ...`.
pub proof fn lemma_scatter_in_index_order(values: Seq<u32>, count: Seq<u32>, ids: Seq<u32>, n: nat)
    requires
        n <= values.len() <= u32::MAX,
    ensures
        scatter(values, count, ids, n) == scatter_in(
            values,
            count,
            ids,
            Seq::new(values.len(), |t: int| t as u32),
            n,
        ),
    decreases n,
{
    if n > 0 {
        lemma_scatter_in_index_order(values, count, ids, (n - 1) as nat);
    }
}

pub proof fn lemma_wrapping_add(a: u32, b: u32)
    ensures
        a.wrapping_add(b) == wrap32(a + b),
{
    if a + b > u32::MAX {
        lemma_small_mod((a + b - 0x1_0000_0000) as nat, 0x1_0000_0000);
        lemma_mod_sub_one_period(a + b);
    } else {
        lemma_small_mod((a + b) as nat, 0x1_0000_0000);
    }
}

proof fn lemma_mod_sub_one_period(x: int)
    requires
        0x1_0000_0000 <= x < 0x2_0000_0000,
    ensures
        x % 0x1_0000_0000 == x - 0x1_0000_0000,
{
    lemma_fundamental_div_mod(x, 0x1_0000_0000);
    lemma_mod_pos_bound(x, 0x1_0000_0000);
}

pub proof fn lemma_wrapping_sub_one(a: u32)
    ensures
        a.wrapping_sub(1) == wrap32(a - 1),
{
    if a == 0 {
        lemma_fundamental_div_mod(-1, 0x1_0000_0000);
    } else {
        lemma_small_mod((a - 1) as nat, 0x1_0000_0000);
    }
}

/// Wrapping after each addition is wrapping once at the end.
pub proof fn lemma_wrap_add(x: int, y: int)
    ensures
        wrap32(wrap32(x) + y) == wrap32(x + y),
{
    lemma_mod_pos_bound_int(x);
    lemma_add_mod_noop(x, y, 0x1_0000_0000);
    lemma_add_mod_noop(x % 0x1_0000_0000, y, 0x1_0000_0000);
    lemma_mod_of_mod(x);
}

proof fn lemma_mod_pos_bound_int(x: int)
    ensures
        0 <= x % 0x1_0000_0000 < 0x1_0000_0000,
{
    vstd::arithmetic::div_mod::lemma_mod_bound(x, 0x1_0000_0000);
}

proof fn lemma_mod_of_mod(x: int)
    ensures
        (x % 0x1_0000_0000) % 0x1_0000_0000 == x % 0x1_0000_0000,
{
    lemma_mod_pos_bound_int(x);
    lemma_small_mod((x % 0x1_0000_0000) as nat, 0x1_0000_0000);
}

/// A value that fits in a `u32` is its own wrap.
pub proof fn lemma_wrap_small(x: int)
    requires
        0 <= x <= u32::MAX,
    ensures
        wrap32(x) == x,
{
    lemma_small_mod(x as nat, 0x1_0000_0000);
}

proof fn lemma_occurrences_push(values: Seq<u32>, n: int, b: int)
    requires
        0 <= n < values.len(),
    ensures
        occurrences(values.take(n + 1), b) == occurrences(values.take(n), b) + if values[n]
            == b {
            1nat
        } else {
            0nat
        },
{
    assert(values.take(n + 1).drop_last() =~= values.take(n));
}

/// Fills the count buffer with zeros.
pub fn clear_kernel(count: &mut Vec<u32>)
    ensures
        final(count)@ == Seq::new(old(count)@.len(), |i: int| 0u32),
{
    let len = count.len();
    let mut i: usize = 0;
    while i < len
        invariant
            len == count@.len(),
            len == old(count)@.len(),
            i <= len,
            forall|j: int| 0 <= j < i ==> count@[j] == 0u32,
        decreases len - i,
    {
        count.set(i, 0);
        i = i + 1;
    }
    assert(count@ =~= Seq::new(old(count)@.len(), |i: int| 0u32));
}

/// Adds one to the counter of each counted value's bucket.
pub fn count_kernel(values: &Vec<u32>, count: &mut Vec<u32>, w: u32, workgroups: u32)
    ensures
        final(count)@ == count_spec(values@, old(count)@, w, workgroups),
{
    assert((workgroups as u64) * (w as u64) <= u64::MAX) by (nonlinear_arith)
        requires
            workgroups <= u32::MAX,
            w <= u32::MAX,
    ;
    let n: usize = if (workgroups as u64) * (w as u64) < values.len() as u64 {
        ((workgroups as u64) * (w as u64)) as usize
    } else {
        values.len()
    };
    assert(n == invocations(values@.len() as int, w, workgroups)) by (nonlinear_arith)
        requires
            n == (if (workgroups as u64) * (w as u64) < values.len() as u64 {
                ((workgroups as u64) * (w as u64)) as usize
            } else {
                values.len()
            }),
            workgroups * w <= u64::MAX,
    ;
    let len = count.len();
    let mut i: usize = 0;
    while i < n
        invariant
            n <= values@.len(),
            i <= n,
            len == count@.len(),
            len == old(count)@.len(),
            forall|b: int|
                0 <= b < len ==> #[trigger] count@[b] == wrap32(
                    old(count)@[b] + occurrences(values@.take(i as int), b),
                ),
        decreases n - i,
    {
        let b = values[i];
        proof {
            assert forall|c: int| 0 <= c < len implies #[trigger] occurrences(
                values@.take(i + 1),
                c,
            ) == occurrences(values@.take(i as int), c) + if values@[i as int] == c {
                1nat
            } else {
                0nat
            } by {
                lemma_occurrences_push(values@, i as int, c);
            }
        }
        if (b as usize) < len {
            let v = count[b as usize];
            proof {
                lemma_wrapping_add(v, 1);
                lemma_wrap_add(old(count)@[b as int] + occurrences(values@.take(i as int), b as int), 1);
            }
            count.set(b as usize, v.wrapping_add(1));
        }
        i = i + 1;
    }
    assert(count@ =~= count_spec(values@, old(count)@, w, workgroups));
}

/// Adjacent windows add up.
pub proof fn lemma_window_split(x: Seq<u32>, a: int, b: int, c: int)
    requires
        a <= b <= c,
    ensures
        window_sum(x, a, b) + window_sum(x, b, c) == window_sum(x, a, c),
    decreases c - b,
{
    if b < c {
        lemma_window_split(x, a, b, c - 1);
    }
}

/// Inclusive scan of `x` in place by Kogge-Stone passes: in the pass of
/// offset `d` (1, 2, 4, ...) each element adds the one `d` places before
/// it, as both were before the pass, until the offset reaches the length.
pub fn kogge_stone_scan(x: &mut Vec<u32>)
    requires
        old(x)@.len() <= u32::MAX,
    ensures
        final(x)@.len() == old(x)@.len(),
        forall|i: int|
            0 <= i < old(x)@.len() ==> #[trigger] final(x)@[i] == wrap32(
                window_sum(old(x)@, 0, i + 1),
            ),
{
    let ghost orig = x@;
    let len = x.len();
    let mut d: u64 = 1;
    proof {
        assert forall|i: int| 0 <= i < len implies #[trigger] x@[i] == wrap32(
            window_sum(orig, if i - d + 1 > 0 { i - d + 1 } else { 0 }, i + 1),
        ) by {
            assert(window_sum(orig, i, i) == 0);
            assert(window_sum(orig, i, i + 1) == orig[i]);
            lemma_wrap_small(x@[i] as int);
        }
    }
    while d < len as u64
        invariant
            len == x@.len(),
            len == orig.len(),
            len <= u32::MAX,
            1 <= d,
            d <= 2 * len + 1,
            forall|i: int|
                0 <= i < len ==> #[trigger] x@[i] == wrap32(
                    window_sum(orig, if i - d + 1 > 0 { i - d + 1 } else { 0 }, i + 1),
                ),
        decreases 2 * len + 1 - d,
    {
        let ghost prev = x@;
        let mut i: usize = len;
        while i > d as usize
            invariant
                len == x@.len(),
                len == prev.len(),
                d < len,
                d as int <= i <= len,
                forall|j: int| 0 <= j < i ==> #[trigger] x@[j] == prev[j],
                forall|j: int|
                    i <= j < len ==> #[trigger] x@[j] == prev[j].wrapping_add(prev[j - d]),
            decreases i,
        {
            i = i - 1;
            let v = x[i].wrapping_add(x[i - d as usize]);
            x.set(i, v);
        }
        proof {
            assert forall|i: int| 0 <= i < len implies #[trigger] x@[i] == wrap32(
                window_sum(orig, if i - 2 * d + 1 > 0 { i - 2 * d + 1 } else { 0 }, i + 1),
            ) by {
                let lo2 = if i - 2 * d + 1 > 0 { i - 2 * d + 1 } else { 0 };
                if i >= d {
                    let mid = i - d + 1;
                    lemma_wrapping_add(prev[i], prev[i - d]);
                    lemma_wrap_add(window_sum(orig, mid, i + 1), prev[i - d] as int);
                    lemma_wrap_add_right(window_sum(orig, mid, i + 1), window_sum(orig, lo2, mid));
                    lemma_window_split(orig, lo2, mid, i + 1);
                }
            }
        }
        d = d * 2;
    }
}

/// Wrapping the second term of a sum first changes nothing.
pub proof fn lemma_wrap_add_right(x: int, y: int)
    ensures
        wrap32(x + wrap32(y)) == wrap32(x + y),
{
    lemma_wrap_add(y, x);
    lemma_wrap_add(wrap32(y) as int, x);
    assert(wrap32(y) as int + x == x + wrap32(y) as int);
    assert(y + x == x + y);
    lemma_mod_of_mod(y);
    lemma_mod_pos_bound_int(y);
    lemma_wrap_small(wrap32(y) as int);
}

/// The index before `i` lies in the same block of `s1` unless `i` starts a
/// block.
pub proof fn lemma_block_start(i: int, s1: int)
    requires
        0 <= i,
        s1 > 0,
    ensures
        i % s1 == 0 ==> (i / s1) * s1 == i,
        i % s1 != 0 ==> (i - 1) / s1 == i / s1,
        (i / s1) * s1 <= i,
        ((i / s1) * s1) % s1 == 0,
        i / s1 >= 0,
{
    lemma_fundamental_div_mod(i, s1);
    lemma_mod_pos_bound(i, s1);
    vstd::arithmetic::div_mod::lemma_div_pos_is_pos(i, s1);
    let q = i / s1;
    let r = i % s1;
    assert(q * s1 == s1 * q) by (nonlinear_arith);
    if r != 0 {
        lemma_fundamental_div_mod_converse(i - 1, s1, q, r - 1);
    }
    lemma_mod_multiples_basic(q, s1);
}

/// Strides of `level` and of the level above it, for `len` elements and
/// work-groups of width `w`.
pub fn strides(w: u32, level: u32, len: u32) -> (r: (u64, u64))
    requires
        w >= 2,
        level < scan_levels(len as nat, w as nat),
    ensures
        r.0 == level_stride(w as nat, level as nat),
        r.1 == level_stride(w as nat, level as nat + 1),
        r.0 >= 1,
        r.0 <= u32::MAX,
        r.1 >= 1,
{
    proof {
        lemma_scan_levels_bounds(len as nat, w as nat);
    }
    let mut s: u64 = 1;
    let mut j: u32 = 0;
    while j < level
        invariant
            w >= 2,
            j <= level,
            level < scan_levels(len as nat, w as nat),
            scan_levels(len as nat, w as nat) > 1 ==> level_stride(
                w as nat,
                (scan_levels(len as nat, w as nat) - 1) as nat,
            ) <= len,
            s == level_stride(w as nat, j as nat),
        decreases level - j,
    {
        proof {
            lemma_stride_rest(w as nat, j as nat);
            lemma_stride_monotonic(
                w as nat,
                j as nat + 1,
                (scan_levels(len as nat, w as nat) - 1) as nat,
            );
        }
        s = s * w as u64;
        j = j + 1;
    }
    proof {
        lemma_stride_rest(w as nat, level as nat);
        lemma_stride_positive(w as nat, level as nat);
        lemma_stride_positive(w as nat, level as nat + 1);
        if level > 0 {
            lemma_stride_monotonic(
                w as nat,
                level as nat,
                (scan_levels(len as nat, w as nat) - 1) as nat,
            );
        }
        assert(s * w <= u64::MAX) by (nonlinear_arith)
            requires
                s <= u32::MAX,
                w <= u32::MAX,
        ;
    }
    (s, s * w as u64)
}

/// Index of the slot of element `k` of the level of stride `s`: the last
/// index of its block, or of the array.
pub open spec fn elem_slot(len: int, s: int, k: int) -> int {
    if (k + 1) * s < len {
        (k + 1) * s - 1
    } else {
        len - 1
    }
}

/// Element `k` of a level lies in the array, its slot ends its block, and
/// the indices of the block before the slot are no slots.
pub proof fn lemma_elem_slot(len: int, s: int, k: int)
    requires
        s >= 1,
        0 <= k,
        k * s < len,
    ensures
        k * s <= elem_slot(len, s, k) < len,
        elem_slot(len, s, k) < (k + 1) * s,
        elem_slot(len, s, k) / s == k,
        is_slot(len, s, elem_slot(len, s, k)),
        forall|x: int| k * s <= x < elem_slot(len, s, k) ==> !#[trigger] is_slot(len, s, x),
{
    let e = elem_slot(len, s, k);
    assert((k + 1) * s == k * s + s) by (nonlinear_arith);
    vstd::arithmetic::div_mod::lemma_fundamental_div_mod_converse(e, s, k, e - k * s);
    if (k + 1) * s < len {
        vstd::arithmetic::div_mod::lemma_fundamental_div_mod_converse(e + 1, s, k + 1, 0);
    }
    assert forall|x: int| k * s <= x < e implies !#[trigger] is_slot(len, s, x) by {
        vstd::arithmetic::div_mod::lemma_fundamental_div_mod_converse(x + 1, s, k, x + 1 - k * s);
    }
}

/// Every slot of a level is the slot of the element its index falls in.
pub proof fn lemma_slot_is_elem_slot(len: int, s: int, i: int)
    requires
        s >= 1,
        0 <= i < len,
        is_slot(len, s, i),
    ensures
        elem_slot(len, s, i / s) == i,
        (i / s) * s <= i,
{
    lemma_block_start(i, s);
    lemma_fundamental_div_mod(i, s);
    lemma_mod_pos_bound(i, s);
    let k = i / s;
    let r = i % s;
    assert((k + 1) * s == s * k + s) by (nonlinear_arith);
    if i != len - 1 {
        lemma_fundamental_div_mod(i + 1, s);
        let q = (i + 1) / s;
        assert(q == k + 1) by (nonlinear_arith)
            requires
                i + 1 == s * q,
                i == s * k + r,
                0 <= r < s,
                s >= 1,
        ;
        assert((k + 1) * s == i + 1) by (nonlinear_arith)
            requires
                i + 1 == s * q,
                q == k + 1,
        ;
    } else {
        assert((k + 1) * s >= len);
    }
}

/// Indices with no slot among them add nothing to a slot sum.
pub proof fn lemma_slot_sum_gap(c: Seq<u32>, s: int, base: int, a: int, b: int)
    requires
        base <= a <= b,
        forall|x: int| a <= x < b ==> !#[trigger] is_slot(c.len() as int, s, x),
    ensures
        slot_sum(c, s, base, b) == slot_sum(c, s, base, a),
    decreases b - a,
{
    if a < b {
        lemma_slot_sum_gap(c, s, base, a, b - 1);
    }
}

/// The slots of a work-group of level elements, in order.
pub open spec fn group_slots(c: Seq<u32>, s: int, first: int, m: int) -> Seq<u32> {
    Seq::new(m as nat, |t: int| c[elem_slot(c.len() as int, s, first + t)])
}

/// Summing the stride-`s` slots from the start of a work-group's span
/// up to element `first + j` is summing the group's first `j + 1` slots.
pub proof fn lemma_group_slot_sum(c: Seq<u32>, s: int, first: int, m: int, j: int)
    requires
        s >= 1,
        0 <= first,
        0 <= j < m,
        (first + m - 1) * s < c.len(),
    ensures
        slot_sum(c, s, first * s, elem_slot(c.len() as int, s, first + j) + 1) == window_sum(
            group_slots(c, s, first, m),
            0,
            j + 1,
        ),
    decreases j,
{
    let len = c.len() as int;
    let k = first + j;
    let g = group_slots(c, s, first, m);
    assert(k * s <= (first + m - 1) * s) by (nonlinear_arith)
        requires
            k <= first + m - 1,
            s >= 1,
    ;
    lemma_elem_slot(len, s, k);
    let e = elem_slot(len, s, k);
    if j == 0 {
        lemma_slot_sum_gap(c, s, first * s, first * s, e);
        assert(window_sum(g, 0, 0) == 0);
    } else {
        lemma_group_slot_sum(c, s, first, m, j - 1);
        assert((k - 1) * s <= k * s && first * s <= k * s) by (nonlinear_arith)
            requires
                first <= k,
                s >= 1,
        ;
        lemma_elem_slot(len, s, k - 1);
        assert((k - 1 + 1) * s == k * s);
        assert(elem_slot(len, s, k - 1) + 1 == k * s);
        lemma_slot_sum_gap(c, s, first * s, k * s, e);
    }
    assert(g[j] == c[e]);
}

/// Inclusive scan inside each dispatched work-group of `level`: the group
/// gathers its slots, scans them by Kogge-Stone passes, and writes them
/// back.
pub fn scan_kernel(count: &mut Vec<u32>, w: u32, level: u32, workgroups: u32)
    requires
        w >= 2,
        old(count)@.len() <= u32::MAX,
        level < scan_levels(old(count)@.len(), w as nat),
    ensures
        final(count)@ == scan_spec(old(count)@, w, level as nat, workgroups),
{
    let len = count.len();
    let (s, s1) = strides(w, level, len as u32);
    let ghost c = count@;
    let ghost target = scan_spec(c, w, level as nat, workgroups);
    let wl = w as u64;
    let n: u64 = (len as u64) / s + if (len as u64) % s != 0 {
        1
    } else {
        0
    };
    proof {
        crate::levels::lemma_div_ceil_by_parts(len as int, s as int);
        lemma_level_len_covers(len as int, s as int, n as int);
        assert(s1 == s * wl);
    }
    let mut g: u64 = 0;
    while g < workgroups as u64 && g * wl < n
        invariant
            len == count@.len(),
            len == c.len(),
            len <= u32::MAX,
            s == level_stride(w as nat, level as nat),
            s1 == level_stride(w as nat, level as nat + 1),
            s >= 1,
            s1 >= 1,
            s1 == s * wl,
            s <= u32::MAX,
            wl == w,
            w >= 2,
            n * s >= len,
            n >= 1 ==> (n - 1) * s < len,
            n <= len,
            g * wl <= n + wl,
            g <= workgroups,
            target == scan_spec(c, w, level as nat, workgroups),
            forall|i: int| 0 <= i < len && i / (s1 as int) < g ==> #[trigger] count@[i] == target[i],
            forall|i: int| 0 <= i < len && i / (s1 as int) >= g ==> #[trigger] count@[i] == c[i],
        decreases n + wl - g * wl,
    {
        let first = g * wl;
        let last = if first + wl < n {
            first + wl
        } else {
            n
        };
        let ghost m = (last - first) as int;
        assert((g + 1) * wl == g * wl + wl) by (nonlinear_arith);
        proof {
            assert((last - 1) * s < len) by (nonlinear_arith)
                requires
                    last <= n,
                    n >= 1 ==> (n - 1) * s < len,
                    first < n,
                    first < last,
                    s >= 1,
            ;
        }
        let mut temp: Vec<u32> = Vec::new();
        let mut k: u64 = first;
        while k < last
            invariant
                first <= k <= last,
                last <= n,
                last <= first + wl,
                (last - 1) * s < len,
                len == count@.len(),
                len == c.len(),
                len <= u32::MAX,
                s >= 1,
                s <= u32::MAX,
                wl >= 2,
                first == g * wl,
                s1 == s * wl,
                forall|i: int| 0 <= i < len && i / (s1 as int) >= g ==> #[trigger] count@[i] == c[i],
                temp@ == group_slots(c, s as int, first as int, (k - first) as int),
            decreases last - k,
        {
            proof {
                assert(k * s <= (last - 1) * s) by (nonlinear_arith)
                    requires
                        k <= last - 1,
                        s >= 1,
                ;
                lemma_elem_slot(len as int, s as int, k as int);
                lemma_slot_group(len as int, s as int, wl as int, k as int, g as int);
                assert((k + 1) * s <= u64::MAX) by (nonlinear_arith)
                    requires
                        k * s < len,
                        len <= u32::MAX,
                        s <= u32::MAX,
                ;
            }
            let slot: usize = if (k + 1) * s < len as u64 {
                ((k + 1) * s - 1) as usize
            } else {
                len - 1
            };
            assert(slot as int == elem_slot(len as int, s as int, k as int));
            assert(slot as int / (s1 as int) == g);
            assert(count@[slot as int] == c[slot as int]);
            let ghost prev = temp@;
            temp.push(count[slot]);
            proof {
                let gs = group_slots(c, s as int, first as int, (k + 1 - first) as int);
                assert(prev == group_slots(c, s as int, first as int, (k - first) as int));
                assert(gs.len() == temp@.len());
                assert(gs[(k - first) as int] == c[elem_slot(len as int, s as int, k as int)]);
                assert(temp@[(k - first) as int] == c[slot as int]);
                assert forall|t: int| 0 <= t < k - first implies #[trigger] gs[t] == temp@[t] by {
                    assert(prev[t] == temp@[t]);
                }
                assert(temp@ =~= group_slots(c, s as int, first as int, (k + 1 - first) as int));
            }
            k = k + 1;
        }
        let ghost gathered = temp@;
        kogge_stone_scan(&mut temp);
        let ghost before = count@;
        k = first;
        while k < last
            invariant
                first <= k <= last,
                last <= n,
                (last - 1) * s < len,
                len == count@.len(),
                len == before.len(),
                len == c.len(),
                len <= u32::MAX,
                s >= 1,
                s <= u32::MAX,
                first == g * wl,
                temp@.len() == last - first,
                forall|j: int|
                    0 <= j < last - first ==> #[trigger] temp@[j] == wrap32(
                        window_sum(gathered, 0, j + 1),
                    ),
                forall|i: int|
                    0 <= i < len && !(exists|k2: int|
                        first <= k2 < k && i == #[trigger] elem_slot(len as int, s as int, k2))
                        ==> #[trigger] count@[i] == before[i],
                forall|k2: int|
                    first <= k2 < k ==> count@[#[trigger] elem_slot(len as int, s as int, k2)]
                        == temp@[k2 - first],
            decreases last - k,
        {
            proof {
                assert(k * s <= (last - 1) * s) by (nonlinear_arith)
                    requires
                        k <= last - 1,
                        s >= 1,
                ;
                lemma_elem_slot(len as int, s as int, k as int);
                assert((k + 1) * s <= u64::MAX) by (nonlinear_arith)
                    requires
                        k * s < len,
                        len <= u32::MAX,
                        s <= u32::MAX,
                ;
            }
            let slot: usize = if (k + 1) * s < len as u64 {
                ((k + 1) * s - 1) as usize
            } else {
                len - 1
            };
            assert(slot as int == elem_slot(len as int, s as int, k as int));
            let ghost pre = count@;
            count.set(slot, temp[(k - first) as usize]);
            proof {
                assert forall|k2: int| first <= k2 < k implies elem_slot(len as int, s as int, k2)
                    != slot by {
                    assert(k2 * s <= (last - 1) * s) by (nonlinear_arith)
                        requires
                            k2 <= last - 1,
                            s >= 1,
                    ;
                    lemma_elem_slot(len as int, s as int, k2);
                    assert((k2 + 1) * s <= k * s) by (nonlinear_arith)
                        requires
                            k2 + 1 <= k,
                            s >= 1,
                    ;
                }
                assert forall|k2: int| first <= k2 < k + 1 implies count@[#[trigger] elem_slot(
                    len as int,
                    s as int,
                    k2,
                )] == temp@[k2 - first] by {
                    if k2 < k {
                        assert(k2 * s <= (last - 1) * s) by (nonlinear_arith)
                            requires
                                k2 <= last - 1,
                                s >= 1,
                        ;
                        lemma_elem_slot(len as int, s as int, k2);
                        assert(elem_slot(len as int, s as int, k2) != slot);
                        assert(pre[elem_slot(len as int, s as int, k2)] == temp@[k2 - first]);
                    } else {
                        assert(k2 == k);
                        assert(count@[slot as int] == temp@[(k - first) as int]);
                    }
                }
            }
            k = k + 1;
        }
        proof {
            assert(first * s == g * s1) by (nonlinear_arith)
                requires
                    first == g * wl,
                    s1 == s * wl,
            ;
            assert forall|i: int| 0 <= i < len && i / (s1 as int) < g + 1 implies #[trigger] count@[i]
                == target[i] by {
                if i / (s1 as int) < g {
                    assert forall|k2: int| first <= k2 < last implies i != #[trigger] elem_slot(
                        len as int,
                        s as int,
                        k2,
                    ) by {
                        assert(k2 * s <= (last - 1) * s) by (nonlinear_arith)
                            requires
                                k2 <= last - 1,
                                s >= 1,
                        ;
                        lemma_slot_group(len as int, s as int, wl as int, k2, g as int);
                    }
                    assert(count@[i] == before[i]);
                } else if is_slot(len as int, s as int, i) {
                    lemma_group_index(len as int, s as int, wl as int, i, g as int);
                    lemma_slot_is_elem_slot(len as int, s as int, i);
                    let k2 = i / (s as int);
                    assert(k2 < n) by (nonlinear_arith)
                        requires
                            k2 * s <= i,
                            i < len,
                            len <= n * s,
                            s >= 1,
                    ;
                    assert(first <= k2 < last);
                    assert(count@[elem_slot(len as int, s as int, k2)] == temp@[k2 - first]);
                    lemma_group_slot_sum(c, s as int, first as int, m, k2 - first);
                    assert(gathered == group_slots(c, s as int, first as int, m));
                    assert((i / (s1 as int)) * s1 == first * s);
                    assert(target[i] == wrap32(slot_sum(c, s as int, first * s, i + 1)));
                } else {
                    assert forall|k2: int| first <= k2 < last implies i != #[trigger] elem_slot(
                        len as int,
                        s as int,
                        k2,
                    ) by {
                        assert(k2 * s <= (last - 1) * s) by (nonlinear_arith)
                            requires
                                k2 <= last - 1,
                                s >= 1,
                        ;
                        lemma_elem_slot(len as int, s as int, k2);
                    }
                    assert(count@[i] == before[i]);
                }
            }
            assert forall|i: int| 0 <= i < len && i / (s1 as int) >= g + 1 implies #[trigger] count@[i]
                == c[i] by {
                assert forall|k2: int| first <= k2 < last implies i != #[trigger] elem_slot(
                    len as int,
                    s as int,
                    k2,
                ) by {
                    assert(k2 * s <= (last - 1) * s) by (nonlinear_arith)
                        requires
                            k2 <= last - 1,
                            s >= 1,
                    ;
                    lemma_elem_slot(len as int, s as int, k2);
                    lemma_slot_group(len as int, s as int, wl as int, k2, g as int);
                }
            }
        }
        g = g + 1;
    }
    proof {
        assert forall|i: int| 0 <= i < len implies #[trigger] count@[i] == target[i] by {
            if i / (s1 as int) >= g {
                lemma_block_start(i, s1 as int);
                if g < workgroups {
                    assert(g * s1 >= len) by (nonlinear_arith)
                        requires
                            g * wl >= n,
                            n * s >= len,
                            s1 == s * wl,
                            s >= 1,
                    ;
                    assert((i / (s1 as int)) * s1 >= g * s1) by (nonlinear_arith)
                        requires
                            i / (s1 as int) >= g,
                            s1 >= 1,
                    ;
                }
            }
        }
    }
    assert(count@ =~= target);
}

/// The number of elements of a level covers the array, and one fewer does
/// not.
proof fn lemma_level_len_covers(len: int, s: int, n: int)
    requires
        len >= 0,
        s >= 1,
        n == crate::levels::div_ceil(len, s),
    ensures
        n * s >= len,
        n >= 1 ==> (n - 1) * s < len,
        n <= len,
        n >= 0,
{
    let x = len + s - 1;
    lemma_fundamental_div_mod(x, s);
    lemma_mod_pos_bound(x, s);
    vstd::arithmetic::div_mod::lemma_div_pos_is_pos(x, s);
    assert(n * s >= len && (n >= 1 ==> (n - 1) * s < len)) by (nonlinear_arith)
        requires
            x == s * n + x % s,
            0 <= x % s < s,
            x == len + s - 1,
            s >= 1,
    ;
    if len == 0 {
        assert(n <= 0) by (nonlinear_arith)
            requires
                x == s * n + x % s,
                0 <= x % s < s,
                x == s - 1,
        ;
    } else {
        assert(n <= len) by (nonlinear_arith)
            requires
                n >= 1 ==> (n - 1) * s < len,
                s >= 1,
                len >= 1,
        ;
    }
}

/// The slot of element `k` lies in work-group `k / w` of the level above.
proof fn lemma_slot_group(len: int, s: int, w: int, k: int, g: int)
    requires
        s >= 1,
        w >= 1,
        0 <= k,
        k * s < len,
        g * w <= k < g * w + w,
    ensures
        elem_slot(len, s, k) / (s * w) == g,
{
    lemma_elem_slot(len, s, k);
    let e = elem_slot(len, s, k);
    vstd::arithmetic::div_mod::lemma_div_denominator(e, s, w);
    vstd::arithmetic::div_mod::lemma_fundamental_div_mod_converse(k, w, g, k - g * w);
}

/// An index in work-group `g` of the level above belongs to one of that
/// group's elements.
proof fn lemma_group_index(len: int, s: int, w: int, i: int, g: int)
    requires
        s >= 1,
        w >= 1,
        0 <= i < len,
        i / (s * w) == g,
    ensures
        g * w <= i / s < g * w + w,
{
    vstd::arithmetic::div_mod::lemma_div_denominator(i, s, w);
    vstd::arithmetic::div_mod::lemma_div_pos_is_pos(i, s);
    lemma_fundamental_div_mod(i / s, w);
    lemma_mod_pos_bound(i / s, w);
    assert(g * w == w * g) by (nonlinear_arith);
}

/// Adds the total of the preceding group to each slot of `level` that does
/// not end its group.
pub fn propagate_kernel(count: &mut Vec<u32>, w: u32, level: u32, workgroups: u32)
    requires
        w >= 2,
        old(count)@.len() <= u32::MAX,
        level < scan_levels(old(count)@.len(), w as nat),
    ensures
        final(count)@ == propagate_spec(old(count)@, w, level as nat, workgroups),
{
    let len = count.len();
    let (s, s1) = strides(w, level, len as u32);
    let ghost c = count@;
    let ghost target = propagate_spec(c, w, level as nat, workgroups);
    let mut i: usize = 0;
    while i < len
        invariant
            len == count@.len(),
            len == c.len(),
            len <= u32::MAX,
            i <= len,
            s == level_stride(w as nat, level as nat),
            s1 == level_stride(w as nat, level as nat + 1),
            s >= 1,
            s1 >= 1,
            target == propagate_spec(c, w, level as nat, workgroups),
            forall|j: int| 0 <= j < i ==> #[trigger] count@[j] == target[j],
            forall|j: int| i <= j < len ==> #[trigger] count@[j] == c[j],
        decreases len - i,
    {
        let iu = i as u64;
        let q = iu / s1;
        proof {
            lemma_block_start(i as int, s1 as int);
        }
        if ((iu + 1) % s == 0 || i + 1 == len) && !((iu + 1) % s1 == 0 || i + 1 == len) && 0 < q
            && q < workgroups as u64 {
            assert(q * s1 <= i);
            assert(q * s1 >= 1) by (nonlinear_arith)
                requires
                    q >= 1,
                    s1 >= 1,
            ;
            let src = (q * s1 - 1) as usize;
            proof {
                assert(is_slot(len as int, s1 as int, src as int));
                assert(count@[src as int] == target[src as int]);
                lemma_wrapping_add(count@[i as int], count@[src as int]);
            }
            let v = count[i].wrapping_add(count[src]);
            count.set(i, v);
        }
        i = i + 1;
    }
    assert(count@ =~= target);
}

/// Takes each counted value's index to its bucket's next free slot, from
/// the top of the bucket down.
pub fn sort_kernel(
    values: &Vec<u32>,
    count: &mut Vec<u32>,
    ids: &mut Vec<u32>,
    w: u32,
    workgroups: u32,
)
    requires
        values@.len() <= u32::MAX,
    ensures
        (final(count)@, final(ids)@) == scatter(
            values@,
            old(count)@,
            old(ids)@,
            invocations(values@.len() as int, w, workgroups) as nat,
        ),
        final(count)@.len() == old(count)@.len(),
        final(ids)@.len() == old(ids)@.len(),
{
    assert((workgroups as u64) * (w as u64) <= u64::MAX) by (nonlinear_arith)
        requires
            workgroups <= u32::MAX,
            w <= u32::MAX,
    ;
    let n: usize = if (workgroups as u64) * (w as u64) < values.len() as u64 {
        ((workgroups as u64) * (w as u64)) as usize
    } else {
        values.len()
    };
    assert(n == invocations(values@.len() as int, w, workgroups)) by (nonlinear_arith)
        requires
            n == (if (workgroups as u64) * (w as u64) < values.len() as u64 {
                ((workgroups as u64) * (w as u64)) as usize
            } else {
                values.len()
            }),
            workgroups * w <= u64::MAX,
    ;
    let mut i: usize = 0;
    while i < n
        invariant
            n <= values@.len(),
            values@.len() <= u32::MAX,
            i <= n,
            (count@, ids@) == scatter(values@, old(count)@, old(ids)@, i as nat),
            count@.len() == old(count)@.len(),
            ids@.len() == old(ids)@.len(),
        decreases n - i,
    {
        let b = values[i];
        if (b as usize) < count.len() {
            let c = count[b as usize];
            proof {
                lemma_wrapping_sub_one(c);
            }
            let slot = c.wrapping_sub(1);
            count.set(b as usize, slot);
            if (slot as usize) < ids.len() {
                ids.set(slot as usize, i as u32);
            }
        }
        i = i + 1;
    }
}

} // verus!
