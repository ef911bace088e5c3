//! Why scanning each level bottom-up and then propagating top-down leaves
//! the inclusive running sum of the histogram in the count buffer.
//!
//! Level `l` has stride `w^l`: its elements are the slots that end a block
//! of `w^l` counts (or end the buffer). After the scans of the first `l`
//! levels each index holds the sum of the counts from its `scan_base` up to
//! itself; after the propagations down to level `l`, each slot of that level
//! holds the whole running sum.
use crate::correctness::{bucket_prefix, keys_below, lemma_prefix_monotone, lemma_prefix_total};
use crate::kernels::{
    is_slot, lemma_block_start, lemma_wrap_small, propagate_spec, scan_spec, slot_sum,
};
use crate::levels::{
    div_ceil, lemma_scan_levels_bounds, lemma_stride_positive, lemma_stride_rest, level_stride,
    level_workgroups, scan_levels,
};
use vstd::arithmetic::div_mod::{
    lemma_basic_div, lemma_div_is_ordered, lemma_hoist_over_denominator, lemma_mod_mod,
    lemma_mod_multiples_basic,
};
use vstd::prelude::*;

verus! {

/// Where the sum held at index `i` starts once the first `level` levels of
/// an array of `len` counts are scanned.
pub open spec fn scan_base(len: int, w: nat, level: nat, i: int) -> int
    decreases level,
{
    if level == 0 {
        i
    } else {
        let s = level_stride(w, (level - 1) as nat) as int;
        let s1 = level_stride(w, level) as int;
        if is_slot(len, s, i) {
            (i / s1) * s1
        } else {
            scan_base(len, w, (level - 1) as nat, i)
        }
    }
}

/// `c` is the count buffer after the scans of the first `level` levels.
pub open spec fn scanned(values: Seq<u32>, w: nat, level: nat, c: Seq<u32>) -> bool {
    forall|i: int|
        0 <= i < c.len() ==> #[trigger] c[i] == bucket_prefix(values, i + 1) - bucket_prefix(
            values,
            scan_base(c.len() as int, w, level, i),
        )
}

/// `c` is the count buffer after the propagations down to `level`, the
/// scans having covered `top` levels: the slots of `level` hold the running
/// sum, the other indices still hold their scanned sums.
pub open spec fn propagated(values: Seq<u32>, w: nat, top: nat, level: nat, c: Seq<u32>) -> bool {
    forall|i: int|
        0 <= i < c.len() ==> #[trigger] c[i] == bucket_prefix(values, i + 1) - bucket_prefix(
            values,
            if is_slot(c.len() as int, level_stride(w, level) as int, i) {
                0
            } else {
                scan_base(c.len() as int, w, top, i)
            },
        )
}

/// A slot of a level is a slot of every level below it.
pub proof fn lemma_slot_below(len: int, w: nat, a: nat, b: nat, i: int)
    requires
        w >= 1,
        a <= b,
        is_slot(len, level_stride(w, b) as int, i),
    ensures
        is_slot(len, level_stride(w, a) as int, i),
    decreases b - a,
{
    if a < b && i != len - 1 {
        let sb = level_stride(w, (b - 1) as nat) as int;
        lemma_stride_positive(w, (b - 1) as nat);
        lemma_stride_rest(w, (b - 1) as nat);
        lemma_mod_mod(i + 1, sb, w as int);
        lemma_slot_below(len, w, a, (b - 1) as nat, i);
    }
}

/// A slot of `level` starts its sum at the start of its own block.
pub proof fn lemma_slot_base(len: int, w: nat, level: nat, j: int)
    requires
        w >= 1,
        j >= 0,
        is_slot(len, level_stride(w, level) as int, j),
    ensures
        scan_base(len, w, level, j) == (j / level_stride(w, level) as int) * level_stride(
            w,
            level,
        ) as int,
{
    if level == 0 {
        assert(level_stride(w, 0) == 1);
        assert(j / 1 == j);
    } else {
        lemma_slot_below(len, w, (level - 1) as nat, level, j);
    }
}

/// Summing the stride-`s` slots from a block start telescopes to a
/// difference of running sums.
pub proof fn lemma_slot_sum_telescopes(values: Seq<u32>, c: Seq<u32>, s: int, a: int, x: int)
    requires
        s >= 1,
        0 <= a <= x <= c.len(),
        a % s == 0,
        forall|j: int|
            a <= j < x && is_slot(c.len() as int, s, j) ==> #[trigger] c[j] == bucket_prefix(
                values,
                j + 1,
            ) - bucket_prefix(values, (j / s) * s),
    ensures
        slot_sum(c, s, a, x) == (if x == c.len() {
            bucket_prefix(values, c.len() as int)
        } else {
            bucket_prefix(values, (x / s) * s)
        }) - bucket_prefix(values, a),
    decreases x - a,
{
    let len = c.len() as int;
    if x == a {
        lemma_block_start(a, s);
    } else {
        lemma_slot_sum_telescopes(values, c, s, a, x - 1);
        lemma_block_start(x, s);
        lemma_block_start(x - 1, s);
        if is_slot(len, s, x - 1) {
            assert(c[x - 1] == bucket_prefix(values, x) - bucket_prefix(values, ((x - 1) / s) * s));
        }
    }
}

/// An index below `len` lies in one of the `len / s1` (rounded up) groups.
pub proof fn lemma_index_in_dispatch(i: int, len: int, s1: int)
    requires
        0 <= i < len,
        s1 >= 1,
    ensures
        i / s1 < div_ceil(len, s1),
{
    lemma_div_is_ordered(i + s1, len + s1 - 1, s1);
    lemma_hoist_over_denominator(i, 1, s1 as nat);
}

/// There are no more groups than elements.
pub proof fn lemma_groups_fit(len: int, s1: int)
    requires
        0 <= len,
        s1 >= 1,
    ensures
        0 <= div_ceil(len, s1) <= len,
{
    let x = len + s1 - 1;
    vstd::arithmetic::div_mod::lemma_fundamental_div_mod(x, s1);
    vstd::arithmetic::div_mod::lemma_mod_pos_bound(x, s1);
    vstd::arithmetic::div_mod::lemma_div_pos_is_pos(x, s1);
    let q = x / s1;
    if len == 0 {
        lemma_basic_div(s1 - 1, s1);
    } else {
        assert(q <= len) by (nonlinear_arith)
            requires
                x == s1 * q + x % s1,
                x % s1 >= 0,
                x == len + s1 - 1,
                len >= 1,
                s1 >= 1,
        ;
    }
}

/// A multiple of the stride above is a multiple of the stride.
proof fn lemma_block_start_aligned(i: int, s: int, w: int)
    requires
        i >= 0,
        s >= 1,
        w >= 1,
    ensures
        ((i / (s * w)) * (s * w)) % s == 0,
{
    let q = i / (s * w);
    assert((q * (s * w)) == (q * w) * s) by (nonlinear_arith);
    lemma_mod_multiples_basic(q * w, s);
}

/// One scan turns the state after `level` scans into the state after
/// `level + 1`.
pub proof fn lemma_scan_step(values: Seq<u32>, c: Seq<u32>, w: u32, level: nat)
    requires
        w >= 2,
        values.len() <= u32::MAX,
        keys_below(values, c.len() as int),
        c.len() <= u32::MAX,
        level < scan_levels(c.len(), w as nat),
        scanned(values, w as nat, level, c),
    ensures
        scanned(
            values,
            w as nat,
            level + 1,
            scan_spec(c, w, level, level_workgroups(c.len(), w as nat, level) as u32),
        ),
{
    let len = c.len() as int;
    let wn = w as nat;
    let s = level_stride(wn, level) as int;
    let s1 = level_stride(wn, level + 1) as int;
    let wg = level_workgroups(c.len(), wn, level);
    lemma_stride_positive(wn, level);
    lemma_stride_rest(wn, level);
    lemma_prefix_total(values, len);
    lemma_stride_positive(wn, level + 1);
    lemma_groups_fit(len, s1);
    let n = scan_spec(c, w, level, wg as u32);
    assert forall|i: int| 0 <= i < len implies #[trigger] n[i] == bucket_prefix(values, i + 1)
        - bucket_prefix(values, scan_base(len, wn, level + 1, i)) by {
        if is_slot(len, s, i) {
            let base = (i / s1) * s1;
            lemma_index_in_dispatch(i, len, s1);
            lemma_block_start(i, s1);
            lemma_block_start(i + 1, s);
            lemma_block_start_aligned(i, s, w as int);
            assert forall|j: int|
                base <= j < i + 1 && is_slot(len, s, j) implies #[trigger] c[j] == bucket_prefix(
                values,
                j + 1,
            ) - bucket_prefix(values, (j / s) * s) by {
                lemma_slot_base(len, wn, level, j);
            }
            lemma_slot_sum_telescopes(values, c, s, base, i + 1);
            lemma_prefix_monotone(values, base, i + 1);
            lemma_prefix_monotone(values, i + 1, len);
            lemma_prefix_monotone(values, 0, base);
            lemma_wrap_small(slot_sum(c, s, base, i + 1));
        }
    }
}

/// After all scans, the slots of the top level hold the running sum.
pub proof fn lemma_scans_done(values: Seq<u32>, c: Seq<u32>, w: u32)
    requires
        w >= 2,
        scanned(values, w as nat, scan_levels(c.len(), w as nat), c),
    ensures
        propagated(
            values,
            w as nat,
            scan_levels(c.len(), w as nat),
            (scan_levels(c.len(), w as nat) - 1) as nat,
            c,
        ),
{
    let len = c.len() as int;
    let wn = w as nat;
    let top = scan_levels(c.len(), wn);
    lemma_scan_levels_bounds(c.len(), wn);
    let st = level_stride(wn, top) as int;
    assert forall|i: int| 0 <= i < len implies #[trigger] c[i] == bucket_prefix(values, i + 1)
        - bucket_prefix(
        values,
        if is_slot(len, level_stride(wn, (top - 1) as nat) as int, i) {
            0
        } else {
            scan_base(len, wn, top, i)
        },
    ) by {
        if is_slot(len, level_stride(wn, (top - 1) as nat) as int, i) {
            lemma_basic_div(i, st);
            assert(scan_base(len, wn, top, i) == 0);
        }
    }
}

/// An index that is a slot of `level - 1` but not of `level` keeps the base
/// that the scan of `level - 1` gave it through all higher scans.
pub proof fn lemma_base_of_group_inner(len: int, w: nat, level: nat, top: nat, i: int)
    requires
        w >= 1,
        1 <= level <= top,
        is_slot(len, level_stride(w, (level - 1) as nat) as int, i),
        !is_slot(len, level_stride(w, level) as int, i),
    ensures
        scan_base(len, w, top, i) == (i / level_stride(w, level) as int) * level_stride(
            w,
            level,
        ) as int,
    decreases top - level,
{
    if top > level {
        lemma_base_of_group_inner(len, w, level, (top - 1) as nat, i);
        if is_slot(len, level_stride(w, (top - 1) as nat) as int, i) {
            lemma_slot_below(len, w, level, (top - 1) as nat, i);
        }
    }
}

/// An index that is no slot of `level` keeps its scanned base.
proof fn lemma_base_of_non_slot(len: int, w: nat, level: nat, top: nat, i: int)
    requires
        w >= 1,
        level <= top,
        !is_slot(len, level_stride(w, level) as int, i),
    ensures
        scan_base(len, w, top, i) == scan_base(len, w, level, i),
    decreases top - level,
{
    if top > level {
        lemma_base_of_non_slot(len, w, level, (top - 1) as nat, i);
        if is_slot(len, level_stride(w, (top - 1) as nat) as int, i) {
            lemma_slot_below(len, w, level, (top - 1) as nat, i);
        }
    }
}

/// One propagation carries the running sum from the slots of `level` to
/// those of `level - 1`.
pub proof fn lemma_propagate_step(values: Seq<u32>, c: Seq<u32>, w: u32, level: nat)
    requires
        w >= 2,
        values.len() <= u32::MAX,
        keys_below(values, c.len() as int),
        c.len() <= u32::MAX,
        1 <= level < scan_levels(c.len(), w as nat),
        propagated(values, w as nat, scan_levels(c.len(), w as nat), level, c),
    ensures
        propagated(
            values,
            w as nat,
            scan_levels(c.len(), w as nat),
            (level - 1) as nat,
            propagate_spec(
                c,
                w,
                (level - 1) as nat,
                level_workgroups(c.len(), w as nat, (level - 1) as nat) as u32,
            ),
        ),
{
    let len = c.len() as int;
    let wn = w as nat;
    let top = scan_levels(c.len(), wn);
    let lower = (level - 1) as nat;
    let s = level_stride(wn, lower) as int;
    let s1 = level_stride(wn, level) as int;
    let wg = level_workgroups(c.len(), wn, lower);
    lemma_stride_positive(wn, lower);
    lemma_stride_rest(wn, lower);
    lemma_prefix_total(values, len);
    lemma_stride_positive(wn, level);
    lemma_groups_fit(len, s1);
    let n = propagate_spec(c, w, lower, wg as u32);
    assert forall|i: int| 0 <= i < len implies #[trigger] n[i] == bucket_prefix(values, i + 1)
        - bucket_prefix(
        values,
        if is_slot(len, s, i) {
            0
        } else {
            scan_base(len, wn, top, i)
        },
    ) by {
        lemma_index_in_dispatch(i, len, s1);
        lemma_block_start(i, s1);
        if is_slot(len, s, i) {
            if !is_slot(len, s1, i) {
                lemma_base_of_group_inner(len, wn, level, top, i);
                let start = (i / s1) * s1;
                lemma_prefix_monotone(values, start, i + 1);
                lemma_prefix_monotone(values, i + 1, len);
                lemma_prefix_monotone(values, 0, start);
                if i / s1 > 0 {
                    assert(start >= 1) by (nonlinear_arith)
                        requires
                            start == (i / s1) * s1,
                            i / s1 >= 1,
                            s1 >= 1,
                    ;
                    let src = start - 1;
                    assert(is_slot(len, s1, src));
                    assert(c[src] == bucket_prefix(values, start));
                    lemma_wrap_small(bucket_prefix(values, i + 1));
                } else {
                    assert(start == 0) by (nonlinear_arith)
                        requires
                            start == (i / s1) * s1,
                            i / s1 == 0,
                    ;
                }
            }
        } else {
            if is_slot(len, s1, i) {
                lemma_slot_below(len, wn, lower, level, i);
            }
        }
    }
}

} // verus!
