//! Geometry of the hierarchical scan: how many levels a count buffer needs
//! and how many work-groups each level dispatches.
use vstd::arithmetic::div_mod::{
    lemma_basic_div, lemma_div_denominator, lemma_div_pos_is_pos, lemma_fundamental_div_mod,
    lemma_hoist_over_denominator, lemma_mod_pos_bound,
};
use vstd::prelude::*;

verus! {

/// `x / d` rounded up.
pub open spec fn div_ceil(x: int, d: int) -> int {
    (x + d - 1) / d
}

/// Number of level-0 elements that one element of `level` stands for:
/// the work-group width to the power `level`.
pub open spec fn level_stride(w: nat, level: nat) -> nat
    decreases level,
{
    if level == 0 {
        1
    } else {
        level_stride(w, (level - 1) as nat) * w
    }
}

/// Number of scan levels for an array of `size` elements: one level, plus
/// the levels of the array of per-group totals while a level has at least
/// one full work-group.
pub open spec fn scan_levels(size: nat, w: nat) -> nat
    decreases size,
    via scan_levels_decreases
{
    if w < 2 || size < w {
        1
    } else {
        1 + scan_levels(size / w, w)
    }
}

#[via_fn]
proof fn scan_levels_decreases(size: nat, w: nat) {
    if !(w < 2 || size < w) {
        lemma_div_step(size, w);
    }
}

/// Dividing by a width of at least two: the quotient is zero exactly below
/// the width, and otherwise at least one and at most half the dividend.
pub proof fn lemma_div_step(size: nat, w: nat)
    requires
        w >= 2,
    ensures
        size < w <==> size / w == 0,
        size >= w ==> 1 <= size / w && 2 * (size / w) <= size,
{
    lemma_fundamental_div_mod(size as int, w as int);
    lemma_mod_pos_bound(size as int, w as int);
    lemma_div_pos_is_pos(size as int, w as int);
    let q = size / w;
    let r = size % w;
    if size < w {
        lemma_basic_div(size as int, w as int);
    } else {
        assert(1 <= q && 2 * q <= size) by (nonlinear_arith)
            requires
                size == w * q + r,
                0 <= r < w,
                size >= w,
                w >= 2,
                q >= 0,
        ;
    }
    if q == 0 {
        assert(size < w) by (nonlinear_arith)
            requires
                size == w * q + r,
                0 <= r < w,
                q == 0,
        ;
    }
}

/// Number of elements at `level` for a count array of `size` elements.
pub open spec fn level_len(size: nat, w: nat, level: nat) -> int {
    div_ceil(size as int, level_stride(w, level) as int)
}

/// Work-groups that `level` dispatches: one per `w` elements of that level.
pub open spec fn level_workgroups(size: nat, w: nat, level: nat) -> int {
    div_ceil(size as int, level_stride(w, level + 1) as int)
}

pub proof fn lemma_stride_positive(w: nat, level: nat)
    requires
        w >= 1,
    ensures
        level_stride(w, level) >= 1,
    decreases level,
{
    if level > 0 {
        lemma_stride_positive(w, (level - 1) as nat);
        assert(level_stride(w, (level - 1) as nat) * w >= 1) by (nonlinear_arith)
            requires
                level_stride(w, (level - 1) as nat) >= 1,
                w >= 1,
        ;
    }
}

pub proof fn lemma_stride_monotonic(w: nat, a: nat, b: nat)
    requires
        w >= 1,
        a <= b,
    ensures
        level_stride(w, a) <= level_stride(w, b),
    decreases b - a,
{
    if a < b {
        lemma_stride_monotonic(w, a, (b - 1) as nat);
        let s = level_stride(w, (b - 1) as nat);
        assert(s <= s * w) by (nonlinear_arith)
            requires
                w >= 1,
        ;
    }
}

/// Rounding up twice is rounding up once by the product.
pub proof fn lemma_div_ceil_nested(x: int, a: int, b: int)
    requires
        x >= 0,
        a > 0,
        b > 0,
    ensures
        div_ceil(div_ceil(x, a), b) == div_ceil(x, a * b),
{
    let y = x + a - 1;
    lemma_hoist_over_denominator(y, b - 1, a as nat);
    assert((b - 1) * a == a * b - a) by (nonlinear_arith);
    lemma_div_denominator(y + (b - 1) * a, a, b);
}

/// Rounding `x / d` up by hand, as integer code does it without overflow.
pub proof fn lemma_div_ceil_by_parts(x: int, d: int)
    requires
        x >= 0,
        d > 0,
    ensures
        div_ceil(x, d) == x / d + (if x % d != 0 {
            1int
        } else {
            0int
        }),
{
    lemma_fundamental_div_mod(x, d);
    lemma_mod_pos_bound(x, d);
    let q = x / d;
    let r = x % d;
    if r == 0 {
        lemma_hoist_over_denominator(d - 1, q, d as nat);
        lemma_basic_div(d - 1, d);
        assert(q * d == d * q) by (nonlinear_arith);
    } else {
        lemma_hoist_over_denominator(r - 1, q + 1, d as nat);
        lemma_basic_div(r - 1, d);
        assert((q + 1) * d == d * q + d) by (nonlinear_arith);
    }
}

/// The level count is the number of base-`w` digits of `size` (at least one):
/// `size` fits below `w^levels` and, with more than one level, not below
/// `w^(levels - 1)`.
pub proof fn lemma_scan_levels_bounds(size: nat, w: nat)
    requires
        w >= 2,
    ensures
        scan_levels(size, w) >= 1,
        size < level_stride(w, scan_levels(size, w)),
        scan_levels(size, w) > 1 ==> level_stride(w, (scan_levels(size, w) - 1) as nat)
            <= size,
    decreases size,
{
    let l = scan_levels(size, w);
    if size >= w {
        let q = size / w;
        lemma_div_step(size, w);
        lemma_fundamental_div_mod(size as int, w as int);
        lemma_mod_pos_bound(size as int, w as int);
        lemma_scan_levels_bounds(q, w);
        let m = scan_levels(q, w);
        lemma_stride_rest(w, m);
        let sm = level_stride(w, m);
        assert(w * q + w <= sm * w) by (nonlinear_arith)
            requires
                q + 1 <= sm,
        ;
        if m > 1 {
            lemma_stride_rest(w, (m - 1) as nat);
            let sp = level_stride(w, (m - 1) as nat);
            assert(sp * w <= size) by (nonlinear_arith)
                requires
                    size == w * q + size % w,
                    size % w >= 0,
                    sp <= q,
            ;
        } else {
            assert(level_stride(w, 1) == w) by {
                reveal_with_fuel(level_stride, 2);
            }
        }
    } else {
        assert(level_stride(w, 1) == w) by {
            reveal_with_fuel(level_stride, 2);
        }
    }
}

/// One more level multiplies the stride by `w`.
pub proof fn lemma_stride_rest(w: nat, level: nat)
    ensures
        level_stride(w, level + 1) == level_stride(w, level) * w,
{
}

/// A level count never exceeds the size it is computed for (nor one).
pub proof fn lemma_scan_levels_small(size: nat, w: nat)
    requires
        w >= 2,
    ensures
        scan_levels(size, w) <= if size == 0 {
            1
        } else {
            size
        },
    decreases size,
{
    if size >= w {
        let q = size / w;
        lemma_div_step(size, w);
        lemma_scan_levels_small(q, w);
    }
}

/// Counts the scan-then-propagate levels needed to scan `size` elements with
/// work-groups of `workgroup_size` invocations.
pub fn scan_then_propagate_level_count(size: u32, workgroup_size: u32) -> (count: u32)
    requires
        workgroup_size >= 2,
    ensures
        count == scan_levels(size as nat, workgroup_size as nat),
{
    let w = workgroup_size;
    let mut count: u32 = 1;
    let mut temp_size: u32 = size / w;
    proof {
        lemma_scan_levels_small(size as nat, w as nat);
        lemma_div_step(size as nat, w as nat);
    }
    while temp_size > 0
        invariant
            w >= 2,
            count >= 1,
            scan_levels(size as nat, w as nat) <= if size == 0 {
                1
            } else {
                size as nat
            },
            temp_size == 0 ==> count == scan_levels(size as nat, w as nat),
            temp_size > 0 ==> count + scan_levels(temp_size as nat, w as nat) == scan_levels(
                size as nat,
                w as nat,
            ),
        decreases temp_size,
    {
        proof {
            lemma_scan_levels_small(temp_size as nat, w as nat);
            lemma_div_step(temp_size as nat, w as nat);
        }
        count = count + 1;
        temp_size = temp_size / w;
    }
    count
}

/// Number of work-groups that each of the first `level` scan levels
/// dispatches, level 0 first: element `i` is `size / w^(i + 1)` rounded up.
pub fn workgroup_size_per_level(size: u32, workgroup_size: u32, level: u32) -> (sizes: Vec<u32>)
    requires
        workgroup_size >= 1,
    ensures
        sizes@.len() == level,
        forall|i: int|
            0 <= i < level ==> #[trigger] sizes@[i] == level_workgroups(
                size as nat,
                workgroup_size as nat,
                i as nat,
            ),
{
    let w = workgroup_size;
    let mut sizes: Vec<u32> = Vec::new();
    let mut x: u32 = size;
    let mut i: u32 = 0;
    proof {
        assert(div_ceil(size as int, 1) == size) by {
            lemma_hoist_over_denominator(0, size as int, 1);
        }
    }
    while i < level
        invariant
            w >= 1,
            i <= level,
            sizes@.len() == i,
            x as int == level_len(size as nat, w as nat, i as nat),
            forall|j: int|
                0 <= j < i ==> #[trigger] sizes@[j] == level_workgroups(
                    size as nat,
                    w as nat,
                    j as nat,
                ),
        decreases level - i,
    {
        proof {
            let s = level_stride(w as nat, i as nat);
            lemma_stride_positive(w as nat, i as nat);
            lemma_stride_rest(w as nat, i as nat);
            lemma_div_ceil_nested(size as int, s as int, w as int);
            lemma_div_ceil_by_parts(x as int, w as int);
            lemma_div_pos_is_pos(x as int, w as int);
            assert(x as int / w as int <= x) by (nonlinear_arith)
                requires
                    w >= 1,
                    x >= 0,
            ;
        }
        let rem: u32 = if x % w != 0 {
            1
        } else {
            0
        };
        proof {
            if rem == 1 {
                lemma_fundamental_div_mod(x as int, w as int);
                assert(x as int / w as int + 1 <= x) by (nonlinear_arith)
                    requires
                        x == w * (x as int / w as int) + x % w,
                        x % w >= 1,
                        x as int / w as int >= 0,
                        w >= 1,
                ;
            }
        }
        x = x / w + rem;
        sizes.push(x);
        i = i + 1;
    }
    sizes
}

} // verus!
