//! Integer square and cube roots with exact rounding.
//!
//! The radicand of a square root is the fraction `n / DRAW_RANGE`; results
//! are characterised by inequalities between integers, so no rounding error
//! enters.

use crate::random_generator::DRAW_RANGE;
use vstd::prelude::*;

verus! {

/// `r` is `sqrt(n / d)` rounded to the nearest integer, a tie going up:
/// `r - 1/2 <= sqrt(n / d) < r + 1/2`.
pub open spec fn nearest_root_ties_up(r: int, n: int, d: int) -> bool {
    &&& r >= 0
    &&& r == 0 || (2 * r - 1) * (2 * r - 1) * d <= 4 * n
    &&& 4 * n < (2 * r + 1) * (2 * r + 1) * d
}

/// `r` is `sqrt(n / d)` rounded to the nearest integer, a tie going down:
/// `r - 1/2 < sqrt(n / d) <= r + 1/2`.
pub open spec fn nearest_root_ties_down(r: int, n: int, d: int) -> bool {
    &&& r >= 0
    &&& r == 0 || (2 * r - 1) * (2 * r - 1) * d < 4 * n
    &&& 4 * n <= (2 * r + 1) * (2 * r + 1) * d
}

/// `j` is the cube root of `m` rounded down: `j^3 <= m < (j + 1)^3`.
pub open spec fn cube_root_floor(j: int, m: int) -> bool {
    &&& j >= 0
    &&& j * j * j <= m
    &&& m < (j + 1) * (j + 1) * (j + 1)
}

/// The square of an odd number `2 r + 1`, scaled by `DRAW_RANGE`.
spec fn scaled_odd_square(r: int) -> int {
    (2 * r + 1) * (2 * r + 1) * DRAW_RANGE
}

proof fn lemma_scaled_odd_square_bound(r: int)
    requires
        0 <= r <= 0x1_0000_0000,
    ensures
        0 < scaled_odd_square(r) <= 0x2_0000_0001 * 0x2_0000_0001 * 0x100_0000,
        scaled_odd_square(r) < 0x1000_0000_0000_0000_0000_0000,
{
    assert((2 * r + 1) * (2 * r + 1) <= 0x2_0000_0001 * 0x2_0000_0001) by (nonlinear_arith)
        requires
            0 <= r <= 0x1_0000_0000,
    ;
    assert((2 * r + 1) * (2 * r + 1) > 0) by (nonlinear_arith)
        requires
            0 <= r,
    ;
    assert(scaled_odd_square(r) == ((2 * r + 1) * (2 * r + 1)) * 0x100_0000);
}

/// `(2 r + 1)^2 * DRAW_RANGE` as a machine integer.
fn odd_square(r: u64) -> (v: u128)
    requires
        r <= 0x1_0000_0000,
    ensures
        v == scaled_odd_square(r as int),
{
    proof {
        lemma_scaled_odd_square_bound(r as int);
        assert((2 * r + 1) * (2 * r + 1) <= 0x2_0000_0001 * 0x2_0000_0001) by (nonlinear_arith)
            requires
                0 <= r <= 0x1_0000_0000,
        ;
    }
    let w: u128 = 2 * (r as u128) + 1;
    let square: u128 = w * w;
    square * (DRAW_RANGE as u128)
}

/// At most one integer is the nearest root with ties going up.
pub proof fn lemma_nearest_root_ties_up_unique(r: int, s: int, n: int, d: int)
    requires
        d > 0,
        nearest_root_ties_up(r, n, d),
        nearest_root_ties_up(s, n, d),
    ensures
        r == s,
{
    if r < s {
        assert((2 * r + 1) * (2 * r + 1) * d <= (2 * s - 1) * (2 * s - 1) * d) by (nonlinear_arith)
            requires
                0 <= r,
                r + 1 <= s,
                d > 0,
        ;
    }
    if s < r {
        assert((2 * s + 1) * (2 * s + 1) * d <= (2 * r - 1) * (2 * r - 1) * d) by (nonlinear_arith)
            requires
                0 <= s,
                s + 1 <= r,
                d > 0,
        ;
    }
}

/// At most one integer is the nearest root with ties going down.
pub proof fn lemma_nearest_root_ties_down_unique(r: int, s: int, n: int, d: int)
    requires
        d > 0,
        nearest_root_ties_down(r, n, d),
        nearest_root_ties_down(s, n, d),
    ensures
        r == s,
{
    if r < s {
        assert((2 * r + 1) * (2 * r + 1) * d <= (2 * s - 1) * (2 * s - 1) * d) by (nonlinear_arith)
            requires
                0 <= r,
                r + 1 <= s,
                d > 0,
        ;
    }
    if s < r {
        assert((2 * s + 1) * (2 * s + 1) * d <= (2 * r - 1) * (2 * r - 1) * d) by (nonlinear_arith)
            requires
                0 <= s,
                s + 1 <= r,
                d > 0,
        ;
    }
}

/// At most one integer is the cube root rounded down.
pub proof fn lemma_cube_root_floor_unique(j: int, k: int, m: int)
    requires
        cube_root_floor(j, m),
        cube_root_floor(k, m),
    ensures
        j == k,
{
    if j < k {
        assert((j + 1) * (j + 1) * (j + 1) <= k * k * k) by (nonlinear_arith)
            requires
                0 <= j,
                j + 1 <= k,
        ;
    }
    if k < j {
        assert((k + 1) * (k + 1) * (k + 1) <= j * j * j) by (nonlinear_arith)
            requires
                0 <= k,
                k + 1 <= j,
        ;
    }
}

/// The square root of `n / DRAW_RANGE`, rounded to the nearest integer with
/// a tie going up. `limit` bounds the root from above.
pub fn rounded_root_ties_up(n: u128, limit: u32) -> (r: u32)
    requires
        n <= limit * limit * DRAW_RANGE,
    ensures
        nearest_root_ties_up(r as int, n as int, DRAW_RANGE as int),
        r <= limit,
{
    proof {
        assert(limit * limit * DRAW_RANGE <= 0xffff_ffff * 0xffff_ffff * 0x100_0000)
            by (nonlinear_arith)
            requires
                limit <= 0xffff_ffff,
                DRAW_RANGE == 0x100_0000,
        ;
        assert(4 * (limit * limit * DRAW_RANGE) < scaled_odd_square(limit as int))
            by (nonlinear_arith)
            requires
                limit >= 0,
                DRAW_RANGE == 0x100_0000,
                scaled_odd_square(limit as int) == (2 * limit + 1) * (2 * limit + 1) * DRAW_RANGE,
        ;
    }
    let target: u128 = 4 * n;
    let mut low: u64 = 0;
    let mut high: u64 = limit as u64 + 1;
    while high - low > 1
        invariant
            low < high <= limit + 1,
            target == 4 * n,
            low == 0 || scaled_odd_square(low - 1) <= target,
            target < scaled_odd_square(high - 1),
        decreases high - low,
    {
        let mid: u64 = low + (high - low) / 2;
        let bound: u128 = odd_square(mid - 1);
        if bound <= target {
            low = mid;
        } else {
            high = mid;
        }
    }
    proof {
        assert(scaled_odd_square(low - 1) == (2 * low - 1) * (2 * low - 1) * DRAW_RANGE);
        assert(scaled_odd_square(low as int) == (2 * low + 1) * (2 * low + 1) * DRAW_RANGE);
    }
    low as u32
}

/// The square root of `n / DRAW_RANGE`, rounded to the nearest integer with
/// a tie going down. `limit` bounds the root from above.
pub fn rounded_root_ties_down(n: u128, limit: u32) -> (r: u32)
    requires
        n <= limit * limit * DRAW_RANGE,
    ensures
        nearest_root_ties_down(r as int, n as int, DRAW_RANGE as int),
        r <= limit,
{
    proof {
        assert(limit * limit * DRAW_RANGE <= 0xffff_ffff * 0xffff_ffff * 0x100_0000)
            by (nonlinear_arith)
            requires
                limit <= 0xffff_ffff,
                DRAW_RANGE == 0x100_0000,
        ;
        assert(4 * (limit * limit * DRAW_RANGE) <= scaled_odd_square(limit as int))
            by (nonlinear_arith)
            requires
                limit >= 0,
                DRAW_RANGE == 0x100_0000,
                scaled_odd_square(limit as int) == (2 * limit + 1) * (2 * limit + 1) * DRAW_RANGE,
        ;
    }
    let target: u128 = 4 * n;
    if target <= odd_square(0) {
        return 0;
    }
    let mut low: u64 = 0;
    let mut high: u64 = limit as u64;
    while high - low > 1
        invariant
            low < high <= limit,
            target == 4 * n,
            scaled_odd_square(low as int) < target,
            target <= scaled_odd_square(high as int),
        decreases high - low,
    {
        let mid: u64 = low + (high - low) / 2;
        let bound: u128 = odd_square(mid);
        if target <= bound {
            high = mid;
        } else {
            low = mid;
        }
    }
    proof {
        assert(scaled_odd_square(high - 1) == (2 * high - 1) * (2 * high - 1) * DRAW_RANGE);
        assert(scaled_odd_square(high as int) == (2 * high + 1) * (2 * high + 1) * DRAW_RANGE);
    }
    high as u32
}

/// The cube root of `m`, rounded down, for `m` below `DRAW_RANGE^3`.
pub fn rounded_cube_root(m: u128) -> (j: u32)
    requires
        m < DRAW_RANGE * DRAW_RANGE * DRAW_RANGE,
    ensures
        cube_root_floor(j as int, m as int),
        j < DRAW_RANGE,
{
    let mut low: u64 = 0;
    let mut high: u64 = DRAW_RANGE as u64;
    proof {
        assert(DRAW_RANGE * DRAW_RANGE * DRAW_RANGE == 0x100_0000 * 0x100_0000 * 0x100_0000);
    }
    while high - low > 1
        invariant
            low < high <= DRAW_RANGE,
            low * low * low <= m,
            m < high * high * high,
        decreases high - low,
    {
        let mid: u64 = low + (high - low) / 2;
        proof {
            assert(mid * mid <= 0x100_0000 * 0x100_0000) by (nonlinear_arith)
                requires
                    0 <= mid <= 0x100_0000,
            ;
            assert(mid * mid * mid <= 0x100_0000 * 0x100_0000 * 0x100_0000) by (nonlinear_arith)
                requires
                    0 <= mid <= 0x100_0000,
            ;
        }
        let wide: u128 = mid as u128;
        let cube: u128 = wide * wide * wide;
        if cube <= m {
            low = mid;
        } else {
            high = mid;
        }
    }
    low as u32
}

} // verus!
