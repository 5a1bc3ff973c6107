//! Pure coordinate utilities: snapping world positions to the tile grid and
//! computing viewport corners from a center point and half-extents.

use vstd::prelude::*;

verus! {

use vstd::arithmetic::div_mod::{
    lemma_fundamental_div_mod,
    lemma_fundamental_div_mod_converse_mod,
    lemma_mod_division_less_than_divisor,
    lemma_mod_multiples_vanish,
};

/// A world coordinate lies exactly on a grid line of spacing `size`.
pub open spec fn aligned(p: int, size: int) -> bool {
    p % size == 0
}

/// The grid line at or below `p`, for grid spacing `size`. Spec `%` is
/// Euclidean, so for positive `size` the remainder is non-negative and this
/// floors to the lower grid line also for negative `p`.
pub open spec fn snapped(p: int, size: int) -> int {
    p - (p % size)
}

/// Snapping yields an aligned coordinate no more than one grid cell below `p`.
pub proof fn lemma_snapped_properties(p: int, size: int)
    requires
        size > 0,
    ensures
        aligned(snapped(p, size), size),
        snapped(p, size) <= p < snapped(p, size) + size,
        snapped(p, size) == size * (p / size),
{
    lemma_fundamental_div_mod(p, size);
    lemma_mod_division_less_than_divisor(p, size);
    assert(size * (p / size) == (p / size) * size + 0) by (nonlinear_arith);
    lemma_fundamental_div_mod_converse_mod(size * (p / size), size, p / size, 0);
}

/// An aligned coordinate stays aligned when any whole number of grid cells
/// is added to it.
pub proof fn lemma_aligned_add_multiple(a: int, k: int, size: int)
    requires
        size > 0,
        aligned(a, size),
    ensures
        aligned(a + k * size, size),
{
    lemma_mod_multiples_vanish(k, a, size);
    assert(k * size + a == a + k * size);
}

/// The aligned coordinate within one cell below `p` is exactly `snapped(p)`:
/// grid cells partition the world.
pub proof fn lemma_snapped_unique(p: int, a: int, size: int)
    requires
        size > 0,
        aligned(a, size),
        a <= p < a + size,
    ensures
        snapped(p, size) == a,
{
    lemma_fundamental_div_mod(a, size);
    let q = a / size;
    assert(a == size * q);
    assert(p == q * size + (p - a)) by (nonlinear_arith)
        requires
            a == size * q,
    ;
    lemma_fundamental_div_mod_converse_mod(p, size, q, p - a);
}

/// Snapping is monotonic: a coordinate further along never snaps to an
/// earlier grid line.
pub proof fn lemma_snapped_monotonic(p: int, x: int, size: int)
    requires
        size > 0,
        p <= x,
    ensures
        snapped(p, size) <= snapped(x, size),
{
    lemma_snapped_properties(p, size);
    lemma_snapped_properties(x, size);
    vstd::arithmetic::div_mod::lemma_div_is_ordered(p, x, size);
    vstd::arithmetic::mul::lemma_mul_inequality(p / size, x / size, size);
    vstd::arithmetic::mul::lemma_mul_is_commutative(p / size, size);
    vstd::arithmetic::mul::lemma_mul_is_commutative(x / size, size);
}

/// An aligned coordinate at most `x` is at most the snapped `x`: snapping
/// never skips over a grid line.
pub proof fn lemma_aligned_le_snapped(p: int, x: int, size: int)
    requires
        size > 0,
        aligned(p, size),
        p <= x,
    ensures
        p <= snapped(x, size),
{
    lemma_snapped_monotonic(p, x, size);
}

/// Moving a coordinate by whole grid cells moves its snapped value by
/// exactly the same amount.
pub proof fn lemma_snapped_shift(x: int, k: int, size: int)
    requires
        size > 0,
    ensures
        snapped(x + k * size, size) == snapped(x, size) + k * size,
{
    lemma_mod_multiples_vanish(k, x, size);
    assert(size * k == k * size) by (nonlinear_arith);
    assert((x + k * size) % size == x % size);
}

/// Two aligned coordinates within two grid cells of each other are either
/// equal or exactly one cell apart.
pub proof fn lemma_aligned_within_two(a: int, b: int, size: int)
    requires
        size > 0,
        aligned(a, size),
        aligned(b, size),
        b - 2 * size < a <= b,
    ensures
        a == b || a == b - size,
{
    lemma_aligned_add_multiple(b, -2, size);
    assert(b + (-2) * size == b - 2 * size) by (nonlinear_arith);
    lemma_aligned_add_multiple(b, -1, size);
    assert(b + (-1) * size == b - size) by (nonlinear_arith);
    if a < b - size {
        lemma_snapped_unique(a, b - 2 * size, size);
        assert(snapped(a, size) == a);
    } else if a < b {
        lemma_snapped_unique(a, b - size, size);
        assert(snapped(a, size) == a);
    }
}

/// Floors `p` to the nearest lower grid line, with floor-division semantics
/// also for negative coordinates.
pub fn snap_to_grid(p: i64, size: i64) -> (r: i64)
    requires
        size > 0,
        p >= i64::MIN + size,
    ensures
        r == snapped(p as int, size as int),
        aligned(r as int, size as int),
        r <= p < r + size,
{
    proof {
        lemma_snapped_properties(p as int, size as int);
    }
    let rem = p % size;
    let rem = if rem < 0 {
        proof {
            let pi = p as int;
            let si = size as int;
            lemma_fundamental_div_mod(-pi, si);
            lemma_mod_division_less_than_divisor(-pi, si);
            let q0 = (-pi) / si;
            let r0 = (-pi) % si;
            assert(pi == (-q0 - 1) * si + (si - r0)) by (nonlinear_arith)
                requires
                    -pi == si * q0 + r0,
            ;
            lemma_fundamental_div_mod_converse_mod(pi, si, -q0 - 1, si - r0);
        }
        rem + size
    } else {
        proof {
            let pi = p as int;
            let si = size as int;
            if pi < 0 {
                lemma_fundamental_div_mod(-pi, si);
                lemma_mod_division_less_than_divisor(-pi, si);
                let q0 = (-pi) / si;
                assert(pi == (-q0) * si + 0) by (nonlinear_arith)
                    requires
                        -pi == si * q0,
                ;
                lemma_fundamental_div_mod_converse_mod(pi, si, -q0, 0);
            }
        }
        rem
    };
    p - rem
}

/// The corners of an axis-aligned viewport rectangle, as the four edge
/// coordinates (top-right and bottom-left corners).
pub struct Corners {
    pub right: i64,
    pub top: i64,
    pub left: i64,
    pub bottom: i64,
}

/// The viewport rectangle around `(cx, cy)` with the given half-extents.
pub fn viewport_corners(cx: i64, cy: i64, half_w: i64, half_h: i64) -> (c: Corners)
    requires
        half_w >= 0,
        half_h >= 0,
        cx + half_w <= i64::MAX,
        cy + half_h <= i64::MAX,
        cx - half_w >= i64::MIN,
        cy - half_h >= i64::MIN,
    ensures
        c.right == cx + half_w,
        c.top == cy + half_h,
        c.left == cx - half_w,
        c.bottom == cy - half_h,
{
    Corners { right: cx + half_w, top: cy + half_h, left: cx - half_w, bottom: cy - half_h }
}

} // verus!
