//! Per-tile lighting: blends a base ambient tint with falloff contributions
//! from point light sources. A light contributes its full color within its
//! inner range, nothing beyond its maximum range, and a linearly decreasing
//! share in between; channels saturate at `CHANNEL_SCALE` and never wrap.

use vstd::prelude::*;

verus! {

use vstd::arithmetic::div_mod::{
    lemma_div_is_ordered,
    lemma_div_pos_is_pos,
    lemma_div_multiples_vanish,
    lemma_multiply_divide_lt,
};
use vstd::arithmetic::mul::{
    lemma_mul_by_zero_is_zero,
    lemma_mul_inequality,
    lemma_mul_is_commutative,
    lemma_mul_strict_inequality,
};
use crate::color::{clamp_channel, clamped_add, Color, CHANNEL_SCALE};
use crate::grid::aligned;
use crate::light::LightSource;
use crate::registry::{
    live,
    positions_distinct,
    tile_of,
    tiles_aligned,
    tiles_bounded,
    TileRecord,
    TileRegistry,
};
use crate::COORD_LIMIT;

/// Largest squared distance between two points whose coordinates lie within
/// `COORD_LIMIT`; it fits comfortably in `i64` and `u64`.
pub const MAX_DIST_SQ: u64 = 8_000_000_000_000_000_000;

/// Exclusive upper bound on any integer square root this module computes:
/// its square exceeds `MAX_DIST_SQ`, and squaring it does not overflow `u64`.
const SQRT_CAP: u64 = 3_000_000_000;

/// Squared Euclidean distance between two points.
pub open spec fn dist_sq(ax: int, ay: int, bx: int, by: int) -> int {
    (ax - bx) * (ax - bx) + (ay - by) * (ay - by)
}

pub proof fn lemma_dist_sq_nonneg(ax: int, ay: int, bx: int, by: int)
    ensures
        dist_sq(ax, ay, bx, by) >= 0,
{
    assert((ax - bx) * (ax - bx) >= 0) by (nonlinear_arith);
    assert((ay - by) * (ay - by) >= 0) by (nonlinear_arith);
}

/// The integer square root: the largest `r` with `r * r <= n`.
pub open spec fn floor_sqrt(n: nat) -> nat
    decreases n,
{
    if n == 0 {
        0
    } else {
        let r = floor_sqrt((n - 1) as nat);
        if (r + 1) * (r + 1) <= n {
            r + 1
        } else {
            r
        }
    }
}

/// `floor_sqrt(n)` squares to at most `n`, and is the largest such number.
pub proof fn lemma_floor_sqrt_bounds(n: nat)
    ensures
        floor_sqrt(n) * floor_sqrt(n) <= n,
        n < (floor_sqrt(n) + 1) * (floor_sqrt(n) + 1),
    decreases n,
{
    if n == 0 {
        assert(floor_sqrt(0) == 0);
        assert(n < (floor_sqrt(n) + 1) * (floor_sqrt(n) + 1)) by (nonlinear_arith)
            requires
                n == 0,
                floor_sqrt(n) == 0,
        ;
    } else {
        lemma_floor_sqrt_bounds((n - 1) as nat);
        let r = floor_sqrt((n - 1) as nat);
        assert(r * r <= n - 1 && n - 1 < (r + 1) * (r + 1));
        assert(floor_sqrt(n) == if (r + 1) * (r + 1) <= n {
            r + 1
        } else {
            r
        });
        if (r + 1) * (r + 1) <= n {
            assert(floor_sqrt(n) == r + 1);
            assert(n <= (r + 1) * (r + 1));
            assert((r + 1) * (r + 1) < (r + 1 + 1) * (r + 1 + 1)) by (nonlinear_arith)
                requires
                    r >= 0,
            ;
        } else {
            assert(floor_sqrt(n) == r);
            assert(r * r <= n);
            assert(n < (r + 1) * (r + 1));
        }
    }
}

/// Any `r` bracketing `n` between `r * r` and `(r + 1) * (r + 1)` is the
/// integer square root: the bracketing determines it.
pub proof fn lemma_floor_sqrt_unique(n: nat, r: int)
    requires
        0 <= r,
        r * r <= n,
        n < (r + 1) * (r + 1),
    ensures
        r == floor_sqrt(n) as int,
{
    lemma_floor_sqrt_bounds(n);
    let f = floor_sqrt(n) as int;
    if r < f {
        assert((r + 1) * (r + 1) <= f * f) by (nonlinear_arith)
            requires
                0 <= r,
                r + 1 <= f,
        ;
    } else if f < r {
        assert((f + 1) * (f + 1) <= r * r) by (nonlinear_arith)
            requires
                0 <= f,
                f + 1 <= r,
        ;
    }
}

/// The integer square root is monotonic.
pub proof fn lemma_floor_sqrt_monotonic(n1: nat, n2: nat)
    requires
        n1 <= n2,
    ensures
        floor_sqrt(n1) <= floor_sqrt(n2),
{
    lemma_floor_sqrt_bounds(n1);
    lemma_floor_sqrt_bounds(n2);
    let f1 = floor_sqrt(n1) as int;
    let f2 = floor_sqrt(n2) as int;
    if f2 < f1 {
        assert((f2 + 1) * (f2 + 1) <= f1 * f1) by (nonlinear_arith)
            requires
                0 <= f2,
                f2 + 1 <= f1,
        ;
    }
}

/// The integer square root reaches a non-negative threshold `m` exactly when
/// the radicand reaches `m * m`.
pub proof fn lemma_floor_sqrt_threshold(n: nat, m: int)
    requires
        m >= 0,
    ensures
        floor_sqrt(n) as int >= m <==> n >= m * m,
{
    lemma_floor_sqrt_bounds(n);
    let f = floor_sqrt(n) as int;
    if n >= m * m {
        if f < m {
            assert((f + 1) * (f + 1) <= m * m) by (nonlinear_arith)
                requires
                    0 <= f,
                    f + 1 <= m,
            ;
        }
    }
    if f >= m {
        assert(m * m <= f * f) by (nonlinear_arith)
            requires
                0 <= m <= f,
        ;
    }
}

/// Computes the integer square root by binary search.
pub fn isqrt(n: u64) -> (r: u64)
    requires
        n <= MAX_DIST_SQ,
    ensures
        r as nat == floor_sqrt(n as nat),
        r * r <= n < (r + 1) * (r + 1),
{
    let mut lo: u64 = 0;
    let mut hi: u64 = SQRT_CAP;
    while lo + 1 < hi
        invariant
            lo < hi <= SQRT_CAP,
            lo * lo <= n,
            n < hi * hi,
        decreases hi - lo,
    {
        let mid = lo + (hi - lo) / 2;
        proof {
            assert(mid * mid < SQRT_CAP * SQRT_CAP) by (nonlinear_arith)
                requires
                    0 <= mid < SQRT_CAP,
            ;
        }
        if mid * mid <= n {
            lo = mid;
        } else {
            hi = mid;
        }
    }
    proof {
        lemma_floor_sqrt_unique(n as nat, lo as int);
    }
    lo
}

/// The fixed-point share (0 to `CHANNEL_SCALE`) a light at distance `dist`
/// contributes: full within `inner`, zero from `max` outward, and linear
/// falloff in between.
pub open spec fn falloff_permille(dist: int, inner: int, max: int) -> int {
    if dist >= max {
        0
    } else if dist <= inner {
        CHANNEL_SCALE as int
    } else {
        (max - dist) * (CHANNEL_SCALE as int) / (max - inner)
    }
}

/// The falloff share always lies in `[0, CHANNEL_SCALE]`.
pub proof fn lemma_falloff_bounds(dist: int, inner: int, max: int)
    requires
        0 <= inner < max,
    ensures
        0 <= falloff_permille(dist, inner, max) <= CHANNEL_SCALE,
{
    if inner < dist < max {
        let num = (max - dist) * (CHANNEL_SCALE as int);
        let den = max - inner;
        lemma_mul_inequality(0, max - dist, CHANNEL_SCALE as int);
        lemma_mul_by_zero_is_zero(CHANNEL_SCALE as int);
        lemma_div_pos_is_pos(num, den);
        lemma_mul_strict_inequality(max - dist, max - inner, CHANNEL_SCALE as int);
        lemma_mul_is_commutative(max - inner, CHANNEL_SCALE as int);
        lemma_multiply_divide_lt(num, den, CHANNEL_SCALE as int);
    }
}

/// The falloff share never increases with distance, is the full share within
/// the inner range, and is exactly zero from the maximum range outward.
pub proof fn lemma_falloff_monotonic(d1: int, d2: int, inner: int, max: int)
    requires
        0 <= inner < max,
        d1 <= d2,
    ensures
        falloff_permille(d2, inner, max) <= falloff_permille(d1, inner, max),
        d2 <= inner ==> falloff_permille(d2, inner, max) == CHANNEL_SCALE,
        d2 >= max ==> falloff_permille(d2, inner, max) == 0,
{
    lemma_falloff_bounds(d1, inner, max);
    lemma_falloff_bounds(d2, inner, max);
    if inner < d1 && d2 < max {
        let den = max - inner;
        assert((max - d2) * (CHANNEL_SCALE as int) <= (max - d1) * (CHANNEL_SCALE as int)) by {
            lemma_mul_inequality(max - d2, max - d1, CHANNEL_SCALE as int);
        }
        lemma_div_is_ordered(
            (max - d2) * (CHANNEL_SCALE as int),
            (max - d1) * (CHANNEL_SCALE as int),
            den,
        );
    }
}

/// The distance used by the lighting model: the integer square root of the
/// squared Euclidean distance between the tile and the light.
pub open spec fn light_distance(l: LightSource, px: int, py: int) -> int {
    floor_sqrt(dist_sq(px, py, l.x as int, l.y as int) as nat) as int
}

/// One channel scaled by a fixed-point share.
pub open spec fn scaled_channel(ch: u32, f: int) -> u32 {
    (ch * f / (CHANNEL_SCALE as int)) as u32
}

/// The color a single light adds to a tile: its color scaled by the falloff
/// share at the tile's distance.
pub open spec fn contribution(l: LightSource, px: int, py: int) -> Color {
    let f = falloff_permille(light_distance(l, px, py), l.inner_range as int, l.max_range as int);
    Color {
        red: scaled_channel(l.color.red, f),
        green: scaled_channel(l.color.green, f),
        blue: scaled_channel(l.color.blue, f),
    }
}

/// A scaled channel of a well-formed color is exact and bounded: the full
/// share returns the channel unchanged, a zero share returns zero, and the
/// result never exceeds the channel.
pub proof fn lemma_scaled_channel_bounds(ch: u32, f: int)
    requires
        ch <= CHANNEL_SCALE,
        0 <= f <= CHANNEL_SCALE,
    ensures
        scaled_channel(ch, f) <= ch,
        ch * f / (CHANNEL_SCALE as int) == scaled_channel(ch, f),
        f == CHANNEL_SCALE ==> scaled_channel(ch, f) == ch,
        f == 0 ==> scaled_channel(ch, f) == 0,
{
    let s = CHANNEL_SCALE as int;
    lemma_mul_inequality(f, s, ch as int);
    lemma_mul_is_commutative(f, ch as int);
    lemma_mul_is_commutative(s, ch as int);
    assert(ch * f <= ch * s);
    lemma_div_is_ordered(ch * f, ch * s, s);
    lemma_div_multiples_vanish(ch as int, s);
    assert(ch * s == s * ch);
    assert(ch * s / s == ch);
    assert(ch * f >= 0) by (nonlinear_arith)
        requires
            f >= 0,
    ;
    lemma_div_pos_is_pos(ch * f, s);
}

/// A scaled channel is monotonic in the share.
pub proof fn lemma_scaled_channel_monotonic(ch: u32, f1: int, f2: int)
    requires
        ch <= CHANNEL_SCALE,
        0 <= f1 <= f2 <= CHANNEL_SCALE,
    ensures
        scaled_channel(ch, f1) <= scaled_channel(ch, f2),
{
    let s = CHANNEL_SCALE as int;
    lemma_scaled_channel_bounds(ch, f1);
    lemma_scaled_channel_bounds(ch, f2);
    lemma_mul_inequality(f1, f2, ch as int);
    lemma_mul_is_commutative(f1, ch as int);
    lemma_mul_is_commutative(f2, ch as int);
    lemma_div_is_ordered(ch * f1, ch * f2, s);
}

/// The lit color of a tile position: the ambient base, plus every light's
/// contribution in turn, each channel saturating at `CHANNEL_SCALE`.
pub open spec fn lit_color(ambient: Color, lights: Seq<LightSource>, px: int, py: int) -> Color
    decreases lights.len(),
{
    if lights.len() == 0 {
        ambient
    } else {
        clamped_add(
            lit_color(ambient, lights.drop_last(), px, py),
            contribution(lights.last(), px, py),
        )
    }
}

/// Every channel of a lit color stays within `[0, CHANNEL_SCALE]`, whatever
/// the lights are: lighting saturates instead of wrapping.
pub proof fn lemma_lighting_saturates(
    ambient: Color,
    lights: Seq<LightSource>,
    px: int,
    py: int,
)
    requires
        ambient.wf(),
    ensures
        lit_color(ambient, lights, px, py).wf(),
    decreases lights.len(),
{
    if lights.len() > 0 {
        lemma_lighting_saturates(ambient, lights.drop_last(), px, py);
    }
}

/// The unclamped channel totals of all contributions, for relating the
/// saturating fold to the plain sum.
pub open spec fn contribution_sums(lights: Seq<LightSource>, px: int, py: int) -> (int, int, int)
    decreases lights.len(),
{
    if lights.len() == 0 {
        (0, 0, 0)
    } else {
        let rest = contribution_sums(lights.drop_last(), px, py);
        let last = contribution(lights.last(), px, py);
        (rest.0 + last.red, rest.1 + last.green, rest.2 + last.blue)
    }
}

/// Contribution totals are never negative.
pub proof fn lemma_contribution_sums_nonneg(lights: Seq<LightSource>, px: int, py: int)
    ensures
        contribution_sums(lights, px, py).0 >= 0,
        contribution_sums(lights, px, py).1 >= 0,
        contribution_sums(lights, px, py).2 >= 0,
    decreases lights.len(),
{
    if lights.len() > 0 {
        lemma_contribution_sums_nonneg(lights.drop_last(), px, py);
    }
}

/// The saturating fold computes exactly the ambient-plus-total-contribution
/// sum of each channel, clamped once at the end: per-step saturation loses
/// nothing because contributions are never negative.
pub proof fn lemma_lit_color_is_clamped_sum(
    ambient: Color,
    lights: Seq<LightSource>,
    px: int,
    py: int,
)
    requires
        ambient.wf(),
    ensures
        lit_color(ambient, lights, px, py).red == clamp_channel(
            ambient.red + contribution_sums(lights, px, py).0,
        ),
        lit_color(ambient, lights, px, py).green == clamp_channel(
            ambient.green + contribution_sums(lights, px, py).1,
        ),
        lit_color(ambient, lights, px, py).blue == clamp_channel(
            ambient.blue + contribution_sums(lights, px, py).2,
        ),
    decreases lights.len(),
{
    if lights.len() == 0 {
    } else {
        let rest = lights.drop_last();
        lemma_lit_color_is_clamped_sum(ambient, rest, px, py);
        lemma_contribution_sums_nonneg(rest, px, py);
        let prev = lit_color(ambient, rest, px, py);
        let last = contribution(lights.last(), px, py);
        assert(lit_color(ambient, lights, px, py) == clamped_add(prev, last));
        assert(contribution_sums(lights, px, py).0 == contribution_sums(rest, px, py).0
            + last.red);
        assert(contribution_sums(lights, px, py).1 == contribution_sums(rest, px, py).1
            + last.green);
        assert(contribution_sums(lights, px, py).2 == contribution_sums(rest, px, py).2
            + last.blue);
        assert(prev.red == clamp_channel(ambient.red + contribution_sums(rest, px, py).0));
        assert(clamp_channel(prev.red + last.red) == clamp_channel(
            ambient.red + contribution_sums(rest, px, py).0 + last.red,
        ));
        assert(clamp_channel(prev.green + last.green) == clamp_channel(
            ambient.green + contribution_sums(rest, px, py).1 + last.green,
        ));
        assert(clamp_channel(prev.blue + last.blue) == clamp_channel(
            ambient.blue + contribution_sums(rest, px, py).2 + last.blue,
        ));
    }
}

/// Computes the color a single light adds to the tile at `(px, py)`.
pub fn light_contribution(l: &LightSource, px: i64, py: i64) -> (c: Color)
    requires
        l.wf(),
        -COORD_LIMIT <= px <= COORD_LIMIT,
        -COORD_LIMIT <= py <= COORD_LIMIT,
    ensures
        c == contribution(*l, px as int, py as int),
        c.wf(),
{
    let dx = px - l.x;
    let dy = py - l.y;
    proof {
        assert(dx * dx >= 0 && dx * dx <= 4_000_000_000_000_000_000) by (nonlinear_arith)
            requires
                -2_000_000_000 <= dx <= 2_000_000_000,
        ;
        assert(dy * dy >= 0 && dy * dy <= 4_000_000_000_000_000_000) by (nonlinear_arith)
            requires
                -2_000_000_000 <= dy <= 2_000_000_000,
        ;
    }
    let dsq = (dx * dx + dy * dy) as u64;
    let d = isqrt(dsq);
    let f = falloff(d, l.inner_range, l.max_range);
    proof {
        lemma_falloff_bounds(d as int, l.inner_range as int, l.max_range as int);
        lemma_scaled_channel_bounds(l.color.red, f as int);
        lemma_scaled_channel_bounds(l.color.green, f as int);
        lemma_scaled_channel_bounds(l.color.blue, f as int);
    }
    Color {
        red: (l.color.red as u64 * f as u64 / CHANNEL_SCALE as u64) as u32,
        green: (l.color.green as u64 * f as u64 / CHANNEL_SCALE as u64) as u32,
        blue: (l.color.blue as u64 * f as u64 / CHANNEL_SCALE as u64) as u32,
    }
}

/// Computes the falloff share of a light with the given ranges at distance
/// `dist`.
pub fn falloff(dist: u64, inner: i64, max: i64) -> (f: u32)
    requires
        0 <= inner < max <= COORD_LIMIT,
    ensures
        f == falloff_permille(dist as int, inner as int, max as int),
        f <= CHANNEL_SCALE,
{
    proof {
        lemma_falloff_bounds(dist as int, inner as int, max as int);
    }
    if dist >= max as u64 {
        0
    } else if dist <= inner as u64 {
        CHANNEL_SCALE
    } else {
        let di = dist as i64;
        let num = (max - di) * (CHANNEL_SCALE as i64);
        let q = num / (max - inner);
        q as u32
    }
}

/// One light's contribution never grows with the squared distance to the
/// tile, is the light's full color within the inner range, and is exactly
/// zero from the maximum range outward.
pub proof fn lemma_contribution_monotonic(
    l: LightSource,
    p1x: int,
    p1y: int,
    p2x: int,
    p2y: int,
)
    requires
        l.wf(),
        dist_sq(p1x, p1y, l.x as int, l.y as int) <= dist_sq(p2x, p2y, l.x as int, l.y as int),
    ensures
        contribution(l, p2x, p2y).red <= contribution(l, p1x, p1y).red,
        contribution(l, p2x, p2y).green <= contribution(l, p1x, p1y).green,
        contribution(l, p2x, p2y).blue <= contribution(l, p1x, p1y).blue,
{
    let n1 = dist_sq(p1x, p1y, l.x as int, l.y as int);
    let n2 = dist_sq(p2x, p2y, l.x as int, l.y as int);
    lemma_dist_sq_nonneg(p1x, p1y, l.x as int, l.y as int);
    lemma_dist_sq_nonneg(p2x, p2y, l.x as int, l.y as int);
    lemma_floor_sqrt_monotonic(n1 as nat, n2 as nat);
    let d1 = light_distance(l, p1x, p1y);
    let d2 = light_distance(l, p2x, p2y);
    lemma_falloff_monotonic(d1, d2, l.inner_range as int, l.max_range as int);
    lemma_falloff_bounds(d1, l.inner_range as int, l.max_range as int);
    lemma_falloff_bounds(d2, l.inner_range as int, l.max_range as int);
    let f1 = falloff_permille(d1, l.inner_range as int, l.max_range as int);
    let f2 = falloff_permille(d2, l.inner_range as int, l.max_range as int);
    lemma_scaled_channel_monotonic(l.color.red, f2, f1);
    lemma_scaled_channel_monotonic(l.color.green, f2, f1);
    lemma_scaled_channel_monotonic(l.color.blue, f2, f1);
}

/// At a squared distance of at most the inner range squared, a light
/// contributes exactly its color; from the maximum range squared outward it
/// contributes exactly nothing.
pub proof fn lemma_contribution_extremes(l: LightSource, px: int, py: int)
    requires
        l.wf(),
    ensures
        dist_sq(px, py, l.x as int, l.y as int) <= l.inner_range * l.inner_range ==> contribution(
            l,
            px,
            py,
        ) == l.color,
        dist_sq(px, py, l.x as int, l.y as int) >= l.max_range * l.max_range ==> contribution(
            l,
            px,
            py,
        ) == (Color { red: 0, green: 0, blue: 0 }),
{
    let n = dist_sq(px, py, l.x as int, l.y as int);
    lemma_dist_sq_nonneg(px, py, l.x as int, l.y as int);
    let d = light_distance(l, px, py);
    let f = falloff_permille(d, l.inner_range as int, l.max_range as int);
    if n <= l.inner_range * l.inner_range {
        lemma_floor_sqrt_threshold(n as nat, l.inner_range + 1);
        assert((l.inner_range + 1) * (l.inner_range + 1) > l.inner_range * l.inner_range)
            by (nonlinear_arith)
            requires
                l.inner_range >= 0,
        ;
        assert(d <= l.inner_range);
        assert(f == CHANNEL_SCALE as int);
        lemma_scaled_channel_bounds(l.color.red, f);
        lemma_scaled_channel_bounds(l.color.green, f);
        lemma_scaled_channel_bounds(l.color.blue, f);
    }
    if n >= l.max_range * l.max_range {
        lemma_floor_sqrt_threshold(n as nat, l.max_range as int);
        assert(d >= l.max_range);
        assert(f == 0);
        lemma_scaled_channel_bounds(l.color.red, f);
        lemma_scaled_channel_bounds(l.color.green, f);
        lemma_scaled_channel_bounds(l.color.blue, f);
    }
}

/// What the lighting pass leaves of one registry slot: a live tile keeps
/// its place and texture and gets the lit color of its position as tint.
pub open spec fn relit_slot(
    slot: Option<TileRecord>,
    lights: Seq<LightSource>,
    ambient: Color,
) -> Option<TileRecord> {
    match slot {
        None => None,
        Some(t) => Some(
            TileRecord {
                x: t.x,
                y: t.y,
                texture_index: t.texture_index,
                tint: lit_color(ambient, lights, t.x as int, t.y as int),
            },
        ),
    }
}

/// The lighting pass: writes to every live tile the lit color of its
/// position under all lights over the ambient base, and changes nothing
/// else of the registry.
pub fn update_lighting(reg: &mut TileRegistry, lights: &Vec<LightSource>, ambient: Color)
    requires
        ambient.wf(),
        forall|i: int| 0 <= i < lights@.len() ==> #[trigger] lights@[i].wf(),
        tiles_bounded(old(reg)@),
    ensures
        final(reg)@.len() == old(reg)@.len(),
        forall|h: int|
            0 <= h < old(reg)@.len() ==> final(reg)@[h] == relit_slot(
                #[trigger] old(reg)@[h],
                lights@,
                ambient,
            ),
        tiles_bounded(final(reg)@),
        forall|tw: int, th: int|
            #[trigger] tiles_aligned(old(reg)@, tw, th) ==> tiles_aligned(final(reg)@, tw, th),
        positions_distinct(old(reg)@) ==> positions_distinct(final(reg)@),
{
    let n = reg.len();
    let ghost reg0 = reg@;
    let mut i: usize = 0;
    while i < n
        invariant
            ambient.wf(),
            forall|j: int| 0 <= j < lights@.len() ==> #[trigger] lights@[j].wf(),
            tiles_bounded(reg0),
            n == reg0.len(),
            reg@.len() == reg0.len(),
            i <= n,
            forall|h: int|
                0 <= h < i ==> reg@[h] == relit_slot(#[trigger] reg0[h], lights@, ambient),
            forall|h: int| i <= h < n ==> reg@[h] == reg0[h],
        decreases n - i,
    {
        match reg.get(i) {
            Some(t) => {
                proof {
                    assert(live(reg0, i as int) && tile_of(reg0, i as int) == t);
                }
                let c = evaluate(t.x, t.y, lights, ambient);
                reg.set_tint(i, c);
            },
            None => {},
        }
        i = i + 1;
    }
    proof {
        assert forall|h: int| live(reg@, h) implies live(reg0, h) && tile_of(reg@, h).x == tile_of(
            reg0,
            h,
        ).x && tile_of(reg@, h).y == tile_of(reg0, h).y by {
            assert(reg@[h] == relit_slot(reg0[h], lights@, ambient));
        }
        assert forall|h: int| live(reg@, h) implies -COORD_LIMIT <= #[trigger] tile_of(reg@, h).x
            <= COORD_LIMIT && -COORD_LIMIT <= tile_of(reg@, h).y <= COORD_LIMIT by {
            assert(reg@[h] == relit_slot(reg0[h], lights@, ambient));
            assert(live(reg0, h));
            assert(-COORD_LIMIT <= tile_of(reg0, h).x <= COORD_LIMIT);
        }
        if positions_distinct(reg0) {
            assert forall|i: int, j: int| live(reg@, i) && live(reg@, j) && i != j implies !(
            tile_of(reg@, i).x == tile_of(reg@, j).x && tile_of(reg@, i).y == tile_of(
                reg@,
                j,
            ).y) by {
                assert(reg@[i] == relit_slot(reg0[i], lights@, ambient));
                assert(reg@[j] == relit_slot(reg0[j], lights@, ambient));
                assert(live(reg0, i) && live(reg0, j));
                assert(!(tile_of(reg0, i).x == tile_of(reg0, j).x && tile_of(reg0, i).y
                    == tile_of(reg0, j).y));
            }
        }
        assert forall|tw: int, th: int| #[trigger] tiles_aligned(reg0, tw, th) implies
            tiles_aligned(reg@, tw, th) by {
            assert forall|h: int| live(reg@, h) implies aligned(
                #[trigger] tile_of(reg@, h).x as int,
                tw,
            ) && aligned(tile_of(reg@, h).y as int, th) by {
                assert(live(reg0, h));
                assert(aligned(tile_of(reg0, h).x as int, tw));
            }
        }
    }
}

/// Evaluates the lit color of the tile at `(px, py)` under all lights over
/// the ambient base.
pub fn evaluate(px: i64, py: i64, lights: &Vec<LightSource>, ambient: Color) -> (c: Color)
    requires
        -COORD_LIMIT <= px <= COORD_LIMIT,
        -COORD_LIMIT <= py <= COORD_LIMIT,
        ambient.wf(),
        forall|i: int| 0 <= i < lights@.len() ==> #[trigger] lights@[i].wf(),
    ensures
        c == lit_color(ambient, lights@, px as int, py as int),
        c.wf(),
{
    let mut c = ambient;
    let mut i: usize = 0;
    while i < lights.len()
        invariant
            i <= lights@.len(),
            -COORD_LIMIT <= px <= COORD_LIMIT,
            -COORD_LIMIT <= py <= COORD_LIMIT,
            ambient.wf(),
            forall|j: int| 0 <= j < lights@.len() ==> #[trigger] lights@[j].wf(),
            c == lit_color(ambient, lights@.take(i as int), px as int, py as int),
        decreases lights@.len() - i,
    {
        let added = light_contribution(&lights[i], px, py);
        c = c.saturating_add(added);
        proof {
            let taken = lights@.take(i + 1int);
            assert(taken.drop_last() =~= lights@.take(i as int));
            assert(taken.last() == lights@[i as int]);
        }
        i = i + 1;
    }
    proof {
        assert(lights@.take(lights@.len() as int) =~= lights@);
    }
    c
}

} // verus!
