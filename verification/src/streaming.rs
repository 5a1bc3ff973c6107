//! The streaming core: each tick it culls tiles that fell a tolerance
//! margin behind the viewport (pass A), then spawns bands of new tiles just
//! beyond the edges the viewpoint advanced over (pass B), using one anchor
//! per axis to skip edges the viewpoint has not crossed a whole tile since.

use vstd::prelude::*;

verus! {

use crate::color::{Color, CHANNEL_SCALE};
use crate::grid::{aligned, snap_to_grid, snapped};
use crate::registry::{
    has_tile_at,
    live,
    positions_distinct,
    tile_of,
    tiles_aligned,
    tiles_bounded,
    TileRecord,
    TileRegistry,
};
use crate::selector::TileTextureSelector;
use crate::COORD_LIMIT;

/// Bound on the magnitude of the viewpoint position.
pub const VIEW_LIMIT: i64 = 500_000_000;

/// Bound on the viewport half-extents.
pub const EXTENT_LIMIT: i64 = 1_000_000;

/// Bound on the despawn tolerance margin.
pub const TOLERANCE_LIMIT: i64 = 1_000_000;

/// Bound on the tile size.
pub const TILE_SIZE_LIMIT: i64 = 100_000;

/// Bound on the extra safety tiles added to each band end.
pub const EXTRA_LIMIT: i64 = 100;

/// The fixed parameters of the streamed grid: tile size, the margin a tile
/// must fall behind the viewport before it is despawned, and the safety
/// tiles added to each end of a spawned band.
#[derive(Clone, Copy, Debug, PartialEq, Eq, Structural)]
pub struct StreamConfig {
    pub tile_w: i64,
    pub tile_h: i64,
    pub tolerance: i64,
    pub extra_tiles: i64,
}

impl StreamConfig {
    /// Positive tile sizes and non-negative margins, all within the machine
    /// bounds that keep every coordinate this module computes in range.
    pub open spec fn wf(self) -> bool {
        &&& 0 < self.tile_w <= TILE_SIZE_LIMIT
        &&& 0 < self.tile_h <= TILE_SIZE_LIMIT
        &&& 0 <= self.tolerance <= TOLERANCE_LIMIT
        &&& 0 <= self.extra_tiles <= EXTRA_LIMIT
    }
}

/// The per-tick input: the tracked viewpoint position and the viewport
/// half-extents, handed in by the camera and window collaborators.
#[derive(Clone, Copy, Debug, PartialEq, Eq, Structural)]
pub struct TickContext {
    pub vx: i64,
    pub vy: i64,
    pub half_w: i64,
    pub half_h: i64,
}

impl TickContext {
    /// Coordinates and extents within the machine bounds.
    pub open spec fn wf(self) -> bool {
        &&& -VIEW_LIMIT <= self.vx <= VIEW_LIMIT
        &&& -VIEW_LIMIT <= self.vy <= VIEW_LIMIT
        &&& -EXTENT_LIMIT <= self.half_w <= EXTENT_LIMIT
        &&& -EXTENT_LIMIT <= self.half_h <= EXTENT_LIMIT
    }
}

/// A nonsensical viewport size, as a window collaborator may report during
/// a resize: the tick must spawn and despawn nothing and keep its state.
pub open spec fn degenerate(ctx: TickContext) -> bool {
    ctx.half_w <= 0 || ctx.half_h <= 0
}

/// A tile position far enough outside the viewport to be culled: beyond the
/// corners of the viewport grown by the tolerance, by more than the
/// tolerance again. The doubled margin is the hysteresis band that keeps
/// boundary tiles from flickering when the viewpoint oscillates.
pub open spec fn out_of_view(tx: int, ty: int, ctx: TickContext, tol: int) -> bool {
    ||| tx > ctx.vx + ctx.half_w + tol + tol
    ||| tx < ctx.vx - ctx.half_w - tol - tol
    ||| ty > ctx.vy + ctx.half_h + tol + tol
    ||| ty < ctx.vy - ctx.half_h - tol - tol
}

/// What the despawn pass leaves of one slot: cleared when its tile is out
/// of view, untouched otherwise.
pub open spec fn culled_slot(slot: Option<TileRecord>, ctx: TickContext, tol: int) -> Option<
    TileRecord,
> {
    match slot {
        None => None,
        Some(t) => if out_of_view(t.x as int, t.y as int, ctx, tol) {
            None
        } else {
            Some(t)
        },
    }
}

/// Slot `j` holds a tile of the row `y_row` with x within `[x_lo, x_hi]`.
pub open spec fn row_member(
    s: Seq<Option<TileRecord>>,
    j: int,
    y_row: int,
    x_lo: int,
    x_hi: int,
) -> bool {
    live(s, j) && tile_of(s, j).y == y_row && x_lo <= tile_of(s, j).x <= x_hi
}

/// Slot `j` holds a tile of the column `x_col` with y within `[y_lo, y_hi]`.
pub open spec fn col_member(
    s: Seq<Option<TileRecord>>,
    j: int,
    x_col: int,
    y_lo: int,
    y_hi: int,
) -> bool {
    live(s, j) && tile_of(s, j).x == x_col && y_lo <= tile_of(s, j).y <= y_hi
}

/// Spawns a tile in every grid cell of the row `y_row` whose x-coordinate
/// lies in `[x_lo, x_hi]` and does not already hold one: cells are walked
/// from the aligned `x_lo` in tile-size steps, so afterwards the whole
/// segment is covered without a gap and without a duplicate.
#[verifier::rlimit(60)]
pub fn spawn_row(
    reg: &mut TileRegistry,
    selector: &TileTextureSelector,
    tile_w: i64,
    tile_h: i64,
    y_row: i64,
    x_lo: i64,
    x_hi: i64,
)
    requires
        selector.wf(),
        0 < tile_w <= TILE_SIZE_LIMIT,
        0 < tile_h <= TILE_SIZE_LIMIT,
        aligned(x_lo as int, tile_w as int),
        aligned(y_row as int, tile_h as int),
        -COORD_LIMIT <= x_lo,
        x_hi <= COORD_LIMIT,
        -COORD_LIMIT <= y_row <= COORD_LIMIT,
        tiles_aligned(old(reg)@, tile_w as int, tile_h as int),
        tiles_bounded(old(reg)@),
        positions_distinct(old(reg)@),
    ensures
        final(reg)@.len() >= old(reg)@.len(),
        forall|j: int| 0 <= j < old(reg)@.len() ==> final(reg)@[j] == old(reg)@[j],
        tiles_aligned(final(reg)@, tile_w as int, tile_h as int),
        tiles_bounded(final(reg)@),
        positions_distinct(final(reg)@),
        forall|cx: int|
            aligned(cx, tile_w as int) && x_lo <= cx <= x_hi ==> #[trigger] has_tile_at(
                final(reg)@,
                cx,
                y_row as int,
            ),
        forall|ax: int, ay: int|
            #[trigger] has_tile_at(old(reg)@, ax, ay) ==> has_tile_at(final(reg)@, ax, ay),
        forall|j: int|
            old(reg)@.len() <= j < final(reg)@.len() ==> #[trigger] row_member(
                final(reg)@,
                j,
                y_row as int,
                x_lo as int,
                x_hi as int,
            ),
{
    let ghost reg0 = reg@;
    let tint = Color { red: CHANNEL_SCALE, green: CHANNEL_SCALE, blue: CHANNEL_SCALE };
    let mut x = x_lo;
    while x <= x_hi
        invariant
            selector.wf(),
            0 < tile_w <= TILE_SIZE_LIMIT,
            0 < tile_h <= TILE_SIZE_LIMIT,
            aligned(x as int, tile_w as int),
            aligned(y_row as int, tile_h as int),
            x_lo <= x,
            -COORD_LIMIT <= x_lo,
            x_hi <= COORD_LIMIT,
            -COORD_LIMIT <= y_row <= COORD_LIMIT,
            reg@.len() >= reg0.len(),
            forall|j: int| 0 <= j < reg0.len() ==> reg@[j] == reg0[j],
            tiles_aligned(reg@, tile_w as int, tile_h as int),
            tiles_bounded(reg@),
            positions_distinct(reg@),
            forall|cx: int|
                aligned(cx, tile_w as int) && x_lo <= cx < x ==> #[trigger] has_tile_at(
                    reg@,
                    cx,
                    y_row as int,
                ),
            forall|ax: int, ay: int|
                #[trigger] has_tile_at(reg0, ax, ay) ==> has_tile_at(reg@, ax, ay),
            forall|j: int|
                reg0.len() <= j < reg@.len() ==> #[trigger] row_member(
                    reg@,
                    j,
                    y_row as int,
                    x_lo as int,
                    x_hi as int,
                ),
        decreases x_hi + tile_w - x,
    {
        let ghost pre = reg@;
        if !reg.contains_at(x, y_row) {
            let tex = selector.pick();
            let ghost t = TileRecord { x, y: y_row, texture_index: tex, tint };
            reg.spawn(x, y_row, tex, tint);
            proof {
                crate::registry::lemma_spawn_keeps_invariants(
                    pre,
                    t,
                    tile_w as int,
                    tile_h as int,
                );
                assert(reg@ == pre.push(Some(t)));
                assert(forall|j: int| 0 <= j < pre.len() ==> reg@[j] == pre[j]);
                assert(tile_of(reg@, pre.len() as int) == t);
                assert forall|j: int| reg0.len() <= j < reg@.len() implies #[trigger] row_member(
                    reg@,
                    j,
                    y_row as int,
                    x_lo as int,
                    x_hi as int,
                ) by {
                    if j < pre.len() {
                        assert(row_member(pre, j, y_row as int, x_lo as int, x_hi as int));
                        assert(reg@[j] == pre[j]);
                    } else {
                        assert(tile_of(reg@, j) == t);
                    }
                }
            }
        }
        proof {
            assert(has_tile_at(reg@, x as int, y_row as int));
            assert forall|cx: int| aligned(cx, tile_w as int) && x_lo <= cx < x + tile_w implies
                #[trigger] has_tile_at(reg@, cx, y_row as int) by {
                if cx < x {
                    assert(has_tile_at(pre, cx, y_row as int));
                } else {
                    crate::grid::lemma_snapped_unique(cx, x as int, tile_w as int);
                    assert(snapped(cx, tile_w as int) == cx);
                }
            }
            crate::grid::lemma_aligned_add_multiple(x as int, 1, tile_w as int);
            assert(x + 1 * (tile_w as int) == x + tile_w);
        }
        x = x + tile_w;
    }
}

/// Spawns a tile in every grid cell of the column `x_col` whose
/// y-coordinate lies in `[y_lo, y_hi]` and does not already hold one, as
/// `spawn_row` does for a row.
#[verifier::rlimit(60)]
pub fn spawn_col(
    reg: &mut TileRegistry,
    selector: &TileTextureSelector,
    tile_w: i64,
    tile_h: i64,
    x_col: i64,
    y_lo: i64,
    y_hi: i64,
)
    requires
        selector.wf(),
        0 < tile_w <= TILE_SIZE_LIMIT,
        0 < tile_h <= TILE_SIZE_LIMIT,
        aligned(y_lo as int, tile_h as int),
        aligned(x_col as int, tile_w as int),
        -COORD_LIMIT <= y_lo,
        y_hi <= COORD_LIMIT,
        -COORD_LIMIT <= x_col <= COORD_LIMIT,
        tiles_aligned(old(reg)@, tile_w as int, tile_h as int),
        tiles_bounded(old(reg)@),
        positions_distinct(old(reg)@),
    ensures
        final(reg)@.len() >= old(reg)@.len(),
        forall|j: int| 0 <= j < old(reg)@.len() ==> final(reg)@[j] == old(reg)@[j],
        tiles_aligned(final(reg)@, tile_w as int, tile_h as int),
        tiles_bounded(final(reg)@),
        positions_distinct(final(reg)@),
        forall|cy: int|
            aligned(cy, tile_h as int) && y_lo <= cy <= y_hi ==> #[trigger] has_tile_at(
                final(reg)@,
                x_col as int,
                cy,
            ),
        forall|ax: int, ay: int|
            #[trigger] has_tile_at(old(reg)@, ax, ay) ==> has_tile_at(final(reg)@, ax, ay),
        forall|j: int|
            old(reg)@.len() <= j < final(reg)@.len() ==> #[trigger] col_member(
                final(reg)@,
                j,
                x_col as int,
                y_lo as int,
                y_hi as int,
            ),
{
    let ghost reg0 = reg@;
    let tint = Color { red: CHANNEL_SCALE, green: CHANNEL_SCALE, blue: CHANNEL_SCALE };
    let mut y = y_lo;
    while y <= y_hi
        invariant
            selector.wf(),
            0 < tile_w <= TILE_SIZE_LIMIT,
            0 < tile_h <= TILE_SIZE_LIMIT,
            aligned(y as int, tile_h as int),
            aligned(x_col as int, tile_w as int),
            y_lo <= y,
            -COORD_LIMIT <= y_lo,
            y_hi <= COORD_LIMIT,
            -COORD_LIMIT <= x_col <= COORD_LIMIT,
            reg@.len() >= reg0.len(),
            forall|j: int| 0 <= j < reg0.len() ==> reg@[j] == reg0[j],
            tiles_aligned(reg@, tile_w as int, tile_h as int),
            tiles_bounded(reg@),
            positions_distinct(reg@),
            forall|cy: int|
                aligned(cy, tile_h as int) && y_lo <= cy < y ==> #[trigger] has_tile_at(
                    reg@,
                    x_col as int,
                    cy,
                ),
            forall|ax: int, ay: int|
                #[trigger] has_tile_at(reg0, ax, ay) ==> has_tile_at(reg@, ax, ay),
            forall|j: int|
                reg0.len() <= j < reg@.len() ==> #[trigger] col_member(
                    reg@,
                    j,
                    x_col as int,
                    y_lo as int,
                    y_hi as int,
                ),
        decreases y_hi + tile_h - y,
    {
        let ghost pre = reg@;
        if !reg.contains_at(x_col, y) {
            let tex = selector.pick();
            let ghost t = TileRecord { x: x_col, y, texture_index: tex, tint };
            reg.spawn(x_col, y, tex, tint);
            proof {
                crate::registry::lemma_spawn_keeps_invariants(
                    pre,
                    t,
                    tile_w as int,
                    tile_h as int,
                );
                assert(reg@ == pre.push(Some(t)));
                assert(forall|j: int| 0 <= j < pre.len() ==> reg@[j] == pre[j]);
                assert(tile_of(reg@, pre.len() as int) == t);
                assert forall|j: int| reg0.len() <= j < reg@.len() implies #[trigger] col_member(
                    reg@,
                    j,
                    x_col as int,
                    y_lo as int,
                    y_hi as int,
                ) by {
                    if j < pre.len() {
                        assert(col_member(pre, j, x_col as int, y_lo as int, y_hi as int));
                        assert(reg@[j] == pre[j]);
                    } else {
                        assert(tile_of(reg@, j) == t);
                    }
                }
            }
        }
        proof {
            assert(has_tile_at(reg@, x_col as int, y as int));
            assert forall|cy: int| aligned(cy, tile_h as int) && y_lo <= cy < y + tile_h implies
                #[trigger] has_tile_at(reg@, x_col as int, cy) by {
                if cy < y {
                    assert(has_tile_at(pre, x_col as int, cy));
                } else {
                    crate::grid::lemma_snapped_unique(cy, y as int, tile_h as int);
                    assert(snapped(cy, tile_h as int) == cy);
                }
            }
            crate::grid::lemma_aligned_add_multiple(y as int, 1, tile_h as int);
            assert(y + 1 * (tile_h as int) == y + tile_h);
        }
        y = y + tile_h;
    }
}

/// Lowest x of a spawned band: the snapped left viewport edge, minus the
/// extra safety tiles.
pub open spec fn band_x_lo(ctx: TickContext, cfg: StreamConfig) -> int {
    snapped(ctx.vx - ctx.half_w, cfg.tile_w as int) - cfg.extra_tiles * cfg.tile_w
}

/// Highest x a spawned band must still cover: the right viewport edge plus
/// the extra safety tiles.
pub open spec fn band_x_hi(ctx: TickContext, cfg: StreamConfig) -> int {
    ctx.vx + ctx.half_w + cfg.extra_tiles * cfg.tile_w
}

/// Lowest y of a spawned band, as `band_x_lo`.
pub open spec fn band_y_lo(ctx: TickContext, cfg: StreamConfig) -> int {
    snapped(ctx.vy - ctx.half_h, cfg.tile_h as int) - cfg.extra_tiles * cfg.tile_h
}

/// Highest y a spawned band must still cover, as `band_x_hi`.
pub open spec fn band_y_hi(ctx: TickContext, cfg: StreamConfig) -> int {
    ctx.vy + ctx.half_h + cfg.extra_tiles * cfg.tile_h
}

/// The primary row of an upward band: one tolerance above the viewport top,
/// snapped to the grid.
pub open spec fn row_up(ctx: TickContext, cfg: StreamConfig) -> int {
    snapped(ctx.vy + ctx.half_h + cfg.tolerance, cfg.tile_h as int)
}

/// The primary row of a downward band.
pub open spec fn row_down(ctx: TickContext, cfg: StreamConfig) -> int {
    snapped(ctx.vy - ctx.half_h - cfg.tolerance, cfg.tile_h as int)
}

/// The primary column of a rightward band.
pub open spec fn col_right(ctx: TickContext, cfg: StreamConfig) -> int {
    snapped(ctx.vx + ctx.half_w + cfg.tolerance, cfg.tile_w as int)
}

/// The primary column of a leftward band.
pub open spec fn col_left(ctx: TickContext, cfg: StreamConfig) -> int {
    snapped(ctx.vx - ctx.half_w - cfg.tolerance, cfg.tile_w as int)
}

/// The hysteresis law: a tile within one tolerance margin of the viewport
/// at spawn time is not culled at any later viewpoint that stays within
/// the tolerance of the spawn viewpoint, because the despawn bound lies a
/// second tolerance further out. Within a single tick it holds outright:
/// the despawn pass runs before any tile of that tick is spawned.
pub proof fn lemma_hysteresis(ctx: TickContext, ctx2: TickContext, tol: int, px: int, py: int)
    requires
        tol >= 0,
        ctx2.half_w == ctx.half_w,
        ctx2.half_h == ctx.half_h,
        ctx.vx - tol <= ctx2.vx <= ctx.vx + tol,
        ctx.vy - tol <= ctx2.vy <= ctx.vy + tol,
        ctx.vx - ctx.half_w - tol <= px <= ctx.vx + ctx.half_w + tol,
        ctx.vy - ctx.half_h - tol <= py <= ctx.vy + ctx.half_h + tol,
    ensures
        !out_of_view(px, py, ctx2, tol),
{
}

/// Where the rows and columns of this tick's spawn bands lie, relative to
/// the tolerance margin around the spawn viewpoint. The rows spawned
/// upward and the columns spawned rightward are snapped toward the
/// viewport, so both lie within the margin; downward and leftward the
/// outer row and column are snapped away from it, so they may undershoot
/// the margin by up to one tile while their inner partners stay within it.
pub proof fn lemma_band_rows_in_margin(ctx: TickContext, cfg: StreamConfig)
    requires
        cfg.wf(),
        ctx.wf(),
        cfg.tile_w <= ctx.half_w,
        cfg.tile_h <= ctx.half_h,
    ensures
        ctx.vy - ctx.half_h - cfg.tolerance <= row_up(ctx, cfg) - cfg.tile_h,
        row_up(ctx, cfg) <= ctx.vy + ctx.half_h + cfg.tolerance,
        ctx.vy - ctx.half_h - cfg.tolerance - cfg.tile_h < row_down(ctx, cfg),
        ctx.vy - ctx.half_h - cfg.tolerance < row_down(ctx, cfg) + cfg.tile_h,
        row_down(ctx, cfg) + cfg.tile_h <= ctx.vy + ctx.half_h + cfg.tolerance,
        ctx.vx - ctx.half_w - cfg.tolerance <= col_right(ctx, cfg) - cfg.tile_w,
        col_right(ctx, cfg) <= ctx.vx + ctx.half_w + cfg.tolerance,
        ctx.vx - ctx.half_w - cfg.tolerance - cfg.tile_w < col_left(ctx, cfg),
        ctx.vx - ctx.half_w - cfg.tolerance < col_left(ctx, cfg) + cfg.tile_w,
        col_left(ctx, cfg) + cfg.tile_w <= ctx.vx + ctx.half_w + cfg.tolerance,
{
    crate::grid::lemma_snapped_properties(
        ctx.vy + ctx.half_h + cfg.tolerance,
        cfg.tile_h as int,
    );
    crate::grid::lemma_snapped_properties(
        ctx.vy - ctx.half_h - cfg.tolerance,
        cfg.tile_h as int,
    );
    crate::grid::lemma_snapped_properties(
        ctx.vx + ctx.half_w + cfg.tolerance,
        cfg.tile_w as int,
    );
    crate::grid::lemma_snapped_properties(
        ctx.vx - ctx.half_w - cfg.tolerance,
        cfg.tile_w as int,
    );
}

/// The no-gap invariant: every grid cell of the rectangle reaching one
/// tolerance beyond the viewport extents around the anchor point
/// `(ax, ay)` holds a tile. The edges are snapped, naming exactly the grid
/// cells the spawn bands emit.
pub open spec fn covered_rect(
    s: Seq<Option<TileRecord>>,
    cfg: StreamConfig,
    ax: int,
    ay: int,
    half_w: int,
    half_h: int,
) -> bool {
    forall|cx: int, cy: int|
        aligned(cx, cfg.tile_w as int) && aligned(cy, cfg.tile_h as int) && snapped(
            ax - half_w - cfg.tolerance,
            cfg.tile_w as int,
        ) <= cx <= snapped(ax + half_w + cfg.tolerance, cfg.tile_w as int) && snapped(
            ay - half_h - cfg.tolerance,
            cfg.tile_h as int,
        ) <= cy <= snapped(ay + half_h + cfg.tolerance, cfg.tile_h as int) ==> #[trigger]
        has_tile_at(s, cx, cy)
}

/// A configuration with margins wide enough for gap-free streaming: the
/// despawn tolerance spans at least three tiles, and the extra band tiles
/// span the tolerance and three tiles more.
pub open spec fn gapless_config(cfg: StreamConfig) -> bool {
    &&& cfg.wf()
    &&& 3 * cfg.tile_w <= cfg.tolerance
    &&& 3 * cfg.tile_h <= cfg.tolerance
    &&& cfg.tolerance + 3 * cfg.tile_w <= cfg.extra_tiles * cfg.tile_w
    &&& cfg.tolerance + 3 * cfg.tile_h <= cfg.extra_tiles * cfg.tile_h
}

/// The no-gap base case: the rectangle `fill_viewport` covers contains the
/// whole anchor rectangle of its viewpoint, so filling establishes the
/// invariant.
pub proof fn lemma_fill_establishes_covered_rect(
    s: Seq<Option<TileRecord>>,
    cfg: StreamConfig,
    ctx: TickContext,
)
    requires
        gapless_config(cfg),
        ctx.wf(),
        forall|cx: int, cy: int|
            aligned(cx, cfg.tile_w as int) && aligned(cy, cfg.tile_h as int) && band_x_lo(
                ctx,
                cfg,
            ) <= cx <= band_x_hi(ctx, cfg) && band_y_lo(ctx, cfg) <= cy <= band_y_hi(ctx, cfg)
                ==> #[trigger] has_tile_at(s, cx, cy),
    ensures
        covered_rect(s, cfg, ctx.vx as int, ctx.vy as int, ctx.half_w as int, ctx.half_h as int),
{
    let tw = cfg.tile_w as int;
    let th = cfg.tile_h as int;
    let tol = cfg.tolerance as int;
    let vx = ctx.vx as int;
    let vy = ctx.vy as int;
    let hw = ctx.half_w as int;
    let hh = ctx.half_h as int;
    crate::grid::lemma_snapped_properties(vx - hw - tol, tw);
    crate::grid::lemma_snapped_properties(vx + hw + tol, tw);
    crate::grid::lemma_snapped_properties(vy - hh - tol, th);
    crate::grid::lemma_snapped_properties(vy + hh + tol, th);
    crate::grid::lemma_snapped_properties(vx - hw, tw);
    crate::grid::lemma_snapped_properties(vy - hh, th);
    assert forall|cx: int, cy: int|
        aligned(cx, tw) && aligned(cy, th) && snapped(vx - hw - tol, tw) <= cx <= snapped(
            vx + hw + tol,
            tw,
        ) && snapped(vy - hh - tol, th) <= cy <= snapped(vy + hh + tol, th) implies #[trigger]
        has_tile_at(s, cx, cy) by {
        assert(band_x_lo(ctx, cfg) <= cx <= band_x_hi(ctx, cfg));
        assert(band_y_lo(ctx, cfg) <= cy <= band_y_hi(ctx, cfg));
    }
}

/// The no-gap induction step: when the viewpoint has moved at most two
/// tiles per axis since the anchors, one tick of despawning, band spawning
/// and anchor updates carries the invariant from the old anchors to the new
/// ones. The despawn margin is wide enough that no cell of the new
/// rectangle is culled, and a moved anchor's fresh band closes exactly the
/// cells the rectangle gained.
pub proof fn lemma_tick_preserves_covered_rect(
    old_ctl: StreamingController,
    new_ctl: StreamingController,
    s_old: Seq<Option<TileRecord>>,
    s_new: Seq<Option<TileRecord>>,
    ctx: TickContext,
)
    requires
        old_ctl.wf(),
        ctx.wf(),
        !degenerate(ctx),
        gapless_config(old_ctl.config),
        old_ctl.last_spawned_x - 2 * old_ctl.config.tile_w <= ctx.vx <= old_ctl.last_spawned_x + 2
            * old_ctl.config.tile_w,
        old_ctl.last_spawned_y - 2 * old_ctl.config.tile_h <= ctx.vy <= old_ctl.last_spawned_y + 2
            * old_ctl.config.tile_h,
        new_ctl.config == old_ctl.config,
        new_ctl.last_spawned_y == if old_ctl.trigger_up(ctx) || old_ctl.trigger_down(ctx) {
            ctx.vy
        } else {
            old_ctl.last_spawned_y
        },
        new_ctl.last_spawned_x == if old_ctl.trigger_right(ctx) || old_ctl.trigger_left(ctx) {
            ctx.vx
        } else {
            old_ctl.last_spawned_x
        },
        forall|px: int, py: int|
            #[trigger] has_tile_at(s_old, px, py) && !out_of_view(
                px,
                py,
                ctx,
                old_ctl.config.tolerance as int,
            ) ==> has_tile_at(s_new, px, py),
        old_ctl.trigger_up(ctx) ==> forall|cx: int|
            aligned(cx, old_ctl.config.tile_w as int) && band_x_lo(ctx, old_ctl.config) <= cx
                <= band_x_hi(ctx, old_ctl.config) ==> #[trigger] has_tile_at(
                s_new,
                cx,
                row_up(ctx, old_ctl.config),
            ) && has_tile_at(s_new, cx, row_up(ctx, old_ctl.config) - old_ctl.config.tile_h),
        old_ctl.trigger_down(ctx) ==> forall|cx: int|
            aligned(cx, old_ctl.config.tile_w as int) && band_x_lo(ctx, old_ctl.config) <= cx
                <= band_x_hi(ctx, old_ctl.config) ==> #[trigger] has_tile_at(
                s_new,
                cx,
                row_down(ctx, old_ctl.config),
            ) && has_tile_at(s_new, cx, row_down(ctx, old_ctl.config) + old_ctl.config.tile_h),
        old_ctl.trigger_right(ctx) ==> forall|cy: int|
            aligned(cy, old_ctl.config.tile_h as int) && band_y_lo(ctx, old_ctl.config) <= cy
                <= band_y_hi(ctx, old_ctl.config) ==> #[trigger] has_tile_at(
                s_new,
                col_right(ctx, old_ctl.config),
                cy,
            ) && has_tile_at(s_new, col_right(ctx, old_ctl.config) - old_ctl.config.tile_w, cy),
        old_ctl.trigger_left(ctx) ==> forall|cy: int|
            aligned(cy, old_ctl.config.tile_h as int) && band_y_lo(ctx, old_ctl.config) <= cy
                <= band_y_hi(ctx, old_ctl.config) ==> #[trigger] has_tile_at(
                s_new,
                col_left(ctx, old_ctl.config),
                cy,
            ) && has_tile_at(s_new, col_left(ctx, old_ctl.config) + old_ctl.config.tile_w, cy),
        covered_rect(
            s_old,
            old_ctl.config,
            old_ctl.last_spawned_x as int,
            old_ctl.last_spawned_y as int,
            ctx.half_w as int,
            ctx.half_h as int,
        ),
    ensures
        covered_rect(
            s_new,
            old_ctl.config,
            new_ctl.last_spawned_x as int,
            new_ctl.last_spawned_y as int,
            ctx.half_w as int,
            ctx.half_h as int,
        ),
{
    let cfg = old_ctl.config;
    let tw = cfg.tile_w as int;
    let th = cfg.tile_h as int;
    let tol = cfg.tolerance as int;
    let ax = old_ctl.last_spawned_x as int;
    let ay = old_ctl.last_spawned_y as int;
    let nax = new_ctl.last_spawned_x as int;
    let nay = new_ctl.last_spawned_y as int;
    let vx = ctx.vx as int;
    let vy = ctx.vy as int;
    let hw = ctx.half_w as int;
    let hh = ctx.half_h as int;
    let oxl = snapped(ax - hw - tol, tw);
    let oxh = snapped(ax + hw + tol, tw);
    let oyl = snapped(ay - hh - tol, th);
    let oyh = snapped(ay + hh + tol, th);
    let nxl = snapped(nax - hw - tol, tw);
    let nxh = snapped(nax + hw + tol, tw);
    let nyl = snapped(nay - hh - tol, th);
    let nyh = snapped(nay + hh + tol, th);
    crate::grid::lemma_snapped_properties(ax - hw - tol, tw);
    crate::grid::lemma_snapped_properties(ax + hw + tol, tw);
    crate::grid::lemma_snapped_properties(ay - hh - tol, th);
    crate::grid::lemma_snapped_properties(ay + hh + tol, th);
    crate::grid::lemma_snapped_properties(nax - hw - tol, tw);
    crate::grid::lemma_snapped_properties(nax + hw + tol, tw);
    crate::grid::lemma_snapped_properties(nay - hh - tol, th);
    crate::grid::lemma_snapped_properties(nay + hh + tol, th);
    crate::grid::lemma_snapped_properties(vx - hw, tw);
    crate::grid::lemma_snapped_properties(vy - hh, th);
    crate::grid::lemma_snapped_properties(vx - hw - tol, tw);
    crate::grid::lemma_snapped_properties(vx + hw + tol, tw);
    crate::grid::lemma_snapped_properties(vy - hh - tol, th);
    crate::grid::lemma_snapped_properties(vy + hh + tol, th);
    // How far the snapped rectangle edges can move in one tick.
    crate::grid::lemma_snapped_shift(ax + hw + tol, 2, tw);
    crate::grid::lemma_snapped_shift(ax - hw - tol, -2, tw);
    crate::grid::lemma_snapped_shift(ay + hh + tol, 2, th);
    crate::grid::lemma_snapped_shift(ay - hh - tol, -2, th);
    crate::grid::lemma_snapped_monotonic(nax + hw + tol, ax + hw + tol + 2 * tw, tw);
    crate::grid::lemma_snapped_monotonic(ax - hw - tol - 2 * tw, nax - hw - tol, tw);
    crate::grid::lemma_snapped_monotonic(nay + hh + tol, ay + hh + tol + 2 * th, th);
    crate::grid::lemma_snapped_monotonic(ay - hh - tol - 2 * th, nay - hh - tol, th);
    crate::grid::lemma_snapped_monotonic(ax + hw + tol, nax + hw + tol + 2 * tw, tw);
    crate::grid::lemma_snapped_shift(nax + hw + tol, 2, tw);
    crate::grid::lemma_snapped_monotonic(nax - hw - tol - 2 * tw, ax - hw - tol, tw);
    crate::grid::lemma_snapped_shift(nax - hw - tol, -2, tw);
    crate::grid::lemma_snapped_monotonic(ay + hh + tol, nay + hh + tol + 2 * th, th);
    crate::grid::lemma_snapped_shift(nay + hh + tol, 2, th);
    crate::grid::lemma_snapped_monotonic(nay - hh - tol - 2 * th, ay - hh - tol, th);
    crate::grid::lemma_snapped_shift(nay - hh - tol, -2, th);
    assert(nxh <= oxh + 2 * tw && oxh <= nxh + 2 * tw);
    assert(oxl - 2 * tw <= nxl && nxl - 2 * tw <= oxl);
    assert(nyh <= oyh + 2 * th && oyh <= nyh + 2 * th);
    assert(oyl - 2 * th <= nyl && nyl - 2 * th <= oyl);
    assert forall|cx: int, cy: int|
        aligned(cx, tw) && aligned(cy, th) && nxl <= cx <= nxh && nyl <= cy <= nyh implies
        #[trigger] has_tile_at(s_new, cx, cy) by {
        // Every cell of the new rectangle lies within every band's
        // perpendicular extent.
        assert(band_x_lo(ctx, cfg) <= cx <= band_x_hi(ctx, cfg));
        assert(band_y_lo(ctx, cfg) <= cy <= band_y_hi(ctx, cfg));
        if cx > oxh {
            // The rectangle grew to the right, so the right band fired and
            // the gained cells are exactly its two columns.
            assert(nax > ax);
            assert(old_ctl.trigger_right(ctx));
            assert(nxh == col_right(ctx, cfg));
            crate::grid::lemma_aligned_within_two(cx, nxh, tw);
            assert(has_tile_at(s_new, col_right(ctx, cfg), cy));
            assert(has_tile_at(s_new, col_right(ctx, cfg) - tw, cy));
        } else if cx < oxl {
            assert(nax < ax);
            assert(old_ctl.trigger_left(ctx));
            assert(nxl == col_left(ctx, cfg));
            crate::grid::lemma_aligned_within_two(nxl, cx, tw);
            assert(cx == nxl || cx == nxl + tw);
            assert(has_tile_at(s_new, col_left(ctx, cfg), cy));
            assert(has_tile_at(s_new, col_left(ctx, cfg) + tw, cy));
        } else if cy > oyh {
            assert(nay > ay);
            assert(old_ctl.trigger_up(ctx));
            assert(nyh == row_up(ctx, cfg));
            crate::grid::lemma_aligned_within_two(cy, nyh, th);
            assert(has_tile_at(s_new, cx, row_up(ctx, cfg)));
            assert(has_tile_at(s_new, cx, row_up(ctx, cfg) - th));
        } else if cy < oyl {
            assert(nay < ay);
            assert(old_ctl.trigger_down(ctx));
            assert(nyl == row_down(ctx, cfg));
            crate::grid::lemma_aligned_within_two(nyl, cy, th);
            assert(cy == nyl || cy == nyl + th);
            assert(has_tile_at(s_new, cx, row_down(ctx, cfg)));
            assert(has_tile_at(s_new, cx, row_down(ctx, cfg) + th));
        } else {
            // The cell was already covered, and it is too close to the
            // viewport to have been culled.
            assert(has_tile_at(s_old, cx, cy));
            assert(!out_of_view(cx, cy, ctx, tol));
        }
    }
}

/// The no-gap protocol: right after a tick the viewpoint lies within one
/// tile of each anchor (exactly on it when the direction fired), so a next
/// move of at most one tile per axis keeps the viewpoint within the
/// two-tile anchor distance the induction step asks for.
pub proof fn lemma_anchor_distance_after_tick(
    old_ctl: StreamingController,
    new_ctl: StreamingController,
    ctx: TickContext,
)
    requires
        old_ctl.wf(),
        new_ctl.config == old_ctl.config,
        new_ctl.last_spawned_y == if old_ctl.trigger_up(ctx) || old_ctl.trigger_down(ctx) {
            ctx.vy
        } else {
            old_ctl.last_spawned_y
        },
        new_ctl.last_spawned_x == if old_ctl.trigger_right(ctx) || old_ctl.trigger_left(ctx) {
            ctx.vx
        } else {
            old_ctl.last_spawned_x
        },
    ensures
        new_ctl.last_spawned_x - new_ctl.config.tile_w < ctx.vx < new_ctl.last_spawned_x
            + new_ctl.config.tile_w,
        new_ctl.last_spawned_y - new_ctl.config.tile_h < ctx.vy < new_ctl.last_spawned_y
            + new_ctl.config.tile_h,
{
}

/// The no-gap corollary: while the viewpoint stays within two tiles of the
/// anchors, the covered rectangle contains the whole strict viewport, so
/// every visible grid cell holds a tile.
pub proof fn lemma_covered_rect_covers_viewport(
    s: Seq<Option<TileRecord>>,
    cfg: StreamConfig,
    ax: int,
    ay: int,
    ctx: TickContext,
)
    requires
        gapless_config(cfg),
        ctx.wf(),
        ax - 2 * cfg.tile_w <= ctx.vx <= ax + 2 * cfg.tile_w,
        ay - 2 * cfg.tile_h <= ctx.vy <= ay + 2 * cfg.tile_h,
        covered_rect(s, cfg, ax, ay, ctx.half_w as int, ctx.half_h as int),
    ensures
        forall|cx: int, cy: int|
            aligned(cx, cfg.tile_w as int) && aligned(cy, cfg.tile_h as int) && ctx.vx
                - ctx.half_w <= cx <= ctx.vx + ctx.half_w && ctx.vy - ctx.half_h <= cy <= ctx.vy
                + ctx.half_h ==> #[trigger] has_tile_at(s, cx, cy),
{
    let tw = cfg.tile_w as int;
    let th = cfg.tile_h as int;
    let tol = cfg.tolerance as int;
    let hw = ctx.half_w as int;
    let hh = ctx.half_h as int;
    crate::grid::lemma_snapped_properties(ax - hw - tol, tw);
    crate::grid::lemma_snapped_properties(ay - hh - tol, th);
    assert forall|cx: int, cy: int|
        aligned(cx, tw) && aligned(cy, th) && ctx.vx - hw <= cx <= ctx.vx + hw && ctx.vy - hh <= cy
            <= ctx.vy + hh implies #[trigger] has_tile_at(s, cx, cy) by {
        crate::grid::lemma_aligned_le_snapped(cx, ax + hw + tol, tw);
        crate::grid::lemma_aligned_le_snapped(cy, ay + hh + tol, th);
        assert(snapped(ax - hw - tol, tw) <= cx);
        assert(snapped(ay - hh - tol, th) <= cy);
    }
}

/// A slotwise culling step keeps positions distinct, alignment and bounds:
/// every tile it leaves was already there.
pub proof fn lemma_cull_keeps_invariants(
    s: Seq<Option<TileRecord>>,
    s2: Seq<Option<TileRecord>>,
    ctx: TickContext,
    tol: int,
    tile_w: int,
    tile_h: int,
)
    requires
        s2.len() == s.len(),
        forall|h: int| 0 <= h < s.len() ==> s2[h] == culled_slot(#[trigger] s[h], ctx, tol),
    ensures
        positions_distinct(s) ==> positions_distinct(s2),
        tiles_aligned(s, tile_w, tile_h) ==> tiles_aligned(s2, tile_w, tile_h),
        tiles_bounded(s) ==> tiles_bounded(s2),
{
    assert forall|h: int| live(s2, h) implies live(s, h) && tile_of(s2, h) == tile_of(s, h) by {
        assert(s2[h] == culled_slot(s[h], ctx, tol));
    }
}

/// The scheduling core. The two anchors hold the viewpoint coordinate at
/// which tiles were last spawned on the vertical respectively horizontal
/// axis; they are this module's only persistent state.
pub struct StreamingController {
    pub config: StreamConfig,
    pub last_spawned_x: i64,
    pub last_spawned_y: i64,
}

impl StreamingController {
    /// A valid configuration and anchors within the viewpoint bound.
    pub open spec fn wf(self) -> bool {
        &&& self.config.wf()
        &&& -VIEW_LIMIT <= self.last_spawned_x <= VIEW_LIMIT
        &&& -VIEW_LIMIT <= self.last_spawned_y <= VIEW_LIMIT
    }

    /// A fresh controller: both anchors start at zero.
    pub fn new(config: StreamConfig) -> (c: StreamingController)
        requires
            config.wf(),
        ensures
            c.config == config,
            c.last_spawned_x == 0,
            c.last_spawned_y == 0,
            c.wf(),
    {
        StreamingController { config, last_spawned_x: 0, last_spawned_y: 0 }
    }

    /// Pass A: despawns every tile out of view, and exactly those. Slot by
    /// slot, what remains is what `culled_slot` says.
    pub fn despawn_pass(&self, ctx: TickContext, reg: &mut TileRegistry)
        requires
            self.wf(),
            ctx.wf(),
        ensures
            final(reg)@.len() == old(reg)@.len(),
            forall|h: int|
                0 <= h < old(reg)@.len() ==> final(reg)@[h] == culled_slot(
                    #[trigger] old(reg)@[h],
                    ctx,
                    self.config.tolerance as int,
                ),
    {
        let tol = self.config.tolerance;
        let right = ctx.vx + ctx.half_w + tol + tol;
        let left = ctx.vx - ctx.half_w - tol - tol;
        let top = ctx.vy + ctx.half_h + tol + tol;
        let bottom = ctx.vy - ctx.half_h - tol - tol;
        let n = reg.len();
        let ghost reg0 = reg@;
        let mut i: usize = 0;
        while i < n
            invariant
                self.wf(),
                ctx.wf(),
                tol == self.config.tolerance,
                right == ctx.vx + ctx.half_w + tol + tol,
                left == ctx.vx - ctx.half_w - tol - tol,
                top == ctx.vy + ctx.half_h + tol + tol,
                bottom == ctx.vy - ctx.half_h - tol - tol,
                n == reg0.len(),
                reg@.len() == reg0.len(),
                i <= n,
                forall|h: int|
                    0 <= h < i ==> reg@[h] == culled_slot(#[trigger] reg0[h], ctx, tol as int),
                forall|h: int| i <= h < n ==> reg@[h] == reg0[h],
            decreases n - i,
        {
            match reg.get(i) {
                Some(t) => {
                    if t.x > right || t.x < left || t.y > top || t.y < bottom {
                        reg.despawn(i);
                    }
                },
                None => {},
            }
            i = i + 1;
        }
    }

    /// The viewpoint has advanced a whole tile upward past the anchor.
    pub open spec fn trigger_up(self, ctx: TickContext) -> bool {
        ctx.vy >= self.last_spawned_y + self.config.tile_h
    }

    /// The viewpoint has advanced a whole tile downward past the anchor.
    pub open spec fn trigger_down(self, ctx: TickContext) -> bool {
        ctx.vy <= self.last_spawned_y - self.config.tile_h
    }

    /// The viewpoint has advanced a whole tile rightward past the anchor.
    pub open spec fn trigger_right(self, ctx: TickContext) -> bool {
        ctx.vx >= self.last_spawned_x + self.config.tile_w
    }

    /// The viewpoint has advanced a whole tile leftward past the anchor.
    pub open spec fn trigger_left(self, ctx: TickContext) -> bool {
        ctx.vx <= self.last_spawned_x - self.config.tile_w
    }

    /// Spawns the band for an upward move: the full horizontal extent plus
    /// the safety margin, on the row one tolerance above the viewport top
    /// and on the row one tile below it.
    fn spawn_band_up(&self, ctx: TickContext, reg: &mut TileRegistry, selector: &TileTextureSelector)
        requires
            self.wf(),
            ctx.wf(),
            selector.wf(),
            tiles_aligned(old(reg)@, self.config.tile_w as int, self.config.tile_h as int),
            tiles_bounded(old(reg)@),
            positions_distinct(old(reg)@),
        ensures
            final(reg)@.len() >= old(reg)@.len(),
            forall|j: int| 0 <= j < old(reg)@.len() ==> final(reg)@[j] == old(reg)@[j],
            tiles_aligned(final(reg)@, self.config.tile_w as int, self.config.tile_h as int),
            tiles_bounded(final(reg)@),
            positions_distinct(final(reg)@),
            forall|ax: int, ay: int|
                #[trigger] has_tile_at(old(reg)@, ax, ay) ==> has_tile_at(final(reg)@, ax, ay),
            forall|cx: int|
                aligned(cx, self.config.tile_w as int) && band_x_lo(ctx, self.config) <= cx
                    <= band_x_hi(ctx, self.config) ==> #[trigger] has_tile_at(
                    final(reg)@,
                    cx,
                    row_up(ctx, self.config),
                ) && has_tile_at(
                    final(reg)@,
                    cx,
                    row_up(ctx, self.config) - self.config.tile_h,
                ),
    {
        let tw = self.config.tile_w;
        let th = self.config.tile_h;
        let tol = self.config.tolerance;
        let extra = self.config.extra_tiles;
        proof {
            assert(0 <= extra * tw <= 10_000_000) by (nonlinear_arith)
                requires
                    0 <= extra <= 100,
                    0 < tw <= 100_000,
            ;
        }
        let y0 = snap_to_grid(ctx.vy + ctx.half_h + tol, th);
        let x_snap = snap_to_grid(ctx.vx - ctx.half_w, tw);
        let margin = extra * tw;
        let x_lo = x_snap - margin;
        let x_hi = ctx.vx + ctx.half_w + margin;
        proof {
            crate::grid::lemma_aligned_add_multiple(x_snap as int, -(extra as int), tw as int);
            assert((-(extra as int)) * (tw as int) == -(extra * tw)) by (nonlinear_arith);
            crate::grid::lemma_aligned_add_multiple(y0 as int, -1, th as int);
            assert((-1int) * (th as int) == -(th as int)) by (nonlinear_arith);
        }
        spawn_row(reg, selector, tw, th, y0, x_lo, x_hi);
        let ghost mid = reg@;
        spawn_row(reg, selector, tw, th, y0 - th, x_lo, x_hi);
        proof {
            assert forall|cx: int|
                aligned(cx, self.config.tile_w as int) && band_x_lo(ctx, self.config) <= cx
                    <= band_x_hi(ctx, self.config) implies #[trigger] has_tile_at(
                reg@,
                cx,
                row_up(ctx, self.config),
            ) && has_tile_at(reg@, cx, row_up(ctx, self.config) - self.config.tile_h) by {
                assert(has_tile_at(mid, cx, y0 as int));
                assert(has_tile_at(reg@, cx, y0 as int));
                assert(has_tile_at(reg@, cx, y0 - th));
            }
            assert forall|ax: int, ay: int| #[trigger] has_tile_at(old(reg)@, ax, ay) implies
                has_tile_at(reg@, ax, ay) by {
                assert(has_tile_at(mid, ax, ay));
            }
        }
    }

    /// Spawns the band for a downward move, mirroring `spawn_band_up`: the
    /// row one tolerance below the viewport bottom and the row one tile
    /// above it.
    fn spawn_band_down(
        &self,
        ctx: TickContext,
        reg: &mut TileRegistry,
        selector: &TileTextureSelector,
    )
        requires
            self.wf(),
            ctx.wf(),
            selector.wf(),
            tiles_aligned(old(reg)@, self.config.tile_w as int, self.config.tile_h as int),
            tiles_bounded(old(reg)@),
            positions_distinct(old(reg)@),
        ensures
            final(reg)@.len() >= old(reg)@.len(),
            forall|j: int| 0 <= j < old(reg)@.len() ==> final(reg)@[j] == old(reg)@[j],
            tiles_aligned(final(reg)@, self.config.tile_w as int, self.config.tile_h as int),
            tiles_bounded(final(reg)@),
            positions_distinct(final(reg)@),
            forall|ax: int, ay: int|
                #[trigger] has_tile_at(old(reg)@, ax, ay) ==> has_tile_at(final(reg)@, ax, ay),
            forall|cx: int|
                aligned(cx, self.config.tile_w as int) && band_x_lo(ctx, self.config) <= cx
                    <= band_x_hi(ctx, self.config) ==> #[trigger] has_tile_at(
                    final(reg)@,
                    cx,
                    row_down(ctx, self.config),
                ) && has_tile_at(
                    final(reg)@,
                    cx,
                    row_down(ctx, self.config) + self.config.tile_h,
                ),
    {
        let tw = self.config.tile_w;
        let th = self.config.tile_h;
        let tol = self.config.tolerance;
        let extra = self.config.extra_tiles;
        proof {
            assert(0 <= extra * tw <= 10_000_000) by (nonlinear_arith)
                requires
                    0 <= extra <= 100,
                    0 < tw <= 100_000,
            ;
        }
        let y0 = snap_to_grid(ctx.vy - ctx.half_h - tol, th);
        let x_snap = snap_to_grid(ctx.vx - ctx.half_w, tw);
        let margin = extra * tw;
        let x_lo = x_snap - margin;
        let x_hi = ctx.vx + ctx.half_w + margin;
        proof {
            crate::grid::lemma_aligned_add_multiple(x_snap as int, -(extra as int), tw as int);
            assert((-(extra as int)) * (tw as int) == -(extra * tw)) by (nonlinear_arith);
            crate::grid::lemma_aligned_add_multiple(y0 as int, 1, th as int);
            assert((1int) * (th as int) == th as int) by (nonlinear_arith);
        }
        spawn_row(reg, selector, tw, th, y0, x_lo, x_hi);
        let ghost mid = reg@;
        spawn_row(reg, selector, tw, th, y0 + th, x_lo, x_hi);
        proof {
            assert forall|cx: int|
                aligned(cx, self.config.tile_w as int) && band_x_lo(ctx, self.config) <= cx
                    <= band_x_hi(ctx, self.config) implies #[trigger] has_tile_at(
                reg@,
                cx,
                row_down(ctx, self.config),
            ) && has_tile_at(reg@, cx, row_down(ctx, self.config) + self.config.tile_h) by {
                assert(has_tile_at(mid, cx, y0 as int));
                assert(has_tile_at(reg@, cx, y0 as int));
                assert(has_tile_at(reg@, cx, y0 + th));
            }
            assert forall|ax: int, ay: int| #[trigger] has_tile_at(old(reg)@, ax, ay) implies
                has_tile_at(reg@, ax, ay) by {
                assert(has_tile_at(mid, ax, ay));
            }
        }
    }

    /// Spawns the band for a rightward move: the full vertical extent plus
    /// the safety margin, on the column one tolerance right of the viewport
    /// edge and on the column one tile left of it.
    fn spawn_band_right(
        &self,
        ctx: TickContext,
        reg: &mut TileRegistry,
        selector: &TileTextureSelector,
    )
        requires
            self.wf(),
            ctx.wf(),
            selector.wf(),
            tiles_aligned(old(reg)@, self.config.tile_w as int, self.config.tile_h as int),
            tiles_bounded(old(reg)@),
            positions_distinct(old(reg)@),
        ensures
            final(reg)@.len() >= old(reg)@.len(),
            forall|j: int| 0 <= j < old(reg)@.len() ==> final(reg)@[j] == old(reg)@[j],
            tiles_aligned(final(reg)@, self.config.tile_w as int, self.config.tile_h as int),
            tiles_bounded(final(reg)@),
            positions_distinct(final(reg)@),
            forall|ax: int, ay: int|
                #[trigger] has_tile_at(old(reg)@, ax, ay) ==> has_tile_at(final(reg)@, ax, ay),
            forall|cy: int|
                aligned(cy, self.config.tile_h as int) && band_y_lo(ctx, self.config) <= cy
                    <= band_y_hi(ctx, self.config) ==> #[trigger] has_tile_at(
                    final(reg)@,
                    col_right(ctx, self.config),
                    cy,
                ) && has_tile_at(
                    final(reg)@,
                    col_right(ctx, self.config) - self.config.tile_w,
                    cy,
                ),
    {
        let tw = self.config.tile_w;
        let th = self.config.tile_h;
        let tol = self.config.tolerance;
        let extra = self.config.extra_tiles;
        proof {
            assert(0 <= extra * th <= 10_000_000) by (nonlinear_arith)
                requires
                    0 <= extra <= 100,
                    0 < th <= 100_000,
            ;
        }
        let x0 = snap_to_grid(ctx.vx + ctx.half_w + tol, tw);
        let y_snap = snap_to_grid(ctx.vy - ctx.half_h, th);
        let margin = extra * th;
        let y_lo = y_snap - margin;
        let y_hi = ctx.vy + ctx.half_h + margin;
        proof {
            crate::grid::lemma_aligned_add_multiple(y_snap as int, -(extra as int), th as int);
            assert((-(extra as int)) * (th as int) == -(extra * th)) by (nonlinear_arith);
            crate::grid::lemma_aligned_add_multiple(x0 as int, -1, tw as int);
            assert((-1int) * (tw as int) == -(tw as int)) by (nonlinear_arith);
        }
        spawn_col(reg, selector, tw, th, x0, y_lo, y_hi);
        let ghost mid = reg@;
        spawn_col(reg, selector, tw, th, x0 - tw, y_lo, y_hi);
        proof {
            assert forall|cy: int|
                aligned(cy, self.config.tile_h as int) && band_y_lo(ctx, self.config) <= cy
                    <= band_y_hi(ctx, self.config) implies #[trigger] has_tile_at(
                reg@,
                col_right(ctx, self.config),
                cy,
            ) && has_tile_at(reg@, col_right(ctx, self.config) - self.config.tile_w, cy) by {
                assert(has_tile_at(mid, x0 as int, cy));
                assert(has_tile_at(reg@, x0 as int, cy));
                assert(has_tile_at(reg@, x0 - tw, cy));
            }
            assert forall|ax: int, ay: int| #[trigger] has_tile_at(old(reg)@, ax, ay) implies
                has_tile_at(reg@, ax, ay) by {
                assert(has_tile_at(mid, ax, ay));
            }
        }
    }

    /// Spawns the band for a leftward move, mirroring `spawn_band_right`.
    fn spawn_band_left(
        &self,
        ctx: TickContext,
        reg: &mut TileRegistry,
        selector: &TileTextureSelector,
    )
        requires
            self.wf(),
            ctx.wf(),
            selector.wf(),
            tiles_aligned(old(reg)@, self.config.tile_w as int, self.config.tile_h as int),
            tiles_bounded(old(reg)@),
            positions_distinct(old(reg)@),
        ensures
            final(reg)@.len() >= old(reg)@.len(),
            forall|j: int| 0 <= j < old(reg)@.len() ==> final(reg)@[j] == old(reg)@[j],
            tiles_aligned(final(reg)@, self.config.tile_w as int, self.config.tile_h as int),
            tiles_bounded(final(reg)@),
            positions_distinct(final(reg)@),
            forall|ax: int, ay: int|
                #[trigger] has_tile_at(old(reg)@, ax, ay) ==> has_tile_at(final(reg)@, ax, ay),
            forall|cy: int|
                aligned(cy, self.config.tile_h as int) && band_y_lo(ctx, self.config) <= cy
                    <= band_y_hi(ctx, self.config) ==> #[trigger] has_tile_at(
                    final(reg)@,
                    col_left(ctx, self.config),
                    cy,
                ) && has_tile_at(
                    final(reg)@,
                    col_left(ctx, self.config) + self.config.tile_w,
                    cy,
                ),
    {
        let tw = self.config.tile_w;
        let th = self.config.tile_h;
        let tol = self.config.tolerance;
        let extra = self.config.extra_tiles;
        proof {
            assert(0 <= extra * th <= 10_000_000) by (nonlinear_arith)
                requires
                    0 <= extra <= 100,
                    0 < th <= 100_000,
            ;
        }
        let x0 = snap_to_grid(ctx.vx - ctx.half_w - tol, tw);
        let y_snap = snap_to_grid(ctx.vy - ctx.half_h, th);
        let margin = extra * th;
        let y_lo = y_snap - margin;
        let y_hi = ctx.vy + ctx.half_h + margin;
        proof {
            crate::grid::lemma_aligned_add_multiple(y_snap as int, -(extra as int), th as int);
            assert((-(extra as int)) * (th as int) == -(extra * th)) by (nonlinear_arith);
            crate::grid::lemma_aligned_add_multiple(x0 as int, 1, tw as int);
            assert((1int) * (tw as int) == tw as int) by (nonlinear_arith);
        }
        spawn_col(reg, selector, tw, th, x0, y_lo, y_hi);
        let ghost mid = reg@;
        spawn_col(reg, selector, tw, th, x0 + tw, y_lo, y_hi);
        proof {
            assert forall|cy: int|
                aligned(cy, self.config.tile_h as int) && band_y_lo(ctx, self.config) <= cy
                    <= band_y_hi(ctx, self.config) implies #[trigger] has_tile_at(
                reg@,
                col_left(ctx, self.config),
                cy,
            ) && has_tile_at(reg@, col_left(ctx, self.config) + self.config.tile_w, cy) by {
                assert(has_tile_at(mid, x0 as int, cy));
                assert(has_tile_at(reg@, x0 as int, cy));
                assert(has_tile_at(reg@, x0 + tw, cy));
            }
            assert forall|ax: int, ay: int| #[trigger] has_tile_at(old(reg)@, ax, ay) implies
                has_tile_at(reg@, ax, ay) by {
                assert(has_tile_at(mid, ax, ay));
            }
        }
    }

    /// Fills the whole rectangle around the viewpoint that the spawn bands
    /// would cover, row by row: the initial population of the grid at
    /// stream start. Afterwards every grid cell of the rectangle holds a
    /// tile.
    pub fn fill_viewport(
        &self,
        ctx: TickContext,
        reg: &mut TileRegistry,
        selector: &TileTextureSelector,
    )
        requires
            self.wf(),
            ctx.wf(),
            selector.wf(),
            tiles_aligned(old(reg)@, self.config.tile_w as int, self.config.tile_h as int),
            tiles_bounded(old(reg)@),
            positions_distinct(old(reg)@),
        ensures
            final(reg)@.len() >= old(reg)@.len(),
            forall|j: int| 0 <= j < old(reg)@.len() ==> final(reg)@[j] == old(reg)@[j],
            tiles_aligned(final(reg)@, self.config.tile_w as int, self.config.tile_h as int),
            tiles_bounded(final(reg)@),
            positions_distinct(final(reg)@),
            forall|ax: int, ay: int|
                #[trigger] has_tile_at(old(reg)@, ax, ay) ==> has_tile_at(final(reg)@, ax, ay),
            forall|cx: int, cy: int|
                aligned(cx, self.config.tile_w as int) && aligned(cy, self.config.tile_h as int)
                    && band_x_lo(ctx, self.config) <= cx <= band_x_hi(ctx, self.config)
                    && band_y_lo(ctx, self.config) <= cy <= band_y_hi(ctx, self.config)
                    ==> #[trigger] has_tile_at(final(reg)@, cx, cy),
    {
        let tw = self.config.tile_w;
        let th = self.config.tile_h;
        let extra = self.config.extra_tiles;
        proof {
            assert(0 <= extra * tw <= 10_000_000) by (nonlinear_arith)
                requires
                    0 <= extra <= 100,
                    0 < tw <= 100_000,
            ;
            assert(0 <= extra * th <= 10_000_000) by (nonlinear_arith)
                requires
                    0 <= extra <= 100,
                    0 < th <= 100_000,
            ;
        }
        let x_snap = snap_to_grid(ctx.vx - ctx.half_w, tw);
        let x_lo = x_snap - extra * tw;
        let x_hi = ctx.vx + ctx.half_w + extra * tw;
        let y_snap = snap_to_grid(ctx.vy - ctx.half_h, th);
        let y_lo = y_snap - extra * th;
        let y_hi = ctx.vy + ctx.half_h + extra * th;
        proof {
            crate::grid::lemma_aligned_add_multiple(x_snap as int, -(extra as int), tw as int);
            assert((-(extra as int)) * (tw as int) == -(extra * tw)) by (nonlinear_arith);
            crate::grid::lemma_aligned_add_multiple(y_snap as int, -(extra as int), th as int);
            assert((-(extra as int)) * (th as int) == -(extra * th)) by (nonlinear_arith);
        }
        let ghost reg0 = reg@;
        let mut y = y_lo;
        while y <= y_hi
            invariant
                self.wf(),
                ctx.wf(),
                selector.wf(),
                tw == self.config.tile_w,
                th == self.config.tile_h,
                aligned(y as int, th as int),
                y_lo <= y,
                x_lo == band_x_lo(ctx, self.config),
                x_hi == band_x_hi(ctx, self.config),
                y_lo == band_y_lo(ctx, self.config),
                y_hi == band_y_hi(ctx, self.config),
                aligned(x_lo as int, tw as int),
                -COORD_LIMIT <= x_lo,
                x_hi <= COORD_LIMIT,
                -COORD_LIMIT <= y_lo,
                y_hi <= COORD_LIMIT,
                reg@.len() >= reg0.len(),
                forall|j: int| 0 <= j < reg0.len() ==> reg@[j] == reg0[j],
                tiles_aligned(reg@, tw as int, th as int),
                tiles_bounded(reg@),
                positions_distinct(reg@),
                forall|ax: int, ay: int|
                    #[trigger] has_tile_at(reg0, ax, ay) ==> has_tile_at(reg@, ax, ay),
                forall|cx: int, cy: int|
                    aligned(cx, tw as int) && aligned(cy, th as int) && x_lo <= cx <= x_hi && y_lo
                        <= cy < y ==> #[trigger] has_tile_at(reg@, cx, cy),
            decreases y_hi + th - y,
        {
            let ghost pre = reg@;
            spawn_row(reg, selector, tw, th, y, x_lo, x_hi);
            proof {
                assert forall|cx: int, cy: int|
                    aligned(cx, tw as int) && aligned(cy, th as int) && x_lo <= cx <= x_hi && y_lo
                        <= cy < y + th implies #[trigger] has_tile_at(reg@, cx, cy) by {
                    if cy < y {
                        assert(has_tile_at(pre, cx, cy));
                    } else {
                        crate::grid::lemma_snapped_unique(cy, y as int, th as int);
                        assert(has_tile_at(reg@, cx, y as int));
                    }
                }
                assert forall|ax: int, ay: int| #[trigger] has_tile_at(reg0, ax, ay) implies
                    has_tile_at(reg@, ax, ay) by {
                    assert(has_tile_at(pre, ax, ay));
                }
                crate::grid::lemma_aligned_add_multiple(y as int, 1, th as int);
                assert((1int) * (th as int) == th as int) by (nonlinear_arith);
            }
            y = y + th;
        }
    }

    /// One tick of the streaming loop: the despawn pass first, then for
    /// each direction whose anchor the viewpoint has passed by a whole
    /// tile, a fresh spawn band, and finally the anchor updates. A
    /// degenerate viewport (a half-extent of zero or less) leaves the
    /// registry and the anchors untouched.
    pub fn tick(
        &mut self,
        ctx: TickContext,
        reg: &mut TileRegistry,
        selector: &TileTextureSelector,
    )
        requires
            old(self).wf(),
            ctx.wf(),
            selector.wf(),
            tiles_aligned(
                old(reg)@,
                old(self).config.tile_w as int,
                old(self).config.tile_h as int,
            ),
            tiles_bounded(old(reg)@),
            positions_distinct(old(reg)@),
        ensures
            final(self).config == old(self).config,
            final(self).wf(),
            tiles_aligned(
                final(reg)@,
                old(self).config.tile_w as int,
                old(self).config.tile_h as int,
            ),
            tiles_bounded(final(reg)@),
            positions_distinct(final(reg)@),
            degenerate(ctx) ==> *final(self) == *old(self) && final(reg)@ == old(reg)@,
            !degenerate(ctx) ==> {
                &&& final(self).last_spawned_y == if old(self).trigger_up(ctx) || old(
                    self,
                ).trigger_down(ctx) {
                    ctx.vy
                } else {
                    old(self).last_spawned_y
                }
                &&& final(self).last_spawned_x == if old(self).trigger_right(ctx) || old(
                    self,
                ).trigger_left(ctx) {
                    ctx.vx
                } else {
                    old(self).last_spawned_x
                }
                &&& final(reg)@.len() >= old(reg)@.len()
                &&& forall|h: int|
                    0 <= h < old(reg)@.len() ==> final(reg)@[h] == culled_slot(
                        #[trigger] old(reg)@[h],
                        ctx,
                        old(self).config.tolerance as int,
                    )
                &&& forall|ax: int, ay: int|
                    #[trigger] has_tile_at(old(reg)@, ax, ay) && !out_of_view(
                        ax,
                        ay,
                        ctx,
                        old(self).config.tolerance as int,
                    ) ==> has_tile_at(final(reg)@, ax, ay)
                &&& old(self).trigger_up(ctx) ==> forall|cx: int|
                    aligned(cx, old(self).config.tile_w as int) && band_x_lo(
                        ctx,
                        old(self).config,
                    ) <= cx <= band_x_hi(ctx, old(self).config) ==> #[trigger] has_tile_at(
                        final(reg)@,
                        cx,
                        row_up(ctx, old(self).config),
                    ) && has_tile_at(
                        final(reg)@,
                        cx,
                        row_up(ctx, old(self).config) - old(self).config.tile_h,
                    )
                &&& old(self).trigger_down(ctx) ==> forall|cx: int|
                    aligned(cx, old(self).config.tile_w as int) && band_x_lo(
                        ctx,
                        old(self).config,
                    ) <= cx <= band_x_hi(ctx, old(self).config) ==> #[trigger] has_tile_at(
                        final(reg)@,
                        cx,
                        row_down(ctx, old(self).config),
                    ) && has_tile_at(
                        final(reg)@,
                        cx,
                        row_down(ctx, old(self).config) + old(self).config.tile_h,
                    )
                &&& old(self).trigger_right(ctx) ==> forall|cy: int|
                    aligned(cy, old(self).config.tile_h as int) && band_y_lo(
                        ctx,
                        old(self).config,
                    ) <= cy <= band_y_hi(ctx, old(self).config) ==> #[trigger] has_tile_at(
                        final(reg)@,
                        col_right(ctx, old(self).config),
                        cy,
                    ) && has_tile_at(
                        final(reg)@,
                        col_right(ctx, old(self).config) - old(self).config.tile_w,
                        cy,
                    )
                &&& old(self).trigger_left(ctx) ==> forall|cy: int|
                    aligned(cy, old(self).config.tile_h as int) && band_y_lo(
                        ctx,
                        old(self).config,
                    ) <= cy <= band_y_hi(ctx, old(self).config) ==> #[trigger] has_tile_at(
                        final(reg)@,
                        col_left(ctx, old(self).config),
                        cy,
                    ) && has_tile_at(
                        final(reg)@,
                        col_left(ctx, old(self).config) + old(self).config.tile_w,
                        cy,
                    )
            },
    {
        if ctx.half_w <= 0 || ctx.half_h <= 0 {
            return ;
        }
        let ghost reg0 = reg@;
        let ghost cfg = self.config;
        let ghost tol = self.config.tolerance as int;
        self.despawn_pass(ctx, reg);
        let ghost s1 = reg@;
        proof {
            lemma_cull_keeps_invariants(
                reg0,
                s1,
                ctx,
                tol,
                cfg.tile_w as int,
                cfg.tile_h as int,
            );
        }
        let up = ctx.vy >= self.last_spawned_y + self.config.tile_h;
        let down = ctx.vy <= self.last_spawned_y - self.config.tile_h;
        let right = ctx.vx >= self.last_spawned_x + self.config.tile_w;
        let left = ctx.vx <= self.last_spawned_x - self.config.tile_w;
        if up {
            self.spawn_band_up(ctx, reg, selector);
        }
        let ghost s2 = reg@;
        if down {
            self.spawn_band_down(ctx, reg, selector);
        }
        let ghost s3 = reg@;
        if right {
            self.spawn_band_right(ctx, reg, selector);
        }
        let ghost s4 = reg@;
        if left {
            self.spawn_band_left(ctx, reg, selector);
        }
        proof {
            assert forall|h: int| 0 <= h < reg0.len() implies reg@[h] == culled_slot(
                #[trigger] reg0[h],
                ctx,
                tol,
            ) by {
                assert(s1[h] == culled_slot(reg0[h], ctx, tol));
                assert(s2[h] == s1[h]);
                assert(s3[h] == s2[h]);
                assert(s4[h] == s3[h]);
                assert(reg@[h] == s4[h]);
            }
            assert forall|ax: int, ay: int|
                #[trigger] has_tile_at(reg0, ax, ay) && !out_of_view(ax, ay, ctx, tol) implies
                has_tile_at(reg@, ax, ay) by {
                let h = choose|h: int|
                    live(reg0, h) && tile_of(reg0, h).x == ax && tile_of(reg0, h).y == ay;
                assert(s1[h] == culled_slot(reg0[h], ctx, tol));
                assert(live(s1, h) && tile_of(s1, h).x == ax && tile_of(s1, h).y == ay);
                assert(has_tile_at(s1, ax, ay));
                assert(has_tile_at(s2, ax, ay));
                assert(has_tile_at(s3, ax, ay));
                assert(has_tile_at(s4, ax, ay));
            }
            if up {
                assert forall|cx: int|
                    aligned(cx, cfg.tile_w as int) && band_x_lo(ctx, cfg) <= cx <= band_x_hi(
                        ctx,
                        cfg,
                    ) implies #[trigger] has_tile_at(reg@, cx, row_up(ctx, cfg)) && has_tile_at(
                    reg@,
                    cx,
                    row_up(ctx, cfg) - cfg.tile_h,
                ) by {
                    assert(has_tile_at(s2, cx, row_up(ctx, cfg)));
                    assert(has_tile_at(s2, cx, row_up(ctx, cfg) - cfg.tile_h));
                    assert(has_tile_at(s3, cx, row_up(ctx, cfg)));
                    assert(has_tile_at(s3, cx, row_up(ctx, cfg) - cfg.tile_h));
                    assert(has_tile_at(s4, cx, row_up(ctx, cfg)));
                    assert(has_tile_at(s4, cx, row_up(ctx, cfg) - cfg.tile_h));
                }
            }
            if down {
                assert forall|cx: int|
                    aligned(cx, cfg.tile_w as int) && band_x_lo(ctx, cfg) <= cx <= band_x_hi(
                        ctx,
                        cfg,
                    ) implies #[trigger] has_tile_at(reg@, cx, row_down(ctx, cfg)) && has_tile_at(
                    reg@,
                    cx,
                    row_down(ctx, cfg) + cfg.tile_h,
                ) by {
                    assert(has_tile_at(s3, cx, row_down(ctx, cfg)));
                    assert(has_tile_at(s3, cx, row_down(ctx, cfg) + cfg.tile_h));
                    assert(has_tile_at(s4, cx, row_down(ctx, cfg)));
                    assert(has_tile_at(s4, cx, row_down(ctx, cfg) + cfg.tile_h));
                }
            }
            if right {
                assert forall|cy: int|
                    aligned(cy, cfg.tile_h as int) && band_y_lo(ctx, cfg) <= cy <= band_y_hi(
                        ctx,
                        cfg,
                    ) implies #[trigger] has_tile_at(reg@, col_right(ctx, cfg), cy) && has_tile_at(
                    reg@,
                    col_right(ctx, cfg) - cfg.tile_w,
                    cy,
                ) by {
                    assert(has_tile_at(s4, col_right(ctx, cfg), cy));
                    assert(has_tile_at(s4, col_right(ctx, cfg) - cfg.tile_w, cy));
                }
            }
        }
        if up || down {
            self.last_spawned_y = ctx.vy;
        }
        if right || left {
            self.last_spawned_x = ctx.vx;
        }
    }
}

} // verus!
