//! The tile registry: owns the live set of spawned tiles. A handle is the
//! index of the slot a tile was spawned into; despawning clears the slot and
//! never reuses it, so handles stay stable for the registry's lifetime.

use vstd::prelude::*;

verus! {

use crate::color::Color;
use crate::grid::aligned;
use crate::COORD_LIMIT;

/// One live tile: a world position, the palette entry of its texture, and
/// its current rendered tint.
#[derive(Clone, Copy, Debug, PartialEq, Eq, Structural)]
pub struct TileRecord {
    pub x: i64,
    pub y: i64,
    pub texture_index: usize,
    pub tint: Color,
}

/// A handle is live when its slot still holds a tile.
pub open spec fn live(s: Seq<Option<TileRecord>>, h: int) -> bool {
    0 <= h < s.len() && s[h] is Some
}

/// The tile behind a live handle.
pub open spec fn tile_of(s: Seq<Option<TileRecord>>, h: int) -> TileRecord {
    s[h].unwrap()
}

/// Some live tile sits at exactly this position.
pub open spec fn has_tile_at(s: Seq<Option<TileRecord>>, x: int, y: int) -> bool {
    exists|h: int| live(s, h) && tile_of(s, h).x == x && tile_of(s, h).y == y
}

/// No two live tiles share a position: the grid holds no stacked duplicates.
pub open spec fn positions_distinct(s: Seq<Option<TileRecord>>) -> bool {
    forall|i: int, j: int|
        live(s, i) && live(s, j) && i != j ==> !(tile_of(s, i).x == tile_of(s, j).x && tile_of(
            s,
            i,
        ).y == tile_of(s, j).y)
}

/// Every live tile is snapped to the grid of the given tile size.
pub open spec fn tiles_aligned(s: Seq<Option<TileRecord>>, tile_w: int, tile_h: int) -> bool {
    forall|h: int|
        live(s, h) ==> aligned(#[trigger] tile_of(s, h).x as int, tile_w) && aligned(
            tile_of(s, h).y as int,
            tile_h,
        )
}

/// Every live tile lies within the world coordinate bound.
pub open spec fn tiles_bounded(s: Seq<Option<TileRecord>>) -> bool {
    forall|h: int|
        live(s, h) ==> -COORD_LIMIT <= #[trigger] tile_of(s, h).x <= COORD_LIMIT && -COORD_LIMIT
            <= tile_of(s, h).y <= COORD_LIMIT
}

/// How many slots hold a live tile.
pub open spec fn count_live(s: Seq<Option<TileRecord>>) -> nat
    decreases s.len(),
{
    if s.len() == 0 {
        0
    } else {
        count_live(s.drop_last()) + (if s.last() is Some {
            1nat
        } else {
            0nat
        })
    }
}

/// Appending a tile at a position no live tile holds keeps positions
/// distinct, keeps alignment and bounds when the new tile has them, keeps
/// every present tile present, and puts a tile at the new position.
pub proof fn lemma_spawn_keeps_invariants(
    s: Seq<Option<TileRecord>>,
    t: TileRecord,
    tile_w: int,
    tile_h: int,
)
    requires
        positions_distinct(s),
        !has_tile_at(s, t.x as int, t.y as int),
    ensures
        positions_distinct(s.push(Some(t))),
        tiles_aligned(s, tile_w, tile_h) && aligned(t.x as int, tile_w) && aligned(
            t.y as int,
            tile_h,
        ) ==> tiles_aligned(s.push(Some(t)), tile_w, tile_h),
        tiles_bounded(s) && -COORD_LIMIT <= t.x <= COORD_LIMIT && -COORD_LIMIT <= t.y
            <= COORD_LIMIT ==> tiles_bounded(s.push(Some(t))),
        forall|ax: int, ay: int|
            #[trigger] has_tile_at(s, ax, ay) ==> has_tile_at(s.push(Some(t)), ax, ay),
        has_tile_at(s.push(Some(t)), t.x as int, t.y as int),
{
    let s2 = s.push(Some(t));
    assert(forall|h: int| 0 <= h < s.len() ==> s2[h] == s[h]);
    assert(s2[s.len() as int] == Some(t));
    assert(live(s2, s.len() as int) && tile_of(s2, s.len() as int) == t);
    assert forall|i: int, j: int|
        live(s2, i) && live(s2, j) && i != j implies !(tile_of(s2, i).x == tile_of(s2, j).x
        && tile_of(s2, i).y == tile_of(s2, j).y) by {
        if i < s.len() && j < s.len() {
            assert(live(s, i) && live(s, j));
            assert(tile_of(s2, i) == tile_of(s, i) && tile_of(s2, j) == tile_of(s, j));
            assert(!(tile_of(s, i).x == tile_of(s, j).x && tile_of(s, i).y == tile_of(s, j).y));
        } else if i < s.len() && j == s.len() {
            if tile_of(s, i).x == t.x && tile_of(s, i).y == t.y {
                assert(live(s, i) && tile_of(s, i).x == t.x as int && tile_of(s, i).y
                    == t.y as int);
                assert(has_tile_at(s, t.x as int, t.y as int));
            }
        } else if j < s.len() && i == s.len() {
            if tile_of(s, j).x == t.x && tile_of(s, j).y == t.y {
                assert(live(s, j) && tile_of(s, j).x == t.x as int && tile_of(s, j).y
                    == t.y as int);
                assert(has_tile_at(s, t.x as int, t.y as int));
            }
        }
    }
    if tiles_aligned(s, tile_w, tile_h) && aligned(t.x as int, tile_w) && aligned(
        t.y as int,
        tile_h,
    ) {
        assert forall|h: int| live(s2, h) implies aligned(
            #[trigger] tile_of(s2, h).x as int,
            tile_w,
        ) && aligned(tile_of(s2, h).y as int, tile_h) by {
            if h < s.len() {
                assert(live(s, h));
                assert(aligned(tile_of(s, h).x as int, tile_w));
            } else {
                assert(tile_of(s2, h) == t);
            }
        }
    }
    if tiles_bounded(s) && -COORD_LIMIT <= t.x <= COORD_LIMIT && -COORD_LIMIT <= t.y
        <= COORD_LIMIT {
        assert forall|h: int| live(s2, h) implies -COORD_LIMIT <= #[trigger] tile_of(s2, h).x
            <= COORD_LIMIT && -COORD_LIMIT <= tile_of(s2, h).y <= COORD_LIMIT by {
            if h < s.len() {
                assert(live(s, h));
                assert(-COORD_LIMIT <= tile_of(s, h).x <= COORD_LIMIT);
            } else {
                assert(tile_of(s2, h) == t);
            }
        }
    }
    assert forall|ax: int, ay: int| #[trigger] has_tile_at(s, ax, ay) implies has_tile_at(
        s2,
        ax,
        ay,
    ) by {
        let h = choose|h: int| live(s, h) && tile_of(s, h).x == ax && tile_of(s, h).y == ay;
        assert(live(s2, h) && tile_of(s2, h).x == ax && tile_of(s2, h).y == ay);
    }
}

/// Clearing one slot keeps positions distinct, alignment and bounds: culling
/// can only shrink the live set.
pub proof fn lemma_clear_keeps_invariants(
    s: Seq<Option<TileRecord>>,
    h: int,
    tile_w: int,
    tile_h: int,
)
    requires
        0 <= h < s.len(),
    ensures
        positions_distinct(s) ==> positions_distinct(s.update(h, None)),
        tiles_aligned(s, tile_w, tile_h) ==> tiles_aligned(s.update(h, None), tile_w, tile_h),
        tiles_bounded(s) ==> tiles_bounded(s.update(h, None)),
{
    let s2 = s.update(h, None);
    assert(forall|j: int| 0 <= j < s.len() && j != h ==> s2[j] == s[j]);
    assert(forall|j: int| live(s2, j) ==> live(s, j) && tile_of(s2, j) == tile_of(s, j));
}

/// Owns the live tiles. The view is the sequence of slots, each either a
/// live tile or cleared by a despawn.
pub struct TileRegistry {
    slots: Vec<Option<TileRecord>>,
}

impl View for TileRegistry {
    type V = Seq<Option<TileRecord>>;

    closed spec fn view(&self) -> Seq<Option<TileRecord>> {
        self.slots@
    }
}

impl TileRegistry {
    /// An empty registry: no tiles, no handles handed out yet.
    pub fn new() -> (r: TileRegistry)
        ensures
            r@ =~= Seq::<Option<TileRecord>>::empty(),
    {
        TileRegistry { slots: Vec::new() }
    }

    /// The number of slots ever allocated (live and cleared together).
    pub fn len(&self) -> (n: usize)
        ensures
            n == self@.len(),
    {
        self.slots.len()
    }

    /// Reads a slot: the tile behind the handle, or `None` once despawned.
    pub fn get(&self, h: usize) -> (r: Option<TileRecord>)
        requires
            h < self@.len(),
        ensures
            r == self@[h as int],
    {
        self.slots[h]
    }

    /// Spawns a tile and returns its handle. The caller chooses the
    /// (already snapped) position; spawning a duplicate of a live position
    /// is a registry desync, so it is ruled out up front.
    pub fn spawn(&mut self, x: i64, y: i64, texture_index: usize, tint: Color) -> (h: usize)
        requires
            !has_tile_at(old(self)@, x as int, y as int),
        ensures
            h == old(self)@.len(),
            final(self)@ =~= old(self)@.push(
                Some(TileRecord { x, y, texture_index, tint }),
            ),
    {
        let h = self.slots.len();
        self.slots.push(Some(TileRecord { x, y, texture_index, tint }));
        h
    }

    /// Removes the tile behind a live handle; the slot stays cleared.
    /// Despawning a handle that is not live is a registry desync, so it is
    /// ruled out up front.
    pub fn despawn(&mut self, h: usize)
        requires
            live(old(self)@, h as int),
        ensures
            final(self)@ =~= old(self)@.update(h as int, None),
    {
        self.slots.set(h, None);
    }

    /// Replaces the rendered tint of a live tile, leaving everything else of
    /// it unchanged.
    pub fn set_tint(&mut self, h: usize, tint: Color)
        requires
            live(old(self)@, h as int),
        ensures
            final(self)@ =~= old(self)@.update(
                h as int,
                Some(
                    TileRecord {
                        x: tile_of(old(self)@, h as int).x,
                        y: tile_of(old(self)@, h as int).y,
                        texture_index: tile_of(old(self)@, h as int).texture_index,
                        tint,
                    },
                ),
            ),
    {
        let t = self.slots[h].unwrap();
        self.slots.set(
            h,
            Some(TileRecord { x: t.x, y: t.y, texture_index: t.texture_index, tint }),
        );
    }

    /// Whether some live tile sits at exactly `(x, y)`: the check-before-
    /// spawn query that keeps the grid free of duplicates.
    pub fn contains_at(&self, x: i64, y: i64) -> (b: bool)
        ensures
            b == has_tile_at(self@, x as int, y as int),
    {
        let n = self.slots.len();
        let mut i: usize = 0;
        while i < n
            invariant
                n == self@.len(),
                i <= n,
                forall|h: int|
                    0 <= h < i ==> !(live(self@, h) && tile_of(self@, h).x == x && tile_of(
                        self@,
                        h,
                    ).y == y),
            decreases n - i,
        {
            match self.slots[i] {
                Some(t) => {
                    if t.x == x && t.y == y {
                        assert(live(self@, i as int) && tile_of(self@, i as int).x == x && tile_of(
                            self@,
                            i as int,
                        ).y == y);
                        return true;
                    }
                },
                None => {},
            }
            i = i + 1;
        }
        false
    }

    /// How many tiles are currently live.
    pub fn live_count(&self) -> (n: usize)
        ensures
            n == count_live(self@),
    {
        let mut n: usize = 0;
        let mut i: usize = 0;
        while i < self.slots.len()
            invariant
                i <= self@.len(),
                n == count_live(self@.take(i as int)),
                n <= i,
            decreases self@.len() - i,
        {
            proof {
                let taken = self@.take(i + 1int);
                assert(taken.drop_last() =~= self@.take(i as int));
                assert(taken.last() == self@[i as int]);
            }
            if self.slots[i].is_some() {
                n = n + 1;
            }
            i = i + 1;
        }
        proof {
            assert(self@.take(self@.len() as int) =~= self@);
        }
        n
    }

    /// The handles of all live tiles whose position lies within the closed
    /// rectangle `[min_x, max_x] x [min_y, max_y]`, in ascending handle
    /// order: the spatial-bounds query of the culling pass.
    pub fn tiles_in_bounds(&self, min_x: i64, min_y: i64, max_x: i64, max_y: i64) -> (r: Vec<
        usize,
    >)
        ensures
            forall|k: int|
                0 <= k < r@.len() ==> live(self@, #[trigger] r@[k] as int) && min_x <= tile_of(
                    self@,
                    r@[k] as int,
                ).x <= max_x && min_y <= tile_of(self@, r@[k] as int).y <= max_y,
            forall|h: int|
                live(self@, h) && min_x <= tile_of(self@, h).x <= max_x && min_y <= tile_of(
                    self@,
                    h,
                ).y <= max_y ==> r@.contains(h as usize),
            forall|k1: int, k2: int| 0 <= k1 < k2 < r@.len() ==> r@[k1] < r@[k2],
    {
        let n = self.slots.len();
        let mut r: Vec<usize> = Vec::new();
        let mut i: usize = 0;
        while i < n
            invariant
                n == self@.len(),
                i <= n,
                forall|k: int|
                    0 <= k < r@.len() ==> live(self@, #[trigger] r@[k] as int) && min_x <= tile_of(
                        self@,
                        r@[k] as int,
                    ).x <= max_x && min_y <= tile_of(self@, r@[k] as int).y <= max_y,
                forall|h: int|
                    0 <= h < i && live(self@, h) && min_x <= tile_of(self@, h).x <= max_x && min_y
                        <= tile_of(self@, h).y <= max_y ==> r@.contains(h as usize),
                forall|k: int| 0 <= k < r@.len() ==> r@[k] < i,
                forall|k1: int, k2: int| 0 <= k1 < k2 < r@.len() ==> r@[k1] < r@[k2],
            decreases n - i,
        {
            match self.slots[i] {
                Some(t) => {
                    if min_x <= t.x && t.x <= max_x && min_y <= t.y && t.y <= max_y {
                        let ghost r0 = r@;
                        r.push(i);
                        proof {
                            assert forall|u: usize| r0.contains(u) implies r@.contains(u) by {
                                let k = choose|k: int| 0 <= k < r0.len() && r0[k] == u;
                                assert(r@[k] == u);
                            }
                            assert(r@[r@.len() - 1] == i);
                            assert(r@.contains(i));
                        }
                    }
                },
                None => {},
            }
            i = i + 1;
        }
        r
    }
}

} // verus!
