use tilestream::registry::TileRegistry;
use tilestream::selector::TileTextureSelector;
use tilestream::streaming::{StreamConfig, StreamingController, TickContext};
use tilestream::ConfigError;

fn config(extra_tiles: i64) -> StreamConfig {
    StreamConfig { tile_w: 32, tile_h: 32, tolerance: 100, extra_tiles }
}

fn selector() -> TileTextureSelector {
    // Four textures, two of them repeated to raise their odds.
    TileTextureSelector::new(vec![0, 1, 2, 2, 2, 3, 3]).unwrap()
}

fn ctx(vx: i64, vy: i64) -> TickContext {
    TickContext { vx, vy, half_w: 400, half_h: 300 }
}

fn count_live(reg: &TileRegistry) -> usize {
    reg.live_count()
}

#[test]
fn empty_palette_is_a_fatal_configuration_error() {
    match TileTextureSelector::new(vec![]) {
        Ok(_) => panic!("an empty palette must be rejected"),
        Err(e) => assert_eq!(e, ConfigError::EmptyPalette),
    }
}

#[test]
fn pick_returns_a_palette_entry() {
    let s = TileTextureSelector::new(vec![7]).unwrap();
    for _ in 0..32 {
        assert_eq!(s.pick(), 7);
    }
    let s = TileTextureSelector::new(vec![1, 2, 3]).unwrap();
    for _ in 0..64 {
        assert!([1, 2, 3].contains(&s.pick()));
    }
}

#[test]
fn initial_fill_covers_the_viewport_rectangle_without_gaps() {
    // Viewpoint (0,0), viewport 800x600, 32x32 tiles, 6 extra tiles margin.
    let ctl = StreamingController::new(config(6));
    let mut reg = TileRegistry::new();
    let sel = selector();
    ctl.fill_viewport(ctx(0, 0), &mut reg, &sel);
    // Band rectangle: x in [-608, 592], y in [-512, 492], snapped columns
    // -608..=576 (38) and rows -512..=480 (32).
    assert_eq!(count_live(&reg), 38 * 32);
    let mut cx = -608;
    while cx <= 576 {
        let mut cy = -512;
        while cy <= 480 {
            assert!(reg.contains_at(cx, cy), "gap at ({cx},{cy})");
            cy += 32;
        }
        cx += 32;
    }
    // No stacked duplicates anywhere: every cell has exactly one tile.
    let mut n = 0;
    for h in 0..reg.len() {
        if let Some(t) = reg.get(h) {
            assert_eq!(t.x % 32, 0);
            assert_eq!(t.y % 32, 0);
            n += 1;
        }
    }
    assert_eq!(n, 38 * 32);
}

#[test]
fn fill_is_idempotent_because_of_deduplication() {
    let ctl = StreamingController::new(config(2));
    let mut reg = TileRegistry::new();
    let sel = selector();
    ctl.fill_viewport(ctx(0, 0), &mut reg, &sel);
    let before = count_live(&reg);
    ctl.fill_viewport(ctx(0, 0), &mut reg, &sel);
    assert_eq!(count_live(&reg), before);
}

#[test]
fn tiles_align_to_grid_for_negative_viewpoints_too() {
    let ctl = StreamingController::new(config(1));
    let mut reg = TileRegistry::new();
    let sel = selector();
    ctl.fill_viewport(TickContext { vx: -1000, vy: -777, half_w: 100, half_h: 50 }, &mut reg, &sel);
    assert!(count_live(&reg) > 0);
    for h in 0..reg.len() {
        if let Some(t) = reg.get(h) {
            // rem_euclid: exact multiples also below zero.
            assert_eq!(t.x.rem_euclid(32), 0);
            assert_eq!(t.y.rem_euclid(32), 0);
        }
    }
}

#[test]
fn move_right_by_one_tile_updates_anchor_and_spawns_the_right_band() {
    let mut ctl = StreamingController::new(config(0));
    let mut reg = TileRegistry::new();
    let sel = selector();
    ctl.fill_viewport(ctx(0, 0), &mut reg, &sel);
    let before = count_live(&reg);
    assert_eq!(ctl.last_spawned_x, 0);

    // Exactly one tile width to the right: the right-direction anchor
    // updates and a fresh vertical band appears beyond the right edge.
    ctl.tick(ctx(32, 0), &mut reg, &sel);
    assert_eq!(ctl.last_spawned_x, 32);
    assert_eq!(ctl.last_spawned_y, 0);
    // Primary column: snap(32 + 400 + 100) = 512, safety column 480.
    let mut cy = -320;
    while cy <= 300 - 32 {
        assert!(reg.contains_at(512, cy), "gap in fresh column at y={cy}");
        assert!(reg.contains_at(480, cy), "gap in safety column at y={cy}");
        cy += 32;
    }
    // Nothing fell out of the tolerance margin on such a small move.
    assert!(count_live(&reg) > before);
    assert!(reg.contains_at(-416, 0));
}

#[test]
fn moving_far_right_despawns_columns_behind_the_tolerance() {
    let mut ctl = StreamingController::new(config(0));
    let mut reg = TileRegistry::new();
    let sel = selector();
    ctl.fill_viewport(ctx(0, 0), &mut reg, &sel);
    assert!(reg.contains_at(-416, 0));

    // 320 units right: the despawn bound is 320-400-200 = -280, so the
    // leftmost columns (x < -280) are culled, while x = -256 survives.
    ctl.tick(ctx(320, 0), &mut reg, &sel);
    assert!(!reg.contains_at(-416, 0));
    assert!(!reg.contains_at(-288, 0));
    assert!(reg.contains_at(-256, 0));
    assert!(reg.contains_at(0, 0));
}

#[test]
fn small_oscillation_despawns_nothing() {
    // The hysteresis band: moves smaller than the tolerance never cull a
    // freshly spawned tile, so the boundary cannot flicker.
    let mut ctl = StreamingController::new(config(0));
    let mut reg = TileRegistry::new();
    let sel = selector();
    ctl.fill_viewport(ctx(0, 0), &mut reg, &sel);
    ctl.tick(ctx(32, 0), &mut reg, &sel);
    let after_spawn = count_live(&reg);
    // Oscillate by less than the tolerance (100) around the boundary; the
    // moves also stay under one tile so no new band triggers, and the
    // registry must stay exactly as it was: no despawn, no respawn.
    for step in [50i64, 32, 40, 32, 45, 33] {
        ctl.tick(ctx(step, 0), &mut reg, &sel);
        assert_eq!(count_live(&reg), after_spawn, "flicker at step {step}");
    }
    // The fresh band of the first tick is still fully alive.
    let mut cy = -320;
    while cy <= 300 - 32 {
        assert!(reg.contains_at(512, cy));
        assert!(reg.contains_at(480, cy));
        cy += 32;
    }
}

#[test]
fn degenerate_viewport_changes_nothing() {
    let mut ctl = StreamingController::new(config(3));
    let mut reg = TileRegistry::new();
    let sel = selector();
    ctl.fill_viewport(ctx(0, 0), &mut reg, &sel);
    let before = count_live(&reg);
    // A window resize reporting a zero or negative size must not cull the
    // world or move the anchors.
    ctl.tick(TickContext { vx: 5000, vy: 5000, half_w: 0, half_h: 300 }, &mut reg, &sel);
    ctl.tick(TickContext { vx: 5000, vy: 5000, half_w: 400, half_h: -5 }, &mut reg, &sel);
    assert_eq!(count_live(&reg), before);
    assert_eq!(ctl.last_spawned_x, 0);
    assert_eq!(ctl.last_spawned_y, 0);
}

#[test]
fn diagonal_move_triggers_both_axes() {
    let mut ctl = StreamingController::new(config(0));
    let mut reg = TileRegistry::new();
    let sel = selector();
    ctl.fill_viewport(ctx(0, 0), &mut reg, &sel);
    ctl.tick(ctx(32, 32), &mut reg, &sel);
    assert_eq!(ctl.last_spawned_x, 32);
    assert_eq!(ctl.last_spawned_y, 32);
    // Both a fresh column (right) and a fresh row (up) exist.
    assert!(reg.contains_at(512, 0));
    assert!(reg.contains_at(0, 416)); // snap(32 + 300 + 100) = 416
    // Still no duplicates: positions pairwise distinct.
    let mut seen = std::collections::BTreeSet::new();
    for h in 0..reg.len() {
        if let Some(t) = reg.get(h) {
            assert!(seen.insert((t.x, t.y)), "duplicate tile at ({}, {})", t.x, t.y);
        }
    }
}

#[test]
fn wandering_viewpoint_leaves_no_gap_in_the_viewport() {
    // A margin-rich configuration: tolerance of at least three tiles, extra
    // band tiles spanning the tolerance and three tiles more. Under moves
    // of at most one tile per axis per tick, every grid cell inside the
    // strict viewport must hold exactly one tile after every tick.
    let cfg = StreamConfig { tile_w: 32, tile_h: 32, tolerance: 100, extra_tiles: 7 };
    let mut ctl = StreamingController::new(cfg);
    let mut reg = TileRegistry::new();
    let sel = selector();
    let (half_w, half_h) = (200i64, 150i64);
    let mut vx = 0i64;
    let mut vy = 0i64;
    ctl.fill_viewport(TickContext { vx, vy, half_w, half_h }, &mut reg, &sel);
    let moves: [(i64, i64); 14] = [
        (32, 0), (32, 0), (32, 32), (0, 32), (-32, 32), (-32, 0), (-32, -32), (0, -32),
        (17, -32), (32, -5), (32, 0), (-1, 32), (0, 32), (-32, 32),
    ];
    for (dx, dy) in moves {
        vx += dx;
        vy += dy;
        ctl.tick(TickContext { vx, vy, half_w, half_h }, &mut reg, &sel);
        // Every aligned cell of the strict viewport is covered.
        let mut cx = vx - half_w;
        while cx % 32 != 0 {
            cx += 1;
        }
        while cx <= vx + half_w {
            let mut cy = vy - half_h;
            while cy % 32 != 0 {
                cy += 1;
            }
            while cy <= vy + half_h {
                assert!(reg.contains_at(cx, cy), "gap at ({cx},{cy}), viewpoint ({vx},{vy})");
                cy += 32;
            }
            cx += 32;
        }
        // And no cell holds two tiles.
        let mut seen = std::collections::BTreeSet::new();
        for h in 0..reg.len() {
            if let Some(t) = reg.get(h) {
                assert!(seen.insert((t.x, t.y)), "duplicate at ({}, {})", t.x, t.y);
            }
        }
    }
}

#[test]
fn no_trigger_without_a_full_tile_of_movement() {
    let mut ctl = StreamingController::new(config(0));
    let mut reg = TileRegistry::new();
    let sel = selector();
    ctl.fill_viewport(ctx(0, 0), &mut reg, &sel);
    let before = count_live(&reg);
    ctl.tick(ctx(31, 31), &mut reg, &sel);
    assert_eq!(ctl.last_spawned_x, 0);
    assert_eq!(ctl.last_spawned_y, 0);
    assert_eq!(count_live(&reg), before);
}
