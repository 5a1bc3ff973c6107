use tilestream::color::Color;
use tilestream::registry::TileRegistry;

fn white() -> Color {
    Color { red: 1000, green: 1000, blue: 1000 }
}

#[test]
fn spawn_then_get() {
    let mut reg = TileRegistry::new();
    assert_eq!(reg.len(), 0);
    assert_eq!(reg.live_count(), 0);
    let h = reg.spawn(32, -64, 3, white());
    assert_eq!(h, 0);
    assert_eq!(reg.len(), 1);
    assert_eq!(reg.live_count(), 1);
    let t = reg.get(h).unwrap();
    assert_eq!(t.x, 32);
    assert_eq!(t.y, -64);
    assert_eq!(t.texture_index, 3);
}

#[test]
fn despawn_clears_slot_and_keeps_handles_stable() {
    let mut reg = TileRegistry::new();
    let a = reg.spawn(0, 0, 0, white());
    let b = reg.spawn(32, 0, 1, white());
    reg.despawn(a);
    assert_eq!(reg.len(), 2);
    assert_eq!(reg.live_count(), 1);
    assert!(reg.get(a).is_none());
    assert_eq!(reg.get(b).unwrap().x, 32);
}

#[test]
fn contains_at_sees_only_live_tiles() {
    let mut reg = TileRegistry::new();
    let a = reg.spawn(0, 0, 0, white());
    assert!(reg.contains_at(0, 0));
    assert!(!reg.contains_at(32, 0));
    reg.despawn(a);
    assert!(!reg.contains_at(0, 0));
}

#[test]
fn set_tint_changes_only_the_tint() {
    let mut reg = TileRegistry::new();
    let h = reg.spawn(64, 96, 2, white());
    reg.set_tint(h, Color { red: 150, green: 150, blue: 300 });
    let t = reg.get(h).unwrap();
    assert_eq!(t.x, 64);
    assert_eq!(t.y, 96);
    assert_eq!(t.texture_index, 2);
    assert_eq!(t.tint, Color { red: 150, green: 150, blue: 300 });
}

#[test]
fn tiles_in_bounds_returns_exactly_the_contained_live_tiles() {
    let mut reg = TileRegistry::new();
    let a = reg.spawn(0, 0, 0, white());
    let b = reg.spawn(32, 0, 0, white());
    let c = reg.spawn(96, 0, 0, white());
    let d = reg.spawn(0, 96, 0, white());
    reg.despawn(b);
    let hits = reg.tiles_in_bounds(-16, -16, 64, 64);
    assert_eq!(hits, vec![a]);
    let all = reg.tiles_in_bounds(-1000, -1000, 1000, 1000);
    assert_eq!(all, vec![a, c, d]);
}
