use tilestream::grid::{snap_to_grid, viewport_corners};

#[test]
fn snap_positive_coordinates() {
    assert_eq!(snap_to_grid(0, 32), 0);
    assert_eq!(snap_to_grid(31, 32), 0);
    assert_eq!(snap_to_grid(32, 32), 32);
    assert_eq!(snap_to_grid(33, 32), 32);
    assert_eq!(snap_to_grid(532, 32), 512);
}

#[test]
fn snap_negative_coordinates_floor() {
    // Floor-division semantics: negative coordinates snap to the lower grid
    // line, not toward zero.
    assert_eq!(snap_to_grid(-1, 32), -32);
    assert_eq!(snap_to_grid(-32, 32), -32);
    assert_eq!(snap_to_grid(-33, 32), -64);
    assert_eq!(snap_to_grid(-400, 32), -416);
    assert_eq!(snap_to_grid(-300, 32), -320);
}

#[test]
fn snap_is_idempotent() {
    for p in [-640, -100, -1, 0, 1, 17, 32, 999] {
        let s = snap_to_grid(p, 32);
        assert_eq!(snap_to_grid(s, 32), s);
        assert_eq!(s % 32, 0);
        assert!(s <= p && p < s + 32);
    }
}

#[test]
fn corners_from_center_and_half_extents() {
    let c = viewport_corners(10, -20, 400, 300);
    assert_eq!(c.right, 410);
    assert_eq!(c.left, -390);
    assert_eq!(c.top, 280);
    assert_eq!(c.bottom, -320);
}
