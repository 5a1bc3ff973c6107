use tilestream::color::Color;
use tilestream::light::LightSource;
use tilestream::lighting::{evaluate, falloff, isqrt, update_lighting};
use tilestream::registry::TileRegistry;
use tilestream::ConfigError;

fn ambient() -> Color {
    Color { red: 150, green: 150, blue: 300 }
}

fn scene_light() -> LightSource {
    LightSource::new(400, 400, 200, 250, Color { red: 560, green: 490, blue: 420 }).unwrap()
}

#[test]
fn isqrt_exact_values() {
    assert_eq!(isqrt(0), 0);
    assert_eq!(isqrt(1), 1);
    assert_eq!(isqrt(15), 3);
    assert_eq!(isqrt(16), 4);
    assert_eq!(isqrt(62499), 249);
    assert_eq!(isqrt(62500), 250);
    assert_eq!(isqrt(8_000_000_000_000_000_000), 2_828_427_124);
}

#[test]
fn falloff_exact_values() {
    // Full share within the inner range, zero from the maximum range on,
    // linear in between.
    assert_eq!(falloff(0, 200, 250), 1000);
    assert_eq!(falloff(200, 200, 250), 1000);
    assert_eq!(falloff(210, 200, 250), 800);
    assert_eq!(falloff(225, 200, 250), 500);
    assert_eq!(falloff(249, 200, 250), 20);
    assert_eq!(falloff(250, 200, 250), 0);
    assert_eq!(falloff(10_000, 200, 250), 0);
}

#[test]
fn falloff_is_monotonically_non_increasing() {
    let mut last: u32 = 1001;
    for d in 0..400u64 {
        let f = falloff(d, 200, 250);
        assert!(f <= last);
        last = f;
    }
}

#[test]
fn lamp_scene_center_tile() {
    // A tile exactly on the light: ambient plus the full light color,
    // channel-wise, capped at full intensity.
    let lights = vec![scene_light()];
    let c = evaluate(400, 400, &lights, ambient());
    assert_eq!(c, Color { red: 710, green: 640, blue: 720 });
}

#[test]
fn lamp_scene_tile_beyond_max_range_is_ambient() {
    let lights = vec![scene_light()];
    // Distance exactly 250 (straight up) and far away: ambient only.
    assert_eq!(evaluate(400, 650, &lights, ambient()), ambient());
    assert_eq!(evaluate(400, 1650, &lights, ambient()), ambient());
    // Distance 250 along a diagonal: 150-200-250 triangle.
    assert_eq!(evaluate(400 + 150, 400 + 200, &lights, ambient()), ambient());
}

#[test]
fn lamp_scene_tile_within_inner_range_gets_full_color() {
    let lights = vec![scene_light()];
    assert_eq!(evaluate(400, 550, &lights, ambient()), Color {
        red: 710,
        green: 640,
        blue: 720,
    });
}

#[test]
fn lamp_scene_tile_in_falloff_band() {
    let lights = vec![scene_light()];
    // Distance 225: half share, so half of each light channel is added.
    let c = evaluate(400, 625, &lights, ambient());
    assert_eq!(c, Color { red: 150 + 280, green: 150 + 245, blue: 300 + 210 });
}

#[test]
fn brightness_non_increasing_with_distance() {
    let lights = vec![scene_light()];
    let mut last = Color { red: 1000, green: 1000, blue: 1000 };
    for step in 0..40 {
        let c = evaluate(400, 400 + step * 10, &lights, ambient());
        assert!(c.red <= last.red && c.green <= last.green && c.blue <= last.blue);
        last = c;
    }
}

#[test]
fn channels_saturate_and_never_wrap() {
    // Many bright overlapping lights: every channel stays at most 1000.
    let mut lights = Vec::new();
    for i in 0..8 {
        lights.push(
            LightSource::new(i * 10, 0, 500, 600, Color { red: 1000, green: 900, blue: 800 })
                .unwrap(),
        );
    }
    let c = evaluate(0, 0, &lights, ambient());
    assert_eq!(c, Color { red: 1000, green: 1000, blue: 1000 });
    let far = evaluate(100_000, 0, &lights, ambient());
    assert_eq!(far, ambient());
}

#[test]
fn two_lights_add_their_contributions() {
    let l1 = LightSource::new(-100, 0, 10, 110, Color { red: 100, green: 0, blue: 0 }).unwrap();
    let l2 = LightSource::new(100, 0, 10, 110, Color { red: 0, green: 200, blue: 0 }).unwrap();
    let lights = vec![l1, l2];
    // The origin is at distance 100 of both: share (110-100)/100 = 10%.
    let c = evaluate(0, 0, &lights, ambient());
    assert_eq!(c, Color { red: 160, green: 170, blue: 300 });
}

#[test]
fn light_construction_rejects_bad_ranges() {
    let col = Color { red: 100, green: 100, blue: 100 };
    assert_eq!(
        LightSource::new(0, 0, 250, 200, col).unwrap_err(),
        ConfigError::LightRangeInvalid
    );
    assert_eq!(
        LightSource::new(0, 0, 200, 200, col).unwrap_err(),
        ConfigError::LightRangeInvalid
    );
    assert_eq!(
        LightSource::new(0, 0, -5, 200, col).unwrap_err(),
        ConfigError::LightRangeInvalid
    );
}

#[test]
fn light_construction_rejects_out_of_bounds_position() {
    let col = Color { red: 100, green: 100, blue: 100 };
    assert_eq!(
        LightSource::new(2_000_000_000, 0, 100, 200, col).unwrap_err(),
        ConfigError::LightOutOfBounds
    );
}

#[test]
fn light_construction_rejects_overbright_color() {
    assert_eq!(
        LightSource::new(0, 0, 100, 200, Color { red: 1001, green: 0, blue: 0 }).unwrap_err(),
        ConfigError::LightColorOutOfRange
    );
}

#[test]
fn lighting_pass_tints_every_live_tile() {
    let mut reg = TileRegistry::new();
    let white = Color { red: 1000, green: 1000, blue: 1000 };
    let near = reg.spawn(400, 400, 0, white);
    let far = reg.spawn(400, 1650, 0, white);
    let gone = reg.spawn(0, 0, 0, white);
    reg.despawn(gone);
    let lights = vec![scene_light()];
    update_lighting(&mut reg, &lights, ambient());
    assert_eq!(reg.get(near).unwrap().tint, Color { red: 710, green: 640, blue: 720 });
    assert_eq!(reg.get(far).unwrap().tint, ambient());
    assert!(reg.get(gone).is_none());
    // Positions and textures are untouched.
    assert_eq!(reg.get(near).unwrap().x, 400);
    assert_eq!(reg.get(far).unwrap().y, 1650);
}
