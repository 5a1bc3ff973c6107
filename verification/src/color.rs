//! Fixed-point RGB colors. A channel value of `CHANNEL_SCALE` stands for
//! full intensity, so every well-formed channel lies in `[0, CHANNEL_SCALE]`.

use vstd::prelude::*;

verus! {

/// Fixed-point scale of one color channel: this value stands for intensity 1.
pub const CHANNEL_SCALE: u32 = 1000;

/// An RGB color with fixed-point channels on the `CHANNEL_SCALE` scale.
#[derive(Clone, Copy, Debug, PartialEq, Eq, Structural)]
pub struct Color {
    pub red: u32,
    pub green: u32,
    pub blue: u32,
}

/// A channel sum clamped to the saturation point.
pub open spec fn clamp_channel(v: int) -> u32 {
    if v > CHANNEL_SCALE { CHANNEL_SCALE } else { v as u32 }
}

/// Channel-wise addition, saturating at `CHANNEL_SCALE`: adding light to a
/// color never wraps and never leaves the displayable range.
pub open spec fn clamped_add(a: Color, b: Color) -> Color {
    Color {
        red: clamp_channel(a.red + b.red),
        green: clamp_channel(a.green + b.green),
        blue: clamp_channel(a.blue + b.blue),
    }
}

impl Color {
    /// Every channel lies within the saturation range.
    pub open spec fn wf(self) -> bool {
        self.red <= CHANNEL_SCALE && self.green <= CHANNEL_SCALE && self.blue <= CHANNEL_SCALE
    }

    /// A color from channel values on the `CHANNEL_SCALE` scale.
    pub fn rgb(red: u32, green: u32, blue: u32) -> (c: Color)
        requires
            red <= CHANNEL_SCALE,
            green <= CHANNEL_SCALE,
            blue <= CHANNEL_SCALE,
        ensures
            c == (Color { red, green, blue }),
            c.wf(),
    {
        Color { red, green, blue }
    }

    /// Adds `other` channel-wise, saturating at `CHANNEL_SCALE`.
    pub fn saturating_add(self, other: Color) -> (c: Color)
        ensures
            c == clamped_add(self, other),
            c.wf(),
    {
        let red = self.red as u64 + other.red as u64;
        let green = self.green as u64 + other.green as u64;
        let blue = self.blue as u64 + other.blue as u64;
        Color {
            red: if red > CHANNEL_SCALE as u64 { CHANNEL_SCALE } else { red as u32 },
            green: if green > CHANNEL_SCALE as u64 { CHANNEL_SCALE } else { green as u32 },
            blue: if blue > CHANNEL_SCALE as u64 { CHANNEL_SCALE } else { blue as u32 },
        }
    }
}

} // verus!
