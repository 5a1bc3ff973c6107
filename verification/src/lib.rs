//! Camera-relative tile streaming with local lighting.
//!
//! The library keeps a grid of background tiles alive around a moving
//! viewpoint: bands of tiles are spawned just beyond the visible viewport
//! edge as the viewpoint advances, and tiles are despawned once they fall a
//! tolerance margin behind it. Independently, a lighting pass blends a base
//! ambient tint with distance-falloff contributions from point light sources
//! and writes the resulting color to every live tile.
//!
//! All world coordinates are integer world units; colors are fixed-point
//! channels on a scale of 0 to 1000.

use vstd::prelude::*;

pub mod color;
pub mod grid;
pub mod light;
pub mod lighting;
pub mod registry;
pub mod selector;
pub mod streaming;

verus! {

/// Bound on the magnitude of any tile or light coordinate: keeps squared
/// distances within `i64` range in the lighting pass.
pub const COORD_LIMIT: i64 = 1_000_000_000;

/// A fatal configuration fault, detected at construction time before the
/// streaming loop starts.
#[derive(Clone, Copy, Debug, PartialEq, Eq, Structural)]
pub enum ConfigError {
    /// A texture palette with no entries.
    EmptyPalette,
    /// A light source whose ranges do not satisfy
    /// `0 <= inner_range < max_range <= COORD_LIMIT`.
    LightRangeInvalid,
    /// A light source positioned outside the world coordinate bound.
    LightOutOfBounds,
    /// A light color channel above `CHANNEL_SCALE`.
    LightColorOutOfRange,
}

} // verus!
