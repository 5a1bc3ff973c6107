//! Point light sources: a world position, an inner range of full intensity,
//! a maximum range beyond which the light contributes nothing, and a color.

use vstd::prelude::*;

verus! {

use crate::color::Color;
use crate::ConfigError;
use crate::COORD_LIMIT;

/// A point light source. Between `inner_range` and `max_range` its
/// contribution falls off linearly with Euclidean distance.
#[derive(Clone, Copy, Debug, PartialEq, Eq, Structural)]
pub struct LightSource {
    pub x: i64,
    pub y: i64,
    pub inner_range: i64,
    pub max_range: i64,
    pub color: Color,
}

impl LightSource {
    /// Position within the world bound, `0 <= inner_range < max_range`, and a
    /// well-formed color: every constructed light satisfies this.
    pub open spec fn wf(self) -> bool {
        &&& -COORD_LIMIT <= self.x <= COORD_LIMIT
        &&& -COORD_LIMIT <= self.y <= COORD_LIMIT
        &&& 0 <= self.inner_range < self.max_range <= COORD_LIMIT
        &&& self.color.wf()
    }

    /// Validates and builds a light source. Construction succeeds exactly on
    /// well-formed inputs; a violated invariant is reported as the
    /// configuration error for the first failing check, so a bad light is
    /// rejected before the streaming loop ever runs.
    pub fn new(x: i64, y: i64, inner_range: i64, max_range: i64, color: Color) -> (r: Result<
        LightSource,
        ConfigError,
    >)
        ensures
            r is Ok <==> (LightSource { x, y, inner_range, max_range, color }).wf(),
            r matches Ok(l) ==> l == (LightSource { x, y, inner_range, max_range, color }),
            !(0 <= inner_range < max_range <= COORD_LIMIT) ==> r == Err::<
                LightSource,
                ConfigError,
            >(ConfigError::LightRangeInvalid),
            0 <= inner_range < max_range <= COORD_LIMIT && !(-COORD_LIMIT <= x <= COORD_LIMIT
                && -COORD_LIMIT <= y <= COORD_LIMIT) ==> r == Err::<LightSource, ConfigError>(
                ConfigError::LightOutOfBounds,
            ),
            0 <= inner_range < max_range <= COORD_LIMIT && -COORD_LIMIT <= x <= COORD_LIMIT
                && -COORD_LIMIT <= y <= COORD_LIMIT && !color.wf() ==> r == Err::<
                LightSource,
                ConfigError,
            >(ConfigError::LightColorOutOfRange),
    {
        if !(0 <= inner_range && inner_range < max_range && max_range <= COORD_LIMIT) {
            Err(ConfigError::LightRangeInvalid)
        } else if !(-COORD_LIMIT <= x && x <= COORD_LIMIT && -COORD_LIMIT <= y && y
            <= COORD_LIMIT) {
            Err(ConfigError::LightOutOfBounds)
        } else if !(color.red <= crate::color::CHANNEL_SCALE && color.green
            <= crate::color::CHANNEL_SCALE && color.blue <= crate::color::CHANNEL_SCALE) {
            Err(ConfigError::LightColorOutOfRange)
        } else {
            Ok(LightSource { x, y, inner_range, max_range, color })
        }
    }
}

} // verus!
