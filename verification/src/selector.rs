//! Weighted tile texture selection: draws one entry of a caller-supplied
//! palette per spawned tile. The palette may repeat an entry to raise its
//! odds; the draw itself is a uniform random index.

use vstd::prelude::*;

verus! {

use crate::ConfigError;

/// Relies on rand::Rng::gen_range over `0..n` (via rand::thread_rng): it
/// returns a value of the given range and panics only when the range is
/// empty, which `n > 0` rules out.
#[verifier::external_body]
fn random_below(n: usize) -> (r: usize)
    requires
        n > 0,
    ensures
        r < n,
{
    rand::Rng::gen_range(&mut rand::thread_rng(), 0..n)
}

/// Picks tile textures from a fixed palette of texture identifiers. The
/// palette is validated non-empty at construction, so every draw succeeds.
pub struct TileTextureSelector {
    palette: Vec<usize>,
}

impl View for TileTextureSelector {
    type V = Seq<usize>;

    closed spec fn view(&self) -> Seq<usize> {
        self.palette@
    }
}

impl TileTextureSelector {
    /// Every constructed selector holds at least one palette entry.
    pub open spec fn wf(&self) -> bool {
        self@.len() > 0
    }

    /// Validates and builds a selector over the given palette. An empty
    /// palette is a fatal configuration error, reported before the
    /// streaming loop starts.
    pub fn new(palette: Vec<usize>) -> (r: Result<TileTextureSelector, ConfigError>)
        ensures
            r is Ok <==> palette@.len() > 0,
            r matches Ok(s) ==> s@ == palette@ && s.wf(),
            r is Err ==> r == Err::<TileTextureSelector, ConfigError>(ConfigError::EmptyPalette),
    {
        if palette.len() == 0 {
            Err(ConfigError::EmptyPalette)
        } else {
            Ok(TileTextureSelector { palette })
        }
    }

    /// Draws one palette entry; the result is always an entry of the
    /// palette, whatever the random index came out as.
    pub fn pick(&self) -> (t: usize)
        requires
            self.wf(),
        ensures
            self@.contains(t),
    {
        let i = random_below(self.palette.len());
        self.palette[i]
    }
}

} // verus!
