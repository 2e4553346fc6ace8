use vstd::prelude::*;

verus! {

/// Tile grid dimensions for the adaptive histogram-equalization
/// collaborator, which consumes the same interleaved pixel-buffer and
/// stride contract as the blur engines.
#[derive(Debug, Copy, Clone, PartialEq, Eq, Structural)]
pub struct ClaheGridSize {
    pub w: u32,
    pub h: u32,
}

impl ClaheGridSize {
    /// Builds a grid of `w` by `h` tiles.
    pub fn new(w: u32, h: u32) -> (r: ClaheGridSize)
        ensures
            r.w == w,
            r.h == h,
    {
        ClaheGridSize { w, h }
    }
}

} // verus!
