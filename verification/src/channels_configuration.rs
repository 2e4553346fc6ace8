use vstd::prelude::*;

verus! {

/// Pixel interleaving of a buffer: three lanes (RGB-like) or four lanes
/// (RGBA-like).  The fourth lane is the alpha lane.
#[derive(Debug, Copy, Clone, PartialEq, Eq, Structural)]
pub enum FastBlurChannels {
    Channels3,
    Channels4,
}

impl FastBlurChannels {
    /// Number of samples that one pixel occupies.
    pub open spec fn count(self) -> int {
        match self {
            FastBlurChannels::Channels3 => 3,
            FastBlurChannels::Channels4 => 4,
        }
    }

    /// Executable form of `count`.
    pub fn get_channels(&self) -> (r: usize)
        ensures
            r as int == self.count(),
    {
        match self {
            FastBlurChannels::Channels3 => 3,
            FastBlurChannels::Channels4 => 4,
        }
    }
}

} // verus!
