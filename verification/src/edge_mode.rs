use vstd::prelude::*;

verus! {

/// Boundary-sample policy of the exact convolution engine.
#[derive(Debug, Copy, Clone, PartialEq, Eq, Structural)]
pub enum EdgeMode {
    /// When the kernel window leaves the image, the window is clipped to the
    /// edge and the edge sample is replicated across the missing taps.
    Clamp,
    /// When the kernel window leaves the image, the out-of-range taps are
    /// dropped and the remaining weights are re-normalized.  Slightly faster
    /// than `Clamp`, with a different visual effect at the edge.
    KernelClip,
}

impl EdgeMode {
    /// Numeric decoding of an edge mode: 0 is `Clamp`, 1 is `KernelClip`.
    /// Any other value is not a mode, so the caller must rule it out.
    pub fn from(value: usize) -> (r: EdgeMode)
        requires
            value <= 1,
        ensures
            value == 0 ==> r == EdgeMode::Clamp,
            value == 1 ==> r == EdgeMode::KernelClip,
    {
        match value {
            0 => EdgeMode::Clamp,
            _ => EdgeMode::KernelClip,
        }
    }
}

impl Default for EdgeMode {
    /// The default boundary policy is `KernelClip`.
    fn default() -> (r: Self)
        ensures
            r == EdgeMode::KernelClip,
    {
        EdgeMode::KernelClip
    }
}

} // verus!
