use vstd::prelude::*;

verus! {

/// Usage errors of the blur entry points.  Each is raised at the call
/// boundary before any pixel is touched; no partially blurred buffer is
/// ever observable.
#[derive(Debug, Copy, Clone, PartialEq, Eq, Structural)]
pub enum BlurError {
    /// The convolution kernel length was even or zero; only odd, positive
    /// lengths have a center tap.
    KernelSizeMustBeOdd,
    /// The Gaussian sigma was zero; the density is undefined there.
    SigmaMustBePositive,
}

impl BlurError {
    /// Human-readable description of the error.
    pub fn message(&self) -> (r: &'static str)
    {
        match self {
            BlurError::KernelSizeMustBeOdd => "kernel size must be odd and positive",
            BlurError::SigmaMustBePositive => "sigma must be positive",
        }
    }
}

} // verus!
