//! Image smoothing over raw interleaved pixel buffers.
//!
//! Two blur families are offered: an exact separable Gaussian convolution
//! (`gaussian_blur`, `gaussian_blur_u16`) and an O(1)-per-pixel
//! finite-difference approximation (`fast_gaussian_superior`).  Kernel
//! weights are kept in Q16 fixed point (65536 represents 1.0), so every
//! arithmetic step of the engines is integer arithmetic with proved bounds.

pub mod channels_configuration;
pub mod clahe;
pub mod convolution;
pub mod edge_mode;
pub mod errors;
pub mod fast_gaussian;
pub mod geometry;
pub mod kernel;
pub mod recurrence;
pub mod scheduler;
pub mod threading;

pub use channels_configuration::FastBlurChannels;
pub use clahe::ClaheGridSize;
pub use convolution::gaussian_blur;
pub use edge_mode::EdgeMode;
pub use errors::BlurError;
pub use fast_gaussian::fast_gaussian_superior;
pub use kernel::get_gaussian_kernel_1d;
pub use threading::ThreadingPolicy;
