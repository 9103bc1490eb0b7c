//! Robust one-dimensional smoothing in fixed-point arithmetic.
//!
//! A signal is a sequence of `i64` samples that carry six decimal places
//! (`fixed::ONE` stands for 1). The filter estimates a baseline with a
//! Gaussian kernel, builds a histogram of the residual around it for every
//! time step, smooths that histogram along both axes and reads the mode of
//! the residual density off it. Every function states its result over
//! mathematical integers, and no function panics or overflows.
//!
//! Products and quotients of samples are rounded towards negative
//! infinity. A value that cannot be stored in a sample is never wrapped
//! or clipped: the function that meets it returns `Error::Overflow`.
//!
//! The bell curve of the Gaussian kernel is the one thing that the
//! integers cannot produce. The caller samples it, in any unit, and the
//! library turns the samples into weights that sum to exactly `ONE`.

pub mod fixed;
pub mod error;
pub mod sums;
pub mod matrix;
pub mod gf;
pub mod fmgf;
pub mod boxfilter;
pub mod stats;
pub mod histogram;

pub use crate::error::Error;
pub use crate::fixed::ONE;
pub use crate::fmgf::Fmgf;
pub use crate::gf::Gaussian;
pub use crate::matrix::Matrix;
