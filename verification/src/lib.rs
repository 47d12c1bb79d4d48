//! A verified discrete Fourier transform kernel: a reference O(n^2)
//! transform and a mixed-radix Cooley-Tukey transform that factors the
//! length into arbitrary integer factors, both over single-precision
//! complex samples supplied by the `num` crate.
//!
//! The complex arithmetic itself is opaque to the verifier and stands
//! behind the trusted boundary in [`complex`]; everything else — the
//! factorizer, the strided views, the base kernel, the twiddle pass and
//! the recursion — is verified against the model in [`model`]. The
//! contracts state exactly which arithmetic combination of which input
//! samples lands in every output position.
//!
//! An empty signal is accepted as a no-op: the transform of a
//! zero-length signal is the zero-length spectrum.

use vstd::prelude::*;

pub mod complex;
pub mod factorize;
pub mod model;
pub mod stride_items;
pub mod transform;

pub use factorize::factor;
pub use stride_items::{add_mut_stride, add_stride, mut_stride, stride, MutStrideItems, StrideItems};
pub use transform::{cooley_tukey, dft};

verus! {

/// The ways a transform or view request can be rejected.
#[derive(Clone, Copy, Debug, PartialEq, Eq, Structural)]
pub enum FftError {
    /// The signal and spectrum buffers differ in length.
    LengthMismatch,
    /// A strided view was requested with stride zero or an offset past the
    /// end of the backing buffer.
    InvalidView,
}

} // verus!
