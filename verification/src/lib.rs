//! Validation of quantized models.
//!
//! A model whose parameters were quantized to fixed point is validated in three
//! passes: [`range`] checks the parameters themselves, [`overflow`] bounds what
//! inference computes from them, and [`quantization`] compares its predictions with
//! those of the float model. [`features`] scales feature vectors before they are
//! quantized, [`soundness`] proves what an accepted model promises of inference, and
//! [`completeness`] that nothing but an unsafe model is rejected.
//!
//! Binary64 numbers are held as their bits, in [`binary64`], and computed with as
//! integers, rounded by [`rounding`].

pub mod binary64;
pub mod completeness;
pub mod error;
pub mod features;
pub mod models;
pub mod overflow;
pub mod quantization;
pub mod range;
pub mod rounding;
pub mod soundness;
pub mod text;
pub mod wide;
