//! Image processing around the TrustMark watermarking model.
//!
//! The model works on square pictures with channels normalised to [-1, 1] and answers with a
//! residual that is added back onto the picture. This crate holds the steps in between: choosing
//! the part of a picture the model sees, moving samples between picture and tensor order,
//! softening the edge of the residual, and adding the residual to a picture of any pixel format.
pub mod bindings;
pub mod boundary;
pub mod determinism;
pub mod error;
pub mod exact;
pub mod geometry;
pub mod model;
pub mod monotonicity;
pub mod outcome;
pub mod residual;
pub mod sample;
pub mod tensor;
pub mod variant;
