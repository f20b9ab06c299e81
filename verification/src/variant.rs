//! The variants of the watermarking model.
use vstd::prelude::*;

verus! {

/// A variant of the watermarking model.
#[derive(Debug, Clone, Copy, PartialEq, Eq, Structural)]
pub enum Variant {
    /// The variant that always works on a square cut from the picture.
    P,
    /// The variant that takes a picture of ordinary proportions whole.
    Q,
}

} // verus!
