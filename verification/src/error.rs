//! What can go wrong between a picture and the model.
use vstd::prelude::*;
use vstd::std_specs::convert::FromSpecImpl;

verus! {

/// The error type of this crate.
#[derive(Debug)]
pub enum Error {
    /// Something went wrong during inference.
    Ort(ort::Error),
    /// We were unable to make an array of the requested shape.
    Shape(ndarray::ShapeError),
    /// The input array has an unexpected shape.
    InvalidShape,
    /// We could not create an image of the requested format.
    Image,
    /// We were unable to resize the input image.
    Resize(fast_image_resize::ResizeError),
}

impl FromSpecImpl<ort::Error> for Error {
    open spec fn obeys_from_spec() -> bool {
        true
    }

    open spec fn from_spec(e: ort::Error) -> Error {
        Error::Ort(e)
    }
}

impl From<ort::Error> for Error {
    fn from(e: ort::Error) -> (r: Error) {
        Error::Ort(e)
    }
}

impl FromSpecImpl<ndarray::ShapeError> for Error {
    open spec fn obeys_from_spec() -> bool {
        true
    }

    open spec fn from_spec(e: ndarray::ShapeError) -> Error {
        Error::Shape(e)
    }
}

impl From<ndarray::ShapeError> for Error {
    fn from(e: ndarray::ShapeError) -> (r: Error) {
        Error::Shape(e)
    }
}

impl FromSpecImpl<fast_image_resize::ResizeError> for Error {
    open spec fn obeys_from_spec() -> bool {
        true
    }

    open spec fn from_spec(e: fast_image_resize::ResizeError) -> Error {
        Error::Resize(e)
    }
}

impl From<fast_image_resize::ResizeError> for Error {
    fn from(e: fast_image_resize::ResizeError) -> (r: Error) {
        Error::Resize(e)
    }
}

/// An error of another crate becomes the variant that holds it.
pub proof fn errors_are_kept(
    inference: ort::Error,
    shape: ndarray::ShapeError,
    resize: fast_image_resize::ResizeError,
    a: Error,
    b: Error,
    c: Error,
)
    requires
        call_ensures(<Error as From<ort::Error>>::from, (inference,), a),
        call_ensures(<Error as From<ndarray::ShapeError>>::from, (shape,), b),
        call_ensures(<Error as From<fast_image_resize::ResizeError>>::from, (resize,), c),
    ensures
        a == Error::Ort(inference),
        b == Error::Shape(shape),
        c == Error::Resize(resize),
{
}

} // verus!
