//! The calls into other crates, and what is taken on trust of them.
use crate::geometry::Crop;
use fast_image_resize::{FilterType, ResizeAlg, ResizeError, ResizeOptions, Resizer};
use image::{DynamicImage, GenericImageView, ImageBuffer};
use ndarray::{Array, ShapeError};
use ort::Error as OrtError;
use vstd::prelude::*;

verus! {

/// A picture of one of the pixel formats of the `image` crate.
#[verifier::external_type_specification]
#[verifier::external_body]
pub struct ExDynamicImage(image::DynamicImage);

/// What `ndarray` reports of a shape that does not fit.
#[verifier::external_type_specification]
#[verifier::external_body]
pub struct ExShapeError(ndarray::ShapeError);

/// What `fast_image_resize` reports of pictures it cannot resize.
#[verifier::external_type_specification]
#[verifier::external_body]
pub struct ExResizeError(fast_image_resize::ResizeError);

/// What `ort` reports of a failed inference.
#[verifier::external_type_specification]
#[verifier::external_body]
pub struct ExOrtError(OrtError);

/// The pixel formats of a [`DynamicImage`]: the channels, and the bits of a sample. An `F` marks
/// real samples.
#[derive(Debug, Clone, Copy, PartialEq, Eq, Structural)]
pub enum PixelKind {
    L8,
    La8,
    Rgb8,
    Rgba8,
    L16,
    La16,
    Rgb16,
    Rgba16,
    Rgb32F,
    Rgba32F,
}

impl PixelKind {
    /// The number of samples in a pixel.
    pub open spec fn channels(self) -> nat {
        match self {
            PixelKind::L8 | PixelKind::L16 => 1,
            PixelKind::La8 | PixelKind::La16 => 2,
            PixelKind::Rgb8 | PixelKind::Rgb16 | PixelKind::Rgb32F => 3,
            PixelKind::Rgba8 | PixelKind::Rgba16 | PixelKind::Rgba32F => 4,
        }
    }

    /// The number of bytes in a pixel.
    pub open spec fn bytes(self) -> nat {
        match self {
            PixelKind::L8 => 1,
            PixelKind::La8 | PixelKind::L16 => 2,
            PixelKind::Rgb8 => 3,
            PixelKind::Rgba8 | PixelKind::La16 => 4,
            PixelKind::Rgb16 => 6,
            PixelKind::Rgba16 => 8,
            PixelKind::Rgb32F => 12,
            PixelKind::Rgba32F => 16,
        }
    }

    /// A sample is a byte.
    pub open spec fn has_byte_samples(self) -> bool {
        self.bytes() == self.channels()
    }

    /// A sample is real.
    pub open spec fn has_real_samples(self) -> bool {
        self == PixelKind::Rgb32F || self == PixelKind::Rgba32F
    }

    /// A pixel has opacity.
    pub open spec fn has_opacity(self) -> bool {
        self.channels() == 2 || self.channels() == 4
    }
}

/// The width and the height of a picture.
pub uninterp spec fn image_size(img: DynamicImage) -> (u32, u32);

/// The pixel format of a picture.
pub uninterp spec fn image_kind(img: DynamicImage) -> PixelKind;

/// The pixels of a picture, row by row. A pixel is the bit patterns of its samples, where every
/// sample that is not a number counts as the same pattern.
pub uninterp spec fn image_pixels(img: DynamicImage) -> Seq<Seq<u32>>;

/// A buffer for a picture of the given format and size can be allocated: the samples of a row can
/// be counted, also where there are no rows, and the bytes do not exceed the largest offset.
pub open spec fn allocatable(kind: PixelKind, width: u32, height: u32) -> bool {
    &&& width * kind.channels() <= usize::MAX
    &&& width * height * kind.bytes() <= isize::MAX
}

/// The pixels of a picture of `width` by `height` in which every sample is zero.
pub open spec fn zero_pixels(kind: PixelKind, width: u32, height: u32) -> Seq<Seq<u32>> {
    Seq::new((width * height) as nat, |i: int| Seq::new(kind.channels(), |c: int| 0u32))
}

/// `GenericImageView::dimensions`: the width and the height.
#[verifier::external_body]
pub(crate) fn dimensions(img: &DynamicImage) -> (r: (u32, u32))
    ensures
        r == image_size(*img),
{
    img.dimensions()
}

/// The variants of `DynamicImage`: there are the ten listed here and no others, so the format is
/// always known.
#[verifier::external_body]
pub(crate) fn pixel_kind(img: &DynamicImage) -> (r: Option<PixelKind>)
    ensures
        r == Some(image_kind(*img)),
{
    match img {
        DynamicImage::ImageLuma8(_) => Some(PixelKind::L8),
        DynamicImage::ImageLumaA8(_) => Some(PixelKind::La8),
        DynamicImage::ImageRgb8(_) => Some(PixelKind::Rgb8),
        DynamicImage::ImageRgba8(_) => Some(PixelKind::Rgba8),
        DynamicImage::ImageLuma16(_) => Some(PixelKind::L16),
        DynamicImage::ImageLumaA16(_) => Some(PixelKind::La16),
        DynamicImage::ImageRgb16(_) => Some(PixelKind::Rgb16),
        DynamicImage::ImageRgba16(_) => Some(PixelKind::Rgba16),
        DynamicImage::ImageRgb32F(_) => Some(PixelKind::Rgb32F),
        DynamicImage::ImageRgba32F(_) => Some(PixelKind::Rgba32F),
        _ => None,
    }
}

/// `ImageBuffer::new`: a picture of the given format and size in which all samples are zero. It
/// panics on a size too large to allocate.
#[verifier::external_body]
pub(crate) fn blank(kind: PixelKind, w: u32, h: u32) -> (r: DynamicImage)
    requires
        allocatable(kind, w, h),
    ensures
        image_kind(r) == kind,
        image_size(r) == (w, h),
        image_pixels(r) == zero_pixels(kind, w, h),
{
    match kind {
        PixelKind::L8 => DynamicImage::ImageLuma8(ImageBuffer::new(w, h)),
        PixelKind::La8 => DynamicImage::ImageLumaA8(ImageBuffer::new(w, h)),
        PixelKind::Rgb8 => DynamicImage::ImageRgb8(ImageBuffer::new(w, h)),
        PixelKind::Rgba8 => DynamicImage::ImageRgba8(ImageBuffer::new(w, h)),
        PixelKind::L16 => DynamicImage::ImageLuma16(ImageBuffer::new(w, h)),
        PixelKind::La16 => DynamicImage::ImageLumaA16(ImageBuffer::new(w, h)),
        PixelKind::Rgb16 => DynamicImage::ImageRgb16(ImageBuffer::new(w, h)),
        PixelKind::Rgba16 => DynamicImage::ImageRgba16(ImageBuffer::new(w, h)),
        PixelKind::Rgb32F => DynamicImage::ImageRgb32F(ImageBuffer::new(w, h)),
        PixelKind::Rgba32F => DynamicImage::ImageRgba32F(ImageBuffer::new(w, h)),
    }
}

/// There is nothing to resize: the rectangle or the destination has no pixels.
pub open spec fn nothing_to_resize(crop: Crop, width: u32, height: u32) -> bool {
    crop.width == 0 || crop.height == 0 || width == 0 || height == 0
}

/// The number of pixels read along an axis of `n` pixels to scale `len` of them: one more at
/// either end, where the axis has them.
pub open spec fn read_along(n: u32, len: u32) -> int {
    if len + 2 <= n {
        len + 2
    } else {
        n as int
    }
}

/// Scratch space for the given number of pixels can be allocated: one pixel more than that, to
/// align them.
pub open spec fn scratch_fits(kind: PixelKind, pixels: int) -> bool {
    (pixels + 1) * kind.bytes() <= isize::MAX
}

/// The weights to bring `from` pixels along an axis to `to` can be tabulated: three of eight bytes
/// for each pixel, where the axis is scaled at all.
pub open spec fn weights_fit(from: u32, to: u32) -> bool {
    from == to || to * 24 <= isize::MAX
}

/// A row of sums for the given number of pixels can be allocated: four times as wide as integer
/// samples, while real samples need none.
pub open spec fn sums_fit(kind: PixelKind, pixels: int) -> bool {
    kind.has_real_samples() || pixels * kind.bytes() * 4 <= isize::MAX
}

/// There is memory to scale the rectangle `crop` of a picture of the given format and size to
/// `width` by `height`: for the weights along both axes, for a copy of a picture with opacity, and,
/// where both axes are scaled, for the picture in between. Byte samples are scaled along the
/// columns first, others along the rows; the columns are scaled with a row of sums.
pub open spec fn scalable(
    kind: PixelKind,
    size: (u32, u32),
    crop: Crop,
    width: u32,
    height: u32,
) -> bool {
    &&& weights_fit(crop.width, width)
    &&& weights_fit(crop.height, height)
    &&& kind.has_opacity() ==> scratch_fits(kind, size.0 * size.1)
    &&& crop.height != height ==> sums_fit(
        kind,
        if kind.has_byte_samples() {
            read_along(size.0, crop.width)
        } else {
            width as int
        },
    )
    &&& crop.width != width && crop.height != height ==> scratch_fits(
        kind,
        if kind.has_byte_samples() {
            read_along(size.0, crop.width) * height
        } else {
            width * read_along(size.1, crop.height)
        },
    )
}

/// Resizing the rectangle `crop` of a picture of the given format and size to `width` by `height`
/// stays within memory: it is scaled and there is room for that, or it is not scaled, because
/// there is nothing to resize, the rectangle reaches outside, or its size stays.
pub open spec fn resize_fits(
    kind: PixelKind,
    size: (u32, u32),
    crop: Crop,
    width: u32,
    height: u32,
) -> bool {
    ||| nothing_to_resize(crop, width, height)
    ||| !crop.inside(size.0 as int, size.1 as int)
    ||| crop.width == width && crop.height == height
    ||| scalable(kind, size, crop, width, height)
}

/// The pixels that scaling may give: what bilinear interpolation makes, on one processor or
/// another, of the rectangle of `crop_width` by `crop_height` at `xpos` and `ypos` in a picture of
/// the given format, size and pixels, when it is brought to `width` by `height`.
pub uninterp spec fn bilinear_outcomes(
    kind: PixelKind,
    source_width: u32,
    source_height: u32,
    source: Seq<Seq<u32>>,
    xpos: u32,
    ypos: u32,
    crop_width: u32,
    crop_height: u32,
    width: u32,
    height: u32,
) -> Set<Seq<Seq<u32>>>;

/// The pixels `after` of a destination of `width` by `height`, which were `before`, once the
/// rectangle `crop` of a source with the given pixels was resized into it: as they were where
/// there is nothing to resize, a copy of the rectangle where it has the destination's size, and
/// else one of the `outcomes` of scaling it.
pub open spec fn resized_into(
    source_width: u32,
    source: Seq<Seq<u32>>,
    crop: Crop,
    width: u32,
    height: u32,
    outcomes: Set<Seq<Seq<u32>>>,
    before: Seq<Seq<u32>>,
    after: Seq<Seq<u32>>,
) -> bool {
    if nothing_to_resize(crop, width, height) {
        after == before
    } else {
        &&& after.len() == width * height
        &&& if crop.width == width && crop.height == height {
            forall|x: int, y: int|
                0 <= x < width && 0 <= y < height ==> #[trigger] after[y * width + x] == source[(
                crop.ypos + y) * source_width + (crop.xpos + x)]
        } else {
            outcomes.contains(after)
        }
    }
}

/// `Resizer::resize` with bilinear interpolation of the rectangle `crop` of `src`: it fails where
/// the pixel formats differ or the rectangle reaches outside the source, except that a rectangle
/// or destination without pixels is left alone. The size and the format of `dst` never change.
/// Scaled pixels are computed with the vector instructions of the processor at hand, so their
/// values are not a function of the arguments: they are one of the outcomes that the arguments
/// allow, and which one is left unsaid. It panics where scaling needs more memory than can be
/// addressed.
#[verifier::external_body]
pub(crate) fn resize_bilinear(src: &DynamicImage, dst: &mut DynamicImage, crop: Crop) -> (r: Result<
    (),
    ResizeError,
>)
    requires
        resize_fits(
            image_kind(*src),
            image_size(*src),
            crop,
            image_size(*old(dst)).0,
            image_size(*old(dst)).1,
        ),
    ensures
        image_size(*final(dst)) == image_size(*old(dst)),
        image_kind(*final(dst)) == image_kind(*old(dst)),
        r is Ok <==> image_kind(*src) == image_kind(*old(dst)) && (nothing_to_resize(
            crop,
            image_size(*old(dst)).0,
            image_size(*old(dst)).1,
        ) || crop.inside(image_size(*src).0 as int, image_size(*src).1 as int)),
        r is Ok ==> resized_into(
            image_size(*src).0,
            image_pixels(*src),
            crop,
            image_size(*old(dst)).0,
            image_size(*old(dst)).1,
            bilinear_outcomes(
                image_kind(*src),
                image_size(*src).0,
                image_size(*src).1,
                image_pixels(*src),
                crop.xpos,
                crop.ypos,
                crop.width,
                crop.height,
                image_size(*old(dst)).0,
                image_size(*old(dst)).1,
            ),
            image_pixels(*old(dst)),
            image_pixels(*final(dst)),
        ),
        r is Err ==> image_pixels(*final(dst)) == image_pixels(*old(dst)),
{
    let options = ResizeOptions::new()
        .crop(crop.xpos.into(), crop.ypos.into(), crop.width.into(), crop.height.into())
        .resize_alg(ResizeAlg::Interpolation(FilterType::Bilinear));
    Resizer::new().resize(src, dst, &options)
}

/// The pixels of a picture brought to three real samples each.
pub uninterp spec fn rgb32f_pixels(kind: PixelKind, pixels: Seq<Seq<u32>>) -> Seq<Seq<u32>>;

/// `DynamicImage::into_rgb32f`: the picture with three real samples per pixel. A picture of that
/// format comes back as it is. It panics on a size too large to allocate.
#[verifier::external_body]
pub(crate) fn into_rgb32f(img: DynamicImage) -> (r: DynamicImage)
    requires
        allocatable(PixelKind::Rgb32F, image_size(img).0, image_size(img).1),
    ensures
        image_size(r) == image_size(img),
        image_kind(r) == PixelKind::Rgb32F,
        image_pixels(r) == rgb32f_pixels(image_kind(img), image_pixels(img)),
        image_pixels(r).len() == image_pixels(img).len(),
        image_kind(img) == PixelKind::Rgb32F ==> image_pixels(r) == image_pixels(img),
{
    DynamicImage::ImageRgb32F(img.into_rgb32f())
}

/// The pixels of a picture brought to four real samples each.
pub uninterp spec fn rgba32f_pixels(kind: PixelKind, pixels: Seq<Seq<u32>>) -> Seq<Seq<u32>>;

/// `DynamicImage::into_rgba32f`: the picture with four real samples per pixel. A picture of that
/// format comes back as it is. It panics on a size too large to allocate.
#[verifier::external_body]
pub(crate) fn into_rgba32f(img: DynamicImage) -> (r: DynamicImage)
    requires
        allocatable(PixelKind::Rgba32F, image_size(img).0, image_size(img).1),
    ensures
        image_size(r) == image_size(img),
        image_kind(r) == PixelKind::Rgba32F,
        image_pixels(r) == rgba32f_pixels(image_kind(img), image_pixels(img)),
        image_kind(img) == PixelKind::Rgba32F ==> image_pixels(r) == image_pixels(img),
{
    DynamicImage::ImageRgba32F(img.into_rgba32f())
}

/// The pixels of a picture of four real samples per pixel and the given size, resized to
/// `new_width` by `new_height` with a triangle filter.
pub uninterp spec fn triangle_pixels(
    pixels: Seq<Seq<u32>>,
    width: u32,
    height: u32,
    new_width: u32,
    new_height: u32,
) -> Seq<Seq<u32>>;

/// `DynamicImage::resize_exact` with a triangle filter: the picture at a size that is larger in
/// neither direction.
#[verifier::external_body]
pub(crate) fn resize_triangle(img: &DynamicImage, width: u32, height: u32) -> (r: DynamicImage)
    requires
        image_kind(*img) == PixelKind::Rgba32F,
        width <= image_size(*img).0,
        height <= image_size(*img).1,
        allocatable(PixelKind::Rgba32F, image_size(*img).0, image_size(*img).1),
    ensures
        image_size(r) == (width, height),
        image_kind(r) == PixelKind::Rgba32F,
        image_pixels(r) == triangle_pixels(
            image_pixels(*img),
            image_size(*img).0,
            image_size(*img).1,
            width,
            height,
        ),
{
    img.resize_exact(width, height, image::imageops::FilterType::Triangle)
}

/// Axes of the given lengths can be addressed: the product of those that are not empty does not
/// exceed the largest offset.
pub open spec fn addressable(rows: usize, columns: usize, channels: usize) -> bool {
    let r = if rows == 0 {
        1
    } else {
        rows as int
    };
    let c = if columns == 0 {
        1
    } else {
        columns as int
    };
    let d = if channels == 0 {
        1
    } else {
        channels as int
    };
    r * c * d <= isize::MAX
}

/// `ArrayBase::to_shape` on a flat array: the samples in the row-major order of an array with the
/// given axes, which is their own order. It fails where the axes do not hold exactly as many
/// samples. `Array::from` panics on more samples than the largest offset.
#[verifier::external_body]
pub(crate) fn to_shape<T: Copy>(
    samples: Vec<T>,
    rows: usize,
    columns: usize,
    channels: usize,
) -> (r: Result<Vec<T>, ShapeError>)
    requires
        samples@.len() <= isize::MAX,
    ensures
        r is Ok <==> (rows * columns * channels == samples@.len() && addressable(
            rows,
            columns,
            channels,
        )),
        r is Ok ==> r->Ok_0@ == samples@,
{
    let array = Array::from(samples);
    let shaped = array.to_shape([rows, columns, channels])?;
    Ok(shaped.iter().copied().collect())
}

} // verus!
