//! Preparing pictures and residuals for and from the model.
use crate::bindings::{
    allocatable, bilinear_outcomes, blank, dimensions, image_kind, image_pixels, image_size,
    into_rgb32f, into_rgba32f, nothing_to_resize, pixel_kind, resize_bilinear, resize_triangle,
    read_along, resize_fits, resized_into, rgb32f_pixels, rgba32f_pixels, scalable, scratch_fits,
    sums_fit, triangle_pixels, weights_fit, zero_pixels, PixelKind,
};
use crate::error::Error;
use crate::geometry::{
    center_crop, center_crop_spec, shrunk_size, shrunk_size_spec, Crop,
};
use crate::variant::Variant;
use image::DynamicImage;
use vstd::arithmetic::div_mod::lemma_fundamental_div_mod;
use vstd::prelude::*;

verus! {

/// A picture on its way to or from the model: the side length that the model works at, the
/// variant of the model, and the picture.
pub struct ModelImage(pub u32, pub Variant, pub DynamicImage);

/// Return the size and offset of the "center-cropped" image.
///
/// Returns `(width, height, xpos, ypos)` for the square to crop.
///
/// For long-skinny images or short-wide images, we want to crop a square image with side length of
/// the shorter side out of the center of the image for the model.
pub fn center_crop_size_and_offset(variant: Variant, img: &DynamicImage) -> (r: (
    u32,
    u32,
    u32,
    u32,
))
    ensures
        ({
            let c = center_crop_spec(variant, image_size(*img).0, image_size(*img).1);
            r == (c.width, c.height, c.xpos, c.ypos)
        }),
{
    let (width, height) = dimensions(img);
    let c = center_crop(variant, width, height);
    (c.width, c.height, c.xpos, c.ypos)
}

/// The rectangle `crop` of a picture of the given format and size can be resized to `width` by
/// `height` within the memory that can be addressed.
pub open spec fn resizable(
    kind: PixelKind,
    size: (u32, u32),
    crop: Crop,
    width: u32,
    height: u32,
) -> bool {
    &&& allocatable(kind, width, height)
    &&& resize_fits(kind, size, crop, width, height)
}

/// `pixels` may be those of the rectangle `crop` of `img`, resized to `width` by `height`: zero
/// where there is nothing to resize, a copy where the size stays, and else an outcome of scaling.
pub open spec fn resized(
    img: DynamicImage,
    crop: Crop,
    width: u32,
    height: u32,
    pixels: Seq<Seq<u32>>,
) -> bool {
    resized_into(
        image_size(img).0,
        image_pixels(img),
        crop,
        width,
        height,
        bilinear_outcomes(
            image_kind(img),
            image_size(img).0,
            image_size(img).1,
            image_pixels(img),
            crop.xpos,
            crop.ypos,
            crop.width,
            crop.height,
            width,
            height,
        ),
        zero_pixels(image_kind(img), width, height),
        pixels,
    )
}

/// Returns a new image of the same format: the rectangle `crop` of `img`, resized to `width` by
/// `height` with bilinear interpolation. How a rectangle is scaled depends on the vector
/// instructions of the processor, so of several outcomes it is left open which one comes out.
pub fn resize_img(img: &DynamicImage, width: u32, height: u32, crop: Crop) -> (r: Result<
    DynamicImage,
    Error,
>)
    requires
        resizable(image_kind(*img), image_size(*img), crop, width, height),
    ensures
        r is Ok <==> nothing_to_resize(crop, width, height) || crop.inside(
            image_size(*img).0 as int,
            image_size(*img).1 as int,
        ),
        match r {
            Ok(o) => {
                &&& image_size(o) == (width, height)
                &&& image_kind(o) == image_kind(*img)
                &&& resized(*img, crop, width, height, image_pixels(o))
            },
            Err(e) => e is Resize,
        },
{
    let kind = match pixel_kind(img) {
        Some(kind) => kind,
        None => {
            return Err(Error::Image);
        },
    };
    let mut modified_img = blank(kind, width, height);
    match resize_bilinear(img, &mut modified_img, crop) {
        Ok(()) => Ok(modified_img),
        Err(e) => Err(Error::from(e)),
    }
}

/// `img` is the picture that the model sees of `source` at side length `size`: the centre crop,
/// resized to a square and brought to three real samples per pixel.
pub open spec fn prepared_from(
    source: DynamicImage,
    size: u32,
    variant: Variant,
    img: DynamicImage,
) -> bool {
    let crop = center_crop_spec(variant, image_size(source).0, image_size(source).1);
    &&& image_size(img) == (size, size)
    &&& image_kind(img) == PixelKind::Rgb32F
    &&& image_pixels(img).len() == size * size
    &&& exists|pixels: Seq<Seq<u32>>|
        {
            &&& #[trigger] resized(source, crop, size, size, pixels)
            &&& image_pixels(img) == rgb32f_pixels(image_kind(source), pixels)
            &&& image_kind(source) == PixelKind::Rgb32F ==> image_pixels(img) == pixels
        }
}

/// The picture that the model sees of a picture of the given format and size can be made within
/// the memory that can be addressed.
pub open spec fn preparable(
    kind: PixelKind,
    size: (u32, u32),
    variant: Variant,
    side: u32,
) -> bool {
    &&& resizable(kind, size, center_crop_spec(variant, size.0, size.1), side, side)
    &&& allocatable(PixelKind::Rgb32F, side, side)
}

/// The largest offset.
fn largest_offset() -> (r: u64)
    ensures
        r == isize::MAX,
{
    isize::MAX as u64
}

fn channels(kind: PixelKind) -> (r: u64)
    ensures
        r == kind.channels(),
        1 <= r <= 4,
{
    match kind {
        PixelKind::L8 | PixelKind::L16 => 1,
        PixelKind::La8 | PixelKind::La16 => 2,
        PixelKind::Rgb8 | PixelKind::Rgb16 | PixelKind::Rgb32F => 3,
        PixelKind::Rgba8 | PixelKind::Rgba16 | PixelKind::Rgba32F => 4,
    }
}

fn bytes(kind: PixelKind) -> (r: u64)
    ensures
        r == kind.bytes(),
        1 <= r <= 16,
{
    match kind {
        PixelKind::L8 => 1,
        PixelKind::La8 | PixelKind::L16 => 2,
        PixelKind::Rgb8 => 3,
        PixelKind::Rgba8 | PixelKind::La16 => 4,
        PixelKind::Rgb16 => 6,
        PixelKind::Rgba16 => 8,
        PixelKind::Rgb32F => 12,
        PixelKind::Rgba32F => 16,
    }
}

/// The number of pixels of a picture.
fn area(width: u32, height: u32) -> (r: u64)
    ensures
        r == width * height,
{
    assert(width * height <= 0xffff_ffff * 0xffff_ffff) by (nonlinear_arith)
        requires
            width <= 0xffff_ffff,
            height <= 0xffff_ffff,
    ;
    width as u64 * height as u64
}

fn is_allocatable(kind: PixelKind, width: u32, height: u32) -> (r: bool)
    ensures
        r == allocatable(kind, width, height),
{
    let pixels: u64 = area(width, height);
    let size: u64 = bytes(kind);
    let count: u64 = channels(kind);
    assert(0 <= width * count <= 0xffff_ffff * 4) by (nonlinear_arith)
        requires
            width <= 0xffff_ffff,
            count <= 4,
    ;
    assert(0 <= pixels * size <= 0xffff_ffff_ffff_ffff * 16) by (nonlinear_arith)
        requires
            pixels <= 0xffff_ffff_ffff_ffff,
            size <= 16,
    ;
    width as u64 * count <= usize::MAX as u64 && pixels as u128 * size as u128
        <= largest_offset() as u128
}

fn is_scratch(kind: PixelKind, pixels: u64) -> (r: bool)
    ensures
        r == scratch_fits(kind, pixels as int),
{
    let size: u64 = bytes(kind);
    let most: u128 = pixels as u128 + 1;
    assert(0 <= most * size <= 0x1_0000_0000_0000_0000 * 16) by (nonlinear_arith)
        requires
            most <= 0x1_0000_0000_0000_0000,
            size <= 16,
    ;
    most * size as u128 <= largest_offset() as u128
}

fn is_tabulated(from: u32, to: u32) -> (r: bool)
    ensures
        r == weights_fit(from, to),
{
    from == to || to as u64 * 24 <= largest_offset()
}

fn are_sums(kind: PixelKind, pixels: u32) -> (r: bool)
    ensures
        r == sums_fit(kind, pixels as int),
{
    let size: u64 = bytes(kind);
    assert(0 <= pixels * size <= 0xffff_ffff * 16) by (nonlinear_arith)
        requires
            pixels <= 0xffff_ffff,
            size <= 16,
    ;
    kind == PixelKind::Rgb32F || kind == PixelKind::Rgba32F || pixels as u64 * size * 4
        <= largest_offset()
}

fn read_pixels(n: u32, len: u32) -> (r: u32)
    ensures
        r == read_along(n, len),
{
    if n >= 2 && len <= n - 2 {
        len + 2
    } else {
        n
    }
}

fn is_scalable(kind: PixelKind, size: (u32, u32), crop: Crop, width: u32, height: u32) -> (r: bool)
    ensures
        r == scalable(kind, size, crop, width, height),
{
    let (w, h) = size;
    let samples: u64 = channels(kind);
    if !is_tabulated(crop.width, width) || !is_tabulated(crop.height, height) {
        return false;
    }
    if (samples == 2 || samples == 4) && !is_scratch(kind, area(w, h)) {
        return false;
    }
    if crop.height == height {
        return true;
    }
    if samples == bytes(kind) {
        let columns: u32 = read_pixels(w, crop.width);
        are_sums(kind, columns) && (crop.width == width || is_scratch(kind, area(columns, height)))
    } else {
        are_sums(kind, width) && (crop.width == width || is_scratch(
            kind,
            area(width, read_pixels(h, crop.height)),
        ))
    }
}

fn is_resizable(kind: PixelKind, size: (u32, u32), crop: Crop, width: u32, height: u32) -> (r: bool)
    ensures
        r == resizable(kind, size, crop, width, height),
{
    let (w, h) = size;
    if !is_allocatable(kind, width, height) {
        return false;
    }
    if crop.width == 0 || crop.height == 0 || width == 0 || height == 0 {
        return true;
    }
    if crop.width > w || crop.xpos > w - crop.width || crop.height > h || crop.ypos > h
        - crop.height {
        return true;
    }
    (crop.width == width && crop.height == height) || is_scalable(kind, size, crop, width, height)
}

impl ModelImage {
    /// The picture that the model sees: the centre crop, resized to the side length of the model
    /// and brought to three real samples per pixel. The centre crop always lies inside the
    /// picture, so this always succeeds.
    pub fn prepared(self) -> (r: Result<DynamicImage, Error>)
        requires
            preparable(image_kind(self.2), image_size(self.2), self.1, self.0),
        ensures
            r matches Ok(img) && prepared_from(self.2, self.0, self.1, img),
    {
        let ModelImage(size, variant, img) = self;
        let (width, height, xpos, ypos) = center_crop_size_and_offset(variant, &img);
        let crop = Crop { width, height, xpos, ypos };
        let modified_img = match resize_img(&img, size, size, crop) {
            Ok(o) => o,
            Err(e) => {
                return Err(e);
            },
        };
        let ghost pixels = image_pixels(modified_img);
        assert(resized(img, crop, size, size, pixels));
        Ok(into_rgb32f(modified_img))
    }

    /// The picture that the model sees, or `None` where resizing would need more memory than can
    /// be addressed.
    pub fn try_prepared(self) -> (r: Option<Result<DynamicImage, Error>>)
        ensures
            match r {
                Some(p) => {
                    &&& preparable(image_kind(self.2), image_size(self.2), self.1, self.0)
                    &&& p matches Ok(img) && prepared_from(self.2, self.0, self.1, img)
                },
                None => !preparable(image_kind(self.2), image_size(self.2), self.1, self.0),
            },
    {
        let size = dimensions(&self.2);
        let kind = match pixel_kind(&self.2) {
            Some(kind) => kind,
            None => {
                return Some(Err(Error::Image));
            },
        };
        let crop = center_crop(self.1, size.0, size.1);
        if is_resizable(kind, size, crop, self.0, self.0) && is_allocatable(
            PixelKind::Rgb32F,
            self.0,
            self.0,
        ) {
            Some(self.prepared())
        } else {
            None
        }
    }
}

/// `img` is what is added of `residual` to a picture of `width` by `height`: four real samples per
/// pixel, which a residual that has them keeps, shrunk where it is larger than the picture in
/// either direction.
pub open spec fn fitted_from(
    residual: DynamicImage,
    width: u32,
    height: u32,
    img: DynamicImage,
) -> bool {
    let (rw, rh) = image_size(residual);
    let pixels = rgba32f_pixels(image_kind(residual), image_pixels(residual));
    &&& image_kind(img) == PixelKind::Rgba32F
    &&& image_kind(residual) == PixelKind::Rgba32F ==> pixels == image_pixels(residual)
    &&& match shrunk_size_spec(width, height, rw, rh) {
        Some((w, h)) => {
            &&& image_size(img) == (w, h)
            &&& image_pixels(img) == triangle_pixels(pixels, rw, rh, w, h)
        },
        None => {
            &&& image_size(img) == (rw, rh)
            &&& image_pixels(img) == pixels
        },
    }
}

/// Brings `residual` to the form in which it is added to a picture of `width` by `height`: four
/// real samples per pixel, and nowhere larger than the picture.
pub fn fit_residual(residual: DynamicImage, width: u32, height: u32) -> (r: DynamicImage)
    requires
        allocatable(PixelKind::Rgba32F, image_size(residual).0, image_size(residual).1),
    ensures
        fitted_from(residual, width, height, r),
{
    let residual_rgba = into_rgba32f(residual);
    let (rw, rh) = dimensions(&residual_rgba);
    match shrunk_size(width, height, rw, rh) {
        Some((target_w, target_h)) => resize_triangle(&residual_rgba, target_w, target_h),
        None => residual_rgba,
    }
}

/// Brings `residual` to the form in which it is added to a picture of `width` by `height`, or
/// answers `None` where that would need more memory than can be addressed.
pub fn try_fit_residual(residual: DynamicImage, width: u32, height: u32) -> (r: Option<
    DynamicImage,
>)
    ensures
        match r {
            Some(img) => {
                &&& allocatable(PixelKind::Rgba32F, image_size(residual).0, image_size(residual).1)
                &&& fitted_from(residual, width, height, img)
            },
            None => !allocatable(PixelKind::Rgba32F, image_size(residual).0, image_size(residual).1),
        },
{
    let (rw, rh) = dimensions(&residual);
    if is_allocatable(PixelKind::Rgba32F, rw, rh) {
        Some(fit_residual(residual, width, height))
    } else {
        None
    }
}

/// A square picture of the model's side length with three real samples per pixel is prepared as it
/// is.
pub proof fn preparing_keeps_fitting_pictures(
    source: DynamicImage,
    size: u32,
    variant: Variant,
    img: DynamicImage,
)
    requires
        image_size(source) == (size, size),
        image_kind(source) == PixelKind::Rgb32F,
        image_pixels(source).len() == size * size,
        prepared_from(source, size, variant, img),
    ensures
        image_size(img) == image_size(source),
        image_kind(img) == image_kind(source),
        image_pixels(img) == image_pixels(source),
{
    let p = image_pixels(source);
    let q = image_pixels(img);
    assert forall|i: int| 0 <= i < p.len() implies q[i] == p[i] by {
        assert(size > 0) by (nonlinear_arith)
            requires
                0 <= i < size * size,
        ;
        let y = i / (size as int);
        let x = i % (size as int);
        lemma_fundamental_div_mod(i, size as int);
        assert(0 <= y < size) by (nonlinear_arith)
            requires
                i == (size as int) * y + x,
                0 <= x < size,
                0 <= i < size * size,
        ;
        assert(y * size == size * y) by (nonlinear_arith);
        assert(q[y * size + x] == p[(0 + y) * size + (0 + x)]);
    }
    assert(q =~= p);
}

/// Preparing a prepared picture again changes nothing.
pub proof fn preparing_is_idempotent(
    source: DynamicImage,
    size: u32,
    variant: Variant,
    once: DynamicImage,
    twice: DynamicImage,
)
    requires
        prepared_from(source, size, variant, once),
        prepared_from(once, size, variant, twice),
    ensures
        image_size(twice) == image_size(once),
        image_kind(twice) == image_kind(once),
        image_pixels(twice) == image_pixels(once),
{
    preparing_keeps_fitting_pictures(once, size, variant, twice);
}

/// Fitting a fitted residual to the same picture again keeps its size and its pixels: a residual
/// that was shrunk is applied like the larger one it was made from.
pub proof fn fitting_is_idempotent(
    residual: DynamicImage,
    width: u32,
    height: u32,
    once: DynamicImage,
    twice: DynamicImage,
)
    requires
        fitted_from(residual, width, height, once),
        fitted_from(once, width, height, twice),
    ensures
        image_size(twice) == image_size(once),
        image_kind(twice) == image_kind(once),
        image_pixels(twice) == image_pixels(once),
{
}

/// After fitting, a residual is nowhere larger than the picture.
pub proof fn fitted_residual_fits(residual: DynamicImage, width: u32, height: u32, img: DynamicImage)
    requires
        fitted_from(residual, width, height, img),
    ensures
        image_size(img).0 <= width,
        image_size(img).1 <= height,
        shrunk_size_spec(width, height, image_size(img).0, image_size(img).1) is None,
{
}

/// The crop of an image goes by its size: it is the whole image where that is at most twice as high
/// as wide and at most twice as wide as high, except for variant `P`. Else it is the largest square
/// that fits, in the middle.
pub proof fn images_are_cropped_by_their_size(
    variant: Variant,
    img: DynamicImage,
    width: u32,
    height: u32,
    r: (u32, u32, u32, u32),
)
    requires
        call_ensures(center_crop_size_and_offset, (variant, &img), r),
        image_size(img) == (width, height),
    ensures
        variant != Variant::P && height <= 2 * width && width <= 2 * height ==> r == (
            width,
            height,
            0u32,
            0u32,
        ),
        variant == Variant::P || height > 2 * width || width > 2 * height ==> {
            &&& r.0 == r.1
            &&& r.0 <= width && r.1 <= height
            &&& r.0 == width || r.1 == height
            &&& 0 <= width - r.0 - 2 * r.2 <= 1
            &&& 0 <= height - r.1 - 2 * r.3 <= 1
        },
{
}

/// Resizing succeeds exactly where the rectangle lies inside the image, or it or the result has no
/// pixels. The result has the size that was asked for and the format of the image. It is all zero
/// where there is nothing to resize, pixel for pixel the rectangle where that has the size, and else
/// what bilinear interpolation of just that rectangle may give.
pub proof fn resizing_takes_the_rectangle(
    img: DynamicImage,
    width: u32,
    height: u32,
    crop: Crop,
    r: Result<DynamicImage, Error>,
    x: int,
    y: int,
)
    requires
        call_ensures(resize_img, (&img, width, height, crop), r),
        0 <= x < width,
        0 <= y < height,
    ensures
        ({
            let (w, h) = image_size(img);
            let empty = crop.width == 0 || crop.height == 0;
            &&& r is Ok <==> empty || (crop.xpos + crop.width <= w && crop.ypos + crop.height <= h)
            &&& r matches Err(e) ==> e is Resize
            &&& r matches Ok(o) ==> {
                &&& image_size(o) == (width, height)
                &&& image_kind(o) == image_kind(img)
                &&& image_pixels(o).len() == width * height
                &&& empty ==> forall|c: int|
                    0 <= c < image_pixels(o)[y * width + x].len() ==> #[trigger] image_pixels(o)[y
                        * width + x][c] == 0
                &&& !empty && crop.width == width && crop.height == height ==> image_pixels(o)[y
                    * width + x] == image_pixels(img)[(crop.ypos + y) * w + (crop.xpos + x)]
                &&& !empty && (crop.width != width || crop.height != height) ==> bilinear_outcomes(
                    image_kind(img),
                    w,
                    h,
                    image_pixels(img),
                    crop.xpos,
                    crop.ypos,
                    crop.width,
                    crop.height,
                    width,
                    height,
                ).contains(image_pixels(o))
            }
        }),
{
    let i = y * width + x;
    assert(0 <= i < width * height) by (nonlinear_arith)
        requires
            i == y * width + x,
            0 <= x < width,
            0 <= y < height,
    ;
    if let Ok(o) = r {
        if crop.width == 0 || crop.height == 0 {
            assert(image_pixels(o) == zero_pixels(image_kind(img), width, height));
            assert(image_pixels(o)[i] == Seq::new(image_kind(img).channels(), |c: int| 0u32));
        }
    }
}

/// A result without pixels takes no resizing, so it is always given.
pub proof fn resizing_to_nothing_succeeds(
    img: DynamicImage,
    width: u32,
    height: u32,
    crop: Crop,
    r: Result<DynamicImage, Error>,
)
    requires
        call_ensures(resize_img, (&img, width, height, crop), r),
        width == 0 || height == 0,
    ensures
        r matches Ok(o) && image_size(o) == (width, height) && image_kind(o) == image_kind(img)
            && image_pixels(o).len() == 0,
{
    assert(width * height == 0) by (nonlinear_arith)
        requires
            width == 0 || height == 0,
    ;
    if let Ok(o) = r {
        assert(image_pixels(o) == zero_pixels(image_kind(img), width, height));
    }
}

/// The picture that the model sees is a square of its side length with three real samples per pixel.
/// It is made of the rectangle of `cut_width` by `cut_height` at `left` and `above`: the whole source
/// where that is at most twice as high as wide and at most twice as wide as high, except for variant
/// `P`, and else the largest square that fits, with the same margins on opposite sides up to one
/// pixel. Where the rectangle has the side length of the model, every pixel is the one that stands
/// there in the source, `left` and `above` further on.
pub proof fn the_model_sees_the_middle(
    model: ModelImage,
    r: Result<DynamicImage, Error>,
    width: u32,
    height: u32,
    left: u32,
    above: u32,
    cut_width: u32,
    cut_height: u32,
)
    requires
        call_ensures(ModelImage::prepared, (model,), r) || call_ensures(
            ModelImage::try_prepared,
            (model,),
            Some(r),
        ),
        image_size(model.2) == (width, height),
        ({
            let variant = model.1;
            &&& (variant != Variant::P && height <= 2 * width && width <= 2 * height ==> {
                &&& cut_width == width && cut_height == height
                &&& left == 0 && above == 0
            })
            &&& (variant == Variant::P || height > 2 * width || width > 2 * height ==> {
                &&& cut_width == cut_height
                &&& cut_width <= width && cut_height <= height
                &&& cut_width == width || cut_height == height
                &&& 0 <= width - cut_width - 2 * left <= 1
                &&& 0 <= height - cut_height - 2 * above <= 1
            })
        }),
    ensures
        r matches Ok(out) && ({
            let size = model.0;
            let source = image_pixels(model.2);
            let kind = image_kind(model.2);
            let empty = cut_width == 0 || cut_height == 0 || size == 0;
            &&& image_size(out) == (size, size)
            &&& image_kind(out) == PixelKind::Rgb32F
            &&& image_pixels(out).len() == size * size
            &&& exists|pixels: Seq<Seq<u32>>|
                {
                    &&& image_pixels(out) == #[trigger] rgb32f_pixels(kind, pixels)
                    &&& kind == PixelKind::Rgb32F ==> image_pixels(out) == pixels
                    &&& pixels.len() == size * size
                    &&& empty ==> forall|i: int, c: int|
                        0 <= i < pixels.len() && 0 <= c < pixels[i].len()
                            ==> #[trigger] pixels[i][c] == 0
                    &&& !empty && cut_width == size && cut_height == size ==> forall|x: int, y: int|
                        0 <= x < size && 0 <= y < size ==> #[trigger] pixels[y * size + x]
                            == source[(above + y) * width + (left + x)]
                    &&& !empty && (cut_width != size || cut_height != size) ==> bilinear_outcomes(
                        kind,
                        width,
                        height,
                        source,
                        left,
                        above,
                        cut_width,
                        cut_height,
                        size,
                        size,
                    ).contains(pixels)
                }
        }),
{
    let source = model.2;
    let size = model.0;
    let crop = center_crop_spec(model.1, width, height);
    assert(crop == Crop { width: cut_width, height: cut_height, xpos: left, ypos: above });
    assert(r is Ok);
    let out = r->Ok_0;
    let pixels = choose|pixels: Seq<Seq<u32>>|
        {
            &&& #[trigger] resized(source, crop, size, size, pixels)
            &&& image_pixels(out) == rgb32f_pixels(image_kind(source), pixels)
            &&& image_kind(source) == PixelKind::Rgb32F ==> image_pixels(out) == pixels
        };
    assert(image_pixels(out) == rgb32f_pixels(image_kind(source), pixels));
    if cut_width == 0 || cut_height == 0 || size == 0 {
        assert(pixels == zero_pixels(image_kind(source), size, size));
    }
}

/// Of a source with three real samples per pixel that is cut to the side length of the model, the
/// model sees the pixels themselves: those in the middle.
pub proof fn uncut_pixels_come_from_the_middle(
    model: ModelImage,
    out: DynamicImage,
    width: u32,
    height: u32,
    x: int,
    y: int,
)
    requires
        call_ensures(ModelImage::prepared, (model,), Ok::<DynamicImage, Error>(out)),
        image_size(model.2) == (width, height),
        image_kind(model.2) == PixelKind::Rgb32F,
        model.1 == Variant::P || height > 2 * width || width > 2 * height,
        model.0 <= width && model.0 <= height,
        model.0 == width || model.0 == height,
        0 <= x < model.0,
        0 <= y < model.0,
    ensures
        image_pixels(out)[y * model.0 + x] == image_pixels(model.2)[(y + (height - model.0) / 2)
            * width + (x + (width - model.0) / 2)],
{
    let m = model.0;
    let left = ((width - m) / 2) as u32;
    let above = ((height - m) / 2) as u32;
    the_model_sees_the_middle(
        model,
        Ok::<DynamicImage, Error>(out),
        width,
        height,
        left,
        above,
        m,
        m,
    );
}

/// A picture is prepared whenever it, the result and the steps between them fit comfortably into
/// memory, whatever its proportions, its format and the variant.
pub proof fn pictures_that_fit_are_prepared(
    model: ModelImage,
    r: Option<Result<DynamicImage, Error>>,
    width: u32,
    height: u32,
)
    requires
        image_size(model.2) == (width, height),
        (width + model.0 + 2) * (height + model.0 + 2) * 64 <= isize::MAX,
        call_ensures(ModelImage::try_prepared, (model,), r),
    ensures
        call_requires(ModelImage::prepared, (model,)),
        r is Some,
{
    let size = model.0;
    let kind = image_kind(model.2);
    let crop = center_crop_spec(model.1, width, height);
    let (a, b) = (width + size + 2, height + size + 2);
    let (cols, rows) = (read_along(width, crop.width), read_along(height, crop.height));
    assert(a * 64 <= isize::MAX && b * 64 <= isize::MAX) by (nonlinear_arith)
        requires
            a * b * 64 <= isize::MAX,
            a >= 1,
            b >= 1,
    ;
    lemma_fits(kind, size as int, size as int, a, b);
    lemma_fits(PixelKind::Rgb32F, size as int, size as int, a, b);
    lemma_fits(kind, width as int, height as int, a, b);
    lemma_fits(kind, cols, size as int, a, b);
    lemma_fits(kind, size as int, rows, a, b);
    lemma_fits(kind, cols, 1, a, b);
    lemma_fits(kind, size as int, 1, a, b);
    assert(preparable(kind, (width, height), model.1, size));
}

/// An image can be resized whenever it, the result and the steps between them fit comfortably into
/// memory, whatever the rectangle.
pub proof fn resizing_that_fits_is_allowed(img: DynamicImage, width: u32, height: u32, crop: Crop)
    requires
        (image_size(img).0 + width + 2) * (image_size(img).1 + height + 2) * 64 <= isize::MAX,
    ensures
        call_requires(resize_img, (&img, width, height, crop)),
{
    let kind = image_kind(img);
    let (w, h) = image_size(img);
    let (a, b) = (w + width + 2, h + height + 2);
    let (cols, rows) = (read_along(w, crop.width), read_along(h, crop.height));
    assert(a * 64 <= isize::MAX && b * 64 <= isize::MAX) by (nonlinear_arith)
        requires
            a * b * 64 <= isize::MAX,
            a >= 1,
            b >= 1,
    ;
    lemma_fits(kind, width as int, height as int, a, b);
    lemma_fits(kind, w as int, h as int, a, b);
    lemma_fits(kind, cols, height as int, a, b);
    lemma_fits(kind, width as int, rows, a, b);
    lemma_fits(kind, cols, 1, a, b);
    lemma_fits(kind, width as int, 1, a, b);
    assert(resizable(kind, (w, h), crop, width, height));
}

proof fn lemma_fits(kind: PixelKind, width: int, height: int, a: int, b: int)
    requires
        0 <= width <= a - 2,
        0 <= height <= b - 1,
        a * b * 64 <= isize::MAX,
    ensures
        width * height * kind.bytes() <= isize::MAX,
        (width * height + 1) * kind.bytes() <= isize::MAX,
        width * kind.bytes() * 4 <= isize::MAX,
        width * kind.channels() <= isize::MAX,
{
    let n = kind.bytes() as int;
    let c = kind.channels() as int;
    assert(0 <= width * height && width * height + 1 <= a * b) by (nonlinear_arith)
        requires
            0 <= width <= a - 2,
            0 <= height <= b - 1,
    ;
    let p = width * height;
    let q = a * b;
    assert(p * n <= q * 64 && (p + 1) * n <= q * 64) by (nonlinear_arith)
        requires
            0 <= p,
            p + 1 <= q,
            1 <= n <= 16,
    ;
    assert(width <= q) by (nonlinear_arith)
        requires
            0 <= width <= a - 2,
            b >= 1,
            q == a * b,
    ;
    assert(width * n * 4 <= q * 64) by (nonlinear_arith)
        requires
            0 <= width <= q,
            1 <= n <= 16,
    ;
    assert(width * c <= q * 64) by (nonlinear_arith)
        requires
            0 <= width <= q,
            1 <= c <= 4,
    ;
}

/// Fitting a residual gives four real samples per pixel and the smaller of the two widths by the
/// smaller of the two heights. A residual that is nowhere larger than the picture keeps its pixels,
/// up to their format, and any other is scaled as a whole, with a triangle filter.
pub proof fn residuals_fit_by_their_smaller_sides(
    residual: DynamicImage,
    width: u32,
    height: u32,
    r: DynamicImage,
)
    requires
        call_ensures(fit_residual, (residual, width, height), r) || call_ensures(
            try_fit_residual,
            (residual, width, height),
            Some(r),
        ),
    ensures
        ({
            let (rw, rh) = image_size(residual);
            let (w, h) = image_size(r);
            let pixels = rgba32f_pixels(image_kind(residual), image_pixels(residual));
            &&& w <= width && w <= rw && (w == width || w == rw)
            &&& h <= height && h <= rh && (h == height || h == rh)
            &&& image_kind(r) == PixelKind::Rgba32F
            &&& image_kind(residual) == PixelKind::Rgba32F ==> pixels == image_pixels(residual)
            &&& rw <= width && rh <= height ==> image_pixels(r) == pixels
            &&& rw > width || rh > height ==> image_pixels(r) == triangle_pixels(pixels, rw, rh, w, h)
        }),
{
}

/// A residual is fitted whenever four real samples for each of its pixels fit into memory, whatever
/// the size of the picture.
pub proof fn residuals_that_fit_into_memory_are_fitted(
    residual: DynamicImage,
    width: u32,
    height: u32,
    r: Option<DynamicImage>,
)
    requires
        call_ensures(try_fit_residual, (residual, width, height), r),
    ensures
        ({
            let (rw, rh) = image_size(residual);
            &&& r is Some <==> rw * 4 <= usize::MAX && rw * rh * 16 <= isize::MAX
            &&& r is Some ==> call_requires(fit_residual, (residual, width, height))
        }),
{
}

} // verus!
