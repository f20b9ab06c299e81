//! Which part of a picture the model sees, and how large a residual may be.
use crate::variant::Variant;
use vstd::prelude::*;

verus! {

/// A rectangle of pixels: its size, and the position of its top left corner.
#[derive(Debug, Clone, Copy, PartialEq, Eq, Structural)]
pub struct Crop {
    pub width: u32,
    pub height: u32,
    pub xpos: u32,
    pub ypos: u32,
}

impl Crop {
    /// The rectangle lies inside a picture of `width` by `height` pixels.
    pub open spec fn inside(self, width: int, height: int) -> bool {
        &&& self.xpos + self.width <= width
        &&& self.ypos + self.height <= height
    }

    /// The same rectangle in the transposed picture.
    pub open spec fn transposed(self) -> Crop {
        Crop { width: self.height, height: self.width, xpos: self.ypos, ypos: self.xpos }
    }
}

/// The shorter of two sides.
pub open spec fn shorter(a: u32, b: u32) -> u32 {
    if a <= b {
        a
    } else {
        b
    }
}

/// One side of a picture is more than twice as long as the other.
pub open spec fn elongated(width: u32, height: u32) -> bool {
    height > 2 * width || width > 2 * height
}

/// The part of a `width` by `height` picture that the model sees: the centred square on the
/// shorter side for an elongated picture and for variant `P`, and else the whole picture. An odd
/// margin leaves its extra pixel to the right or at the bottom.
pub open spec fn center_crop_spec(variant: Variant, width: u32, height: u32) -> Crop {
    if elongated(width, height) || variant == Variant::P {
        let side = shorter(width, height);
        Crop {
            width: side,
            height: side,
            xpos: ((width - side) / 2) as u32,
            ypos: ((height - side) / 2) as u32,
        }
    } else {
        Crop { width, height, xpos: 0, ypos: 0 }
    }
}

/// The part of a `width` by `height` picture that the model sees.
///
/// For long-skinny or short-wide pictures this is a square, with the side length of the shorter
/// side, out of the centre of the picture.
pub fn center_crop(variant: Variant, width: u32, height: u32) -> (r: Crop)
    ensures
        r == center_crop_spec(variant, width, height),
{
    let w: u64 = width as u64;
    let h: u64 = height as u64;
    if h > w * 2 || w > h * 2 || variant == Variant::P {
        let m: u32 = if height <= width {
            height
        } else {
            width
        };
        if height > width {
            let offset: u32 = (height - m) / 2;
            Crop { width: m, height: m, xpos: 0, ypos: offset }
        } else {
            let offset: u32 = (width - m) / 2;
            Crop { width: m, height: m, xpos: offset, ypos: 0 }
        }
    } else {
        Crop { width, height, xpos: 0, ypos: 0 }
    }
}

/// The crop never reaches outside the picture.
pub proof fn crop_stays_inside(variant: Variant, width: u32, height: u32)
    ensures
        center_crop_spec(variant, width, height).inside(width as int, height as int),
{
}

/// Where the picture is cropped, the crop is a square on the shorter side and sits in the centre:
/// the margins on opposite sides differ by at most one pixel, and no pixel is lost along the
/// shorter side.
pub proof fn crop_is_centered_square(variant: Variant, width: u32, height: u32)
    requires
        elongated(width, height) || variant == Variant::P,
    ensures
        ({
            let c = center_crop_spec(variant, width, height);
            let right = width - c.width - c.xpos;
            let below = height - c.height - c.ypos;
            &&& c.width == c.height == shorter(width, height)
            &&& 0 <= right - c.xpos <= 1
            &&& 0 <= below - c.ypos <= 1
            &&& width <= height ==> c.xpos == 0 && right == 0
            &&& height <= width ==> c.ypos == 0 && below == 0
        }),
{
}

/// Variant `P` always gets a square.
pub proof fn crop_of_p_is_square(width: u32, height: u32)
    ensures
        center_crop_spec(Variant::P, width, height).width == center_crop_spec(
            Variant::P,
            width,
            height,
        ).height,
{
}

/// Every variant but `P` sees a picture whole unless one side is more than twice the other.
pub proof fn crop_keeps_ordinary_pictures(variant: Variant, width: u32, height: u32)
    requires
        variant != Variant::P,
        !elongated(width, height),
    ensures
        center_crop_spec(variant, width, height) == (Crop { width, height, xpos: 0, ypos: 0 }),
{
}

/// Cropping treats both directions alike: the crop of the transposed picture is the transposed
/// crop.
pub proof fn crop_commutes_with_transposition(variant: Variant, width: u32, height: u32)
    ensures
        center_crop_spec(variant, height, width) == center_crop_spec(
            variant,
            width,
            height,
        ).transposed(),
{
}

/// A picture that was cropped once is not cropped further.
pub proof fn crop_is_idempotent(variant: Variant, width: u32, height: u32)
    ensures
        ({
            let c = center_crop_spec(variant, width, height);
            center_crop_spec(variant, c.width, c.height) == (Crop {
                width: c.width,
                height: c.height,
                xpos: 0,
                ypos: 0,
            })
        }),
{
}

/// The size a residual is brought to before it is added to a `width` by `height` picture: where
/// it is larger in either direction, both its sides are cut to those of the picture; else there is
/// nothing to do.
pub open spec fn shrunk_size_spec(
    width: u32,
    height: u32,
    residual_width: u32,
    residual_height: u32,
) -> Option<(u32, u32)> {
    if residual_width > width || residual_height > height {
        Some((shorter(residual_width, width), shorter(residual_height, height)))
    } else {
        None
    }
}

/// The size a residual has to be resized to before it is added to a `width` by `height` picture,
/// or `None` where it can be used as it is.
pub fn shrunk_size(width: u32, height: u32, residual_width: u32, residual_height: u32) -> (r: Option<
    (u32, u32),
>)
    ensures
        r == shrunk_size_spec(width, height, residual_width, residual_height),
{
    if residual_width > width || residual_height > height {
        let w: u32 = if residual_width <= width {
            residual_width
        } else {
            width
        };
        let h: u32 = if residual_height <= height {
            residual_height
        } else {
            height
        };
        Some((w, h))
    } else {
        None
    }
}

/// After shrinking, a residual is nowhere larger than the picture and nowhere larger than it was,
/// and shrinking it again changes nothing.
pub proof fn shrinking_fits_once_and_for_all(
    width: u32,
    height: u32,
    residual_width: u32,
    residual_height: u32,
)
    ensures
        match shrunk_size_spec(width, height, residual_width, residual_height) {
            Some((w, h)) => {
                &&& w <= width && h <= height
                &&& w <= residual_width && h <= residual_height
                &&& shrunk_size_spec(width, height, w, h) is None
            },
            None => residual_width <= width && residual_height <= height,
        },
{
}

/// A picture that is at most twice as high as wide and at most twice as wide as high is seen whole,
/// except by variant `P`.
pub proof fn ordinary_proportions_are_kept(variant: Variant, width: u32, height: u32, r: Crop)
    requires
        call_ensures(center_crop, (variant, width, height), r),
        variant != Variant::P,
        height <= 2 * width,
        width <= 2 * height,
    ensures
        r.width == width,
        r.height == height,
        r.xpos == 0,
        r.ypos == 0,
{
}

/// Of a picture more than twice as high as wide or more than twice as wide as high, and of every
/// picture for variant `P`, the largest square is seen that fits, with as many pixels left over on
/// one side as on the other, or one more to the right or at the bottom.
pub proof fn other_proportions_are_cut_to_the_middle(
    variant: Variant,
    width: u32,
    height: u32,
    r: Crop,
)
    requires
        call_ensures(center_crop, (variant, width, height), r),
        variant == Variant::P || height > 2 * width || width > 2 * height,
    ensures
        r.width == r.height,
        r.width <= width,
        r.height <= height,
        r.width == width || r.height == height,
        0 <= (width - r.width - r.xpos) - r.xpos <= 1,
        0 <= (height - r.height - r.ypos) - r.ypos <= 1,
{
}

/// A picture keeps its crop when it is turned on its side, with the sides exchanged, and when both
/// its sides are doubled, with twice the size.
pub proof fn crops_turn_and_grow_with_the_picture(
    variant: Variant,
    width: u32,
    height: u32,
    r: Crop,
    turned: Crop,
    double_width: u32,
    double_height: u32,
    double: Crop,
)
    requires
        double_width == 2 * width,
        double_height == 2 * height,
        call_ensures(center_crop, (variant, width, height), r),
        call_ensures(center_crop, (variant, height, width), turned),
        call_ensures(center_crop, (variant, double_width, double_height), double),
    ensures
        turned.width == r.height,
        turned.height == r.width,
        turned.xpos == r.ypos,
        turned.ypos == r.xpos,
        double.width == 2 * r.width,
        double.height == 2 * r.height,
        0 <= double.xpos - 2 * r.xpos <= 1,
        0 <= double.ypos - 2 * r.ypos <= 1,
{
}

/// A residual that is nowhere larger than the picture is used as it is. Any other is brought to the
/// smaller of the two widths by the smaller of the two heights.
pub proof fn residuals_shrink_to_the_smaller_sides(
    width: u32,
    height: u32,
    residual_width: u32,
    residual_height: u32,
    r: Option<(u32, u32)>,
)
    requires
        call_ensures(shrunk_size, (width, height, residual_width, residual_height), r),
    ensures
        residual_width <= width && residual_height <= height ==> r is None,
        residual_width > width || residual_height > height ==> r is Some,
        r matches Some((w, h)) ==> {
            &&& w <= width && w <= residual_width && (w == width || w == residual_width)
            &&& h <= height && h <= residual_height && (h == height || h == residual_height)
        },
{
}

} // verus!
