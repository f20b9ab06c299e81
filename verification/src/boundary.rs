//! Softening the edge of a residual.
use crate::sample::{
    integer, integer_is, product_is, quotient_is, total, truncated, truncated_is, word_is, Sample,
};
use crate::tensor::{picture_volume, Tensor, CHANNELS};
use crate::variant::Variant;
use vstd::arithmetic::div_mod::lemma_fundamental_div_mod_converse;
use vstd::prelude::*;

verus! {

/// The side length of the residual that the model gives.
pub const SIDE: usize = 256;

/// The width of the frame along the edge of the residual that is replaced. It softens the
/// transition between the residual area and the rest of the image.
pub const BORDER: usize = 2;

/// Row `y` or column `x` belongs to the frame.
pub open spec fn framed(y: int, x: int) -> bool {
    y < BORDER || y >= SIDE - BORDER || x < BORDER || x >= SIDE - BORDER
}

/// The residual with its frame replaced by the mean of each channel: the element at channel `c`,
/// row `y` and column `x`.
pub open spec fn softened<T>(residual: Seq<T>, means: Seq<T>, c: int, y: int, x: int) -> T {
    if framed(y, x) {
        means[c]
    } else {
        residual[(c * SIDE + y) * SIDE + x]
    }
}

/// The softened residual in the middle of a field of means, `long` wide where `wide` holds and
/// `long` high where it does not: the element at channel `c`, row `y` and column `x`.
pub open spec fn padded_at<T>(
    residual: Seq<T>,
    means: Seq<T>,
    wide: bool,
    long: int,
    c: int,
    y: int,
    x: int,
) -> T {
    let margin = (long - SIDE) / 2;
    if wide {
        if margin <= x < margin + SIDE {
            softened(residual, means, c, y, x - margin)
        } else {
            means[c]
        }
    } else {
        if margin <= y < margin + SIDE {
            softened(residual, means, c, y - margin, x)
        } else {
            means[c]
        }
    }
}

/// The number of rows of the padded residual.
pub open spec fn padded_rows(wide: bool, long: int) -> int {
    if wide {
        SIDE as int
    } else {
        long
    }
}

/// The number of columns of the padded residual.
pub open spec fn padded_columns(wide: bool, long: int) -> int {
    if wide {
        long
    } else {
        SIDE as int
    }
}

/// `t` is the residual, softened and padded with means to `long` in one direction.
pub open spec fn padded<T>(
    residual: Seq<T>,
    means: Seq<T>,
    wide: bool,
    long: int,
    t: Tensor<T>,
) -> bool {
    let rows = padded_rows(wide, long);
    let columns = padded_columns(wide, long);
    &&& t.wf()
    &&& t.is_picture(rows, columns)
    &&& forall|i: int|
        0 <= i < t.data@.len() ==> #[trigger] t.data@[i] == padded_at(
            residual,
            means,
            wide,
            long,
            i / (rows * columns),
            (i % (rows * columns)) / columns,
            (i % (rows * columns)) % columns,
        )
}

/// The residual of the model, with a frame of means, centred in a field of means of `long` by 256
/// or 256 by `long`.
pub fn pad_residual<T: Copy>(residual: &Tensor<T>, means: &Vec<T>, wide: bool, long: usize) -> (r:
    Tensor<T>)
    requires
        residual.wf(),
        residual.is_picture(SIDE as int, SIDE as int),
        means@.len() == CHANNELS,
        SIDE <= long,
        CHANNELS * SIDE * long <= isize::MAX,
    ensures
        padded(residual.data@, means@, wide, long as int, r),
{
    let rows: usize = if wide {
        SIDE
    } else {
        long
    };
    let columns: usize = if wide {
        long
    } else {
        SIDE
    };
    let margin: usize = (long - SIDE) / 2;
    let ghost plane: int = rows * columns;
    proof {
        picture_volume(residual.shape@);
        assert(plane == SIDE * long) by (nonlinear_arith)
            requires
                plane == rows * columns,
                (rows == SIDE && columns == long) || (rows == long && columns == SIDE),
        ;
    }
    let mut data: Vec<T> = Vec::new();
    let mut c: usize = 0;
    while c < CHANNELS
        invariant
            residual.data@.len() == CHANNELS * (SIDE * SIDE),
            means@.len() == CHANNELS,
            SIDE <= long,
            margin == (long - SIDE) / 2,
            rows == padded_rows(wide, long as int),
            columns == padded_columns(wide, long as int),
            plane == rows * columns,
            0 <= c <= CHANNELS,
            data@.len() == c * plane,
            forall|i: int|
                0 <= i < data@.len() ==> #[trigger] data@[i] == padded_at(
                    residual.data@,
                    means@,
                    wide,
                    long as int,
                    i / plane,
                    (i % plane) / (columns as int),
                    (i % plane) % (columns as int),
                ),
        decreases CHANNELS - c,
    {
        let mut y: usize = 0;
        while y < rows
            invariant
                residual.data@.len() == CHANNELS * (SIDE * SIDE),
                means@.len() == CHANNELS,
                SIDE <= long,
                margin == (long - SIDE) / 2,
                rows == padded_rows(wide, long as int),
                columns == padded_columns(wide, long as int),
                plane == rows * columns,
                0 <= c < CHANNELS,
                0 <= y <= rows,
                data@.len() == c * plane + y * columns,
                forall|i: int|
                    0 <= i < data@.len() ==> #[trigger] data@[i] == padded_at(
                        residual.data@,
                        means@,
                        wide,
                        long as int,
                        i / plane,
                        (i % plane) / (columns as int),
                        (i % plane) % (columns as int),
                    ),
            decreases rows - y,
        {
            let mut x: usize = 0;
            while x < columns
                invariant
                    residual.data@.len() == CHANNELS * (SIDE * SIDE),
                    means@.len() == CHANNELS,
                    SIDE <= long,
                    margin == (long - SIDE) / 2,
                    rows == padded_rows(wide, long as int),
                    columns == padded_columns(wide, long as int),
                    plane == rows * columns,
                    0 <= c < CHANNELS,
                    0 <= y < rows,
                    0 <= x <= columns,
                    data@.len() == c * plane + y * columns + x,
                    forall|i: int|
                        0 <= i < data@.len() ==> #[trigger] data@[i] == padded_at(
                            residual.data@,
                            means@,
                            wide,
                            long as int,
                            i / plane,
                            (i % plane) / (columns as int),
                            (i % plane) % (columns as int),
                        ),
                decreases columns - x,
            {
                proof {
                    let r = y * columns + x;
                    assert(0 <= r < plane) by (nonlinear_arith)
                        requires
                            r == y * columns + x,
                            plane == rows * columns,
                            0 <= y < rows,
                            0 <= x < columns,
                    ;
                    lemma_fundamental_div_mod_converse(c * plane + r, plane, c as int, r);
                    lemma_fundamental_div_mod_converse(r, columns as int, y as int, x as int);
                }
                let along: usize = if wide {
                    x
                } else {
                    y
                };
                let mut v = means[c];
                if margin <= along && along - margin < SIDE {
                    let ry: usize = if wide {
                        y
                    } else {
                        y - margin
                    };
                    let rx: usize = if wide {
                        x - margin
                    } else {
                        x
                    };
                    if ry >= BORDER && ry < SIDE - BORDER && rx >= BORDER && rx < SIDE - BORDER {
                        v = residual.data[(c * SIDE + ry) * SIDE + rx];
                    }
                }
                data.push(v);
                x = x + 1;
            }
            proof {
                assert(y * columns + columns == (y + 1) * columns) by (nonlinear_arith);
            }
            y = y + 1;
        }
        proof {
            assert(c * plane + plane == (c + 1) * plane) by (nonlinear_arith);
        }
        c = c + 1;
    }
    let shape: Vec<usize> = vec![1, CHANNELS, rows, columns];
    proof {
        picture_volume(shape@);
    }
    Tensor { shape, data }
}

/// `long` is `longer / shorter * 256`, the fraction cut off.
pub open spec fn stretched_is<T: Sample>(longer: usize, shorter: usize, long: usize) -> bool {
    exists|a: T, b: T, ratio: T, side: T, product: T, whole: nat|
        {
            &&& #[trigger] integer_is(longer as nat, a)
            &&& #[trigger] integer_is(shorter as nat, b)
            &&& #[trigger] quotient_is(a, b, ratio)
            &&& #[trigger] word_is(256, side)
            &&& #[trigger] product_is(ratio, side, product)
            &&& #[trigger] truncated_is(product, 3, whole)
            &&& long == (if whole <= usize::MAX {
                whole as int
            } else {
                usize::MAX as int
            })
        }
}

fn stretched<T: Sample>(longer: usize, shorter: usize) -> (long: usize)
    requires
        total::<T>(),
    ensures
        stretched_is::<T>(longer, shorter, long),
{
    let a = integer::<T>(longer);
    let b = integer::<T>(shorter);
    let ratio = a / b;
    let side = T::from(256u16);
    let product = ratio * side;
    let whole: u64 = truncated(product, 3);
    assert(integer_is(longer as nat, a) && integer_is(shorter as nat, b) && quotient_is(a, b, ratio)
        && word_is(256, side) && product_is(ratio, side, product) && truncated_is(
        product,
        3,
        whole as nat,
    ));
    if whole <= usize::MAX as u64 {
        whole as usize
    } else {
        usize::MAX
    }
}

/// `long` is the longer side of a padded residual for a picture of `width` by `height`: with the
/// shorter side 256, the sides are in the ratio of those of the picture.
pub open spec fn long_side_is<T: Sample>(width: usize, height: usize, long: usize) -> bool {
    if width > height {
        stretched_is::<T>(width, height, long)
    } else {
        stretched_is::<T>(height, width, long)
    }
}

/// The longer side of a padded residual for a picture of `width` by `height`.
pub fn long_side<T: Sample>(width: usize, height: usize) -> (long: usize)
    requires
        total::<T>(),
    ensures
        long_side_is::<T>(width, height, long),
{
    if width > height {
        stretched::<T>(width, height)
    } else {
        stretched::<T>(height, width)
    }
}

/// A residual can be padded to `long`: it fits, and the elements can be counted.
pub open spec fn paddable(long: usize) -> bool {
    SIDE <= long && CHANNELS * SIDE * long <= isize::MAX
}

/// Applies the mean padding boundary artifact mitigation.
///
/// Center cropped images have a vertical line problem along the boundary of the residual. This
/// transformation makes this boundary less visible. One dimension of the output is 256, and its
/// aspect ratio matches that of the input image, which has width `size.0` and height `size.1`;
/// `means` are the means of the three channels of the residual.
///
/// The longer side of the output comes from dividing samples. Where it is shorter than 256, as
/// for an image without pixels, or too long to be addressed, there is no output.
pub fn remove_boundary_artifact<T: Sample>(
    residual: &Tensor<T>,
    size: (usize, usize),
    _variant: Variant,
    means: &Vec<T>,
) -> (r: Option<Tensor<T>>)
    requires
        total::<T>(),
        residual.wf(),
        residual.is_picture(SIDE as int, SIDE as int),
        means@.len() == CHANNELS,
    ensures
        exists|long: usize|
            {
                &&& #[trigger] long_side_is::<T>(size.0, size.1, long)
                &&& match r {
                    Some(t) => paddable(long) && padded(
                        residual.data@,
                        means@,
                        size.0 > size.1,
                        long as int,
                        t,
                    ),
                    None => !paddable(long),
                }
            },
{
    let (width, height) = size;
    let long: usize = long_side::<T>(width, height);
    if SIDE <= long && long <= isize::MAX as usize / (CHANNELS * SIDE) {
        Some(pad_residual(residual, means, width > height, long))
    } else {
        None
    }
}

/// The padded residual is 256 in one direction and at least 256 in the other, and the margins on
/// both sides of the residual differ by at most one.
pub proof fn padding_is_centered<T>(
    residual: Seq<T>,
    means: Seq<T>,
    wide: bool,
    long: usize,
    t: Tensor<T>,
)
    requires
        paddable(long),
        padded(residual, means, wide, long as int, t),
    ensures
        t.shape@[if wide {
            2
        } else {
            3
        }] == SIDE,
        t.shape@[if wide {
            3
        } else {
            2
        }] == long,
        ({
            let margin = (long - SIDE) / 2;
            let after = long - SIDE - margin;
            0 <= margin <= after <= margin + 1
        }),
{
}

/// Inside the frame the residual is kept, value for value; everywhere else the output is the mean
/// of the channel.
pub proof fn padding_keeps_the_interior<T>(
    residual: Seq<T>,
    means: Seq<T>,
    wide: bool,
    long: int,
    c: int,
    y: int,
    x: int,
)
    requires
        SIDE <= long,
        0 <= c < CHANNELS,
        0 <= y < padded_rows(wide, long),
        0 <= x < padded_columns(wide, long),
    ensures
        ({
            let margin = (long - SIDE) / 2;
            let ry = if wide {
                y
            } else {
                y - margin
            };
            let rx = if wide {
                x - margin
            } else {
                x
            };
            padded_at(residual, means, wide, long, c, y, x) == if BORDER <= ry < SIDE - BORDER
                && BORDER <= rx < SIDE - BORDER {
                residual[(c * SIDE + ry) * SIDE + rx]
            } else {
                means[c]
            }
        }),
{
}

/// The element of a tensor of one picture at channel `c`, row `y` and column `x`.
pub open spec fn element<T>(t: Tensor<T>, c: int, y: int, x: int) -> T {
    t.data@[(c * t.shape@[2] + y) * t.shape@[3] + x]
}

/// The padded residual, element by element.
pub proof fn padded_elements<T>(
    residual: Seq<T>,
    means: Seq<T>,
    wide: bool,
    long: int,
    t: Tensor<T>,
    c: int,
    y: int,
    x: int,
)
    requires
        padded(residual, means, wide, long, t),
        0 <= c < CHANNELS,
        0 <= y < padded_rows(wide, long),
        0 <= x < padded_columns(wide, long),
    ensures
        element(t, c, y, x) == padded_at(residual, means, wide, long, c, y, x),
{
    let rows = padded_rows(wide, long);
    let columns = padded_columns(wide, long);
    let plane = rows * columns;
    let r = y * columns + x;
    let i = c * plane + r;
    picture_volume(t.shape@);
    assert(0 <= r < plane) by (nonlinear_arith)
        requires
            r == y * columns + x,
            plane == rows * columns,
            0 <= y < rows,
            0 <= x < columns,
    ;
    assert(0 <= i < 3 * plane) by (nonlinear_arith)
        requires
            i == c * plane + r,
            0 <= c <= 2,
            0 <= r < plane,
    ;
    assert((c * rows + y) * columns + x == i) by (nonlinear_arith)
        requires
            i == c * (rows * columns) + (y * columns + x),
    ;
    lemma_fundamental_div_mod_converse(i, plane, c, r);
    lemma_fundamental_div_mod_converse(r, columns, y, x);
}

/// Two residuals have the same channel `c`.
pub open spec fn agree_on_channel<T>(a: Seq<T>, b: Seq<T>, c: int) -> bool {
    forall|i: int, j: int|
        0 <= i < SIDE && 0 <= j < SIDE ==> #[trigger] a[(c * SIDE + i) * SIDE + j] == b[(c * SIDE
            + i) * SIDE + j]
}

/// Channel `c` of a residual is the transposed one of another.
pub open spec fn transposes_channel<T>(a: Seq<T>, b: Seq<T>, c: int) -> bool {
    forall|i: int, j: int|
        0 <= i < SIDE && 0 <= j < SIDE ==> #[trigger] b[(c * SIDE + i) * SIDE + j] == a[(c * SIDE
            + j) * SIDE + i]
}

/// No channel of a padded residual depends on another: where two residuals agree on a channel and
/// so do its means, they are padded to the same length with the same elements in that channel.
pub proof fn padding_keeps_channels_apart<T>(
    residual: Seq<T>,
    means: Seq<T>,
    other: Seq<T>,
    other_means: Seq<T>,
    wide: bool,
    long: int,
    c: int,
    t: Tensor<T>,
    u: Tensor<T>,
)
    requires
        0 <= c < CHANNELS,
        means[c] == other_means[c],
        agree_on_channel(residual, other, c),
        padded(residual, means, wide, long, t),
        padded(other, other_means, wide, long, u),
    ensures
        forall|y: int, x: int|
            0 <= y < t.shape@[2] && 0 <= x < t.shape@[3] ==> #[trigger] element(t, c, y, x)
                == element(u, c, y, x),
{
    assert forall|y: int, x: int| 0 <= y < t.shape@[2] && 0 <= x < t.shape@[3] implies #[trigger]
        element(t, c, y, x) == element(u, c, y, x) by {
        padded_elements(residual, means, wide, long, t, c, y, x);
        padded_elements(other, other_means, wide, long, u, c, y, x);
        let margin = (long - SIDE) / 2;
        let ry = if wide {
            y
        } else {
            y - margin
        };
        let rx = if wide {
            x - margin
        } else {
            x
        };
        if 0 <= ry < SIDE && 0 <= rx < SIDE {
            assert(residual[(c * SIDE + ry) * SIDE + rx] == other[(c * SIDE + ry) * SIDE + rx]);
        }
    }
}

/// Padding treats both directions alike: the padding of a transposed residual for a transposed
/// picture is the transposed padding. Of a picture with equal sides the long side is 256.
pub proof fn padding_commutes_with_transposition<T>(
    residual: Seq<T>,
    transposed: Seq<T>,
    means: Seq<T>,
    width: usize,
    height: usize,
    long: int,
    c: int,
    y: int,
    x: int,
)
    requires
        SIDE <= long,
        width == height ==> long == SIDE,
        0 <= c < CHANNELS,
        0 <= y < padded_rows(width > height, long),
        0 <= x < padded_columns(width > height, long),
        transposes_channel(residual, transposed, c),
    ensures
        padded_rows(height > width, long) == padded_columns(width > height, long),
        padded_columns(height > width, long) == padded_rows(width > height, long),
        padded_at(transposed, means, height > width, long, c, x, y) == padded_at(
            residual,
            means,
            width > height,
            long,
            c,
            y,
            x,
        ),
{
    let margin = (long - SIDE) / 2;
    let ry = if width > height {
        y
    } else {
        y - margin
    };
    let rx = if width > height {
        x - margin
    } else {
        x
    };
    if 0 <= ry < SIDE && 0 <= rx < SIDE {
        assert(transposed[(c * SIDE + rx) * SIDE + ry] == residual[(c * SIDE + ry) * SIDE + rx]);
    }
}

/// The long side is that of the transposed picture.
pub proof fn long_side_ignores_transposition<T: Sample>(width: usize, height: usize, long: usize)
    requires
        long_side_is::<T>(width, height, long),
    ensures
        long_side_is::<T>(height, width, long),
{
}

/// `q` is `longer / shorter`, as samples.
pub open spec fn sides_quotient_is<T: Sample>(longer: usize, shorter: usize, q: T) -> bool {
    exists|a: T, b: T|
        {
            &&& #[trigger] integer_is(longer as nat, a)
            &&& #[trigger] integer_is(shorter as nat, b)
            &&& quotient_is(a, b, q)
        }
}

/// `q` is the quotient of the longer by the shorter side of a picture.
pub open spec fn aspect_is<T: Sample>(width: usize, height: usize, q: T) -> bool {
    if width > height {
        sides_quotient_is(width, height, q)
    } else {
        sides_quotient_is(height, width, q)
    }
}

/// A padded residual has 256 rows and `long` columns, or `long` rows and 256 columns. All but the
/// two outermost rows and columns of the residual stand in its middle, the odd margin to the right
/// or at the bottom, and everything else is the mean of the channel.
pub proof fn padding_surrounds_the_middle<T: Copy>(
    residual: Tensor<T>,
    means: Vec<T>,
    wide: bool,
    long: usize,
    t: Tensor<T>,
    c: int,
    y: int,
    x: int,
)
    requires
        call_ensures(pad_residual::<T>, (&residual, &means, wide, long), t),
        256 <= long,
    ensures
        t.shape@ == (if wide {
            seq![1usize, 3usize, 256usize, long]
        } else {
            seq![1usize, 3usize, long, 256usize]
        }),
        t.data@.len() == 3 * (256 * long),
        ({
            let margin = (long - 256) / 2;
            let (ry, rx) = if wide {
                (y, x - margin)
            } else {
                (y - margin, x)
            };
            let (rows, columns) = if wide {
                (256int, long as int)
            } else {
                (long as int, 256int)
            };
            0 <= c < 3 && 0 <= y < rows && 0 <= x < columns ==> t.data@[(c * rows + y) * columns
                + x] == if 2 <= ry < 254 && 2 <= rx < 254 {
                residual.data@[(c * 256 + ry) * 256 + rx]
            } else {
                means@[c]
            }
        }),
{
    lemma_padding_is_written_out(residual.data@, means@, wide, long, t, c, y, x);
}

proof fn lemma_padding_is_written_out<T>(
    residual: Seq<T>,
    means: Seq<T>,
    wide: bool,
    long: usize,
    t: Tensor<T>,
    c: int,
    y: int,
    x: int,
)
    requires
        padded(residual, means, wide, long as int, t),
        256 <= long,
    ensures
        t.shape@ == (if wide {
            seq![1usize, 3usize, 256usize, long]
        } else {
            seq![1usize, 3usize, long, 256usize]
        }),
        t.data@.len() == 3 * (256 * long),
        ({
            let margin = (long - 256) / 2;
            let (ry, rx) = if wide {
                (y, x - margin)
            } else {
                (y - margin, x)
            };
            let (rows, columns) = if wide {
                (256int, long as int)
            } else {
                (long as int, 256int)
            };
            0 <= c < 3 && 0 <= y < rows && 0 <= x < columns ==> t.data@[(c * rows + y) * columns
                + x] == if 2 <= ry < 254 && 2 <= rx < 254 {
                residual[(c * 256 + ry) * 256 + rx]
            } else {
                means[c]
            }
        }),
{
    picture_volume(t.shape@);
    assert(t.shape@ =~= (if wide {
        seq![1usize, 3usize, 256usize, long]
    } else {
        seq![1usize, 3usize, long, 256usize]
    }));
    let rows = padded_rows(wide, long as int);
    let columns = padded_columns(wide, long as int);
    if 0 <= c < 3 && 0 <= y < rows && 0 <= x < columns {
        padded_elements(residual, means, wide, long as int, t, c, y, x);
        padding_keeps_the_interior(residual, means, wide, long as int, c, y, x);
    }
}

/// Removing the boundary artifact gives a residual with one side of 256 for every long side that is
/// at least that and can be addressed, however long the picture is, and none else. It is the width
/// that is long for a picture wider than high, and else the height.
pub proof fn removal_answers_for_every_long_side<T: Sample>(
    residual: Tensor<T>,
    size: (usize, usize),
    variant: Variant,
    means: Vec<T>,
    r: Option<Tensor<T>>,
    c: int,
    y: int,
    x: int,
)
    requires
        call_ensures(remove_boundary_artifact::<T>, (&residual, size, variant, &means), r),
    ensures
        exists|long: usize|
            {
                &&& #[trigger] long_side_is::<T>(size.0, size.1, long)
                &&& r is Some <==> 256 <= long && 768 * long <= isize::MAX
                &&& r matches Some(t) ==> {
                    let wide = size.0 > size.1;
                    &&& t.shape@ == (if wide {
                        seq![1usize, 3usize, 256usize, long]
                    } else {
                        seq![1usize, 3usize, long, 256usize]
                    })
                    &&& t.data@.len() == 3 * (256 * long)
                    &&& ({
            let margin = (long - 256) / 2;
            let (ry, rx) = if wide {
                (y, x - margin)
            } else {
                (y - margin, x)
            };
            let (rows, columns) = if wide {
                (256int, long as int)
            } else {
                (long as int, 256int)
            };
            0 <= c < 3 && 0 <= y < rows && 0 <= x < columns ==> t.data@[(c * rows + y) * columns
                + x] == if 2 <= ry < 254 && 2 <= rx < 254 {
                residual.data@[(c * 256 + ry) * 256 + rx]
            } else {
                means@[c]
            }
                    })
                }
            },
{
    let long = choose|long: usize|
        {
            &&& #[trigger] long_side_is::<T>(size.0, size.1, long)
            &&& match r {
                Some(t) => paddable(long) && padded(
                    residual.data@,
                    means@,
                    size.0 > size.1,
                    long as int,
                    t,
                ),
                None => !paddable(long),
            }
        };
    assert(long_side_is::<T>(size.0, size.1, long));
    if let Some(t) = r {
        lemma_padding_is_written_out(residual.data@, means@, size.0 > size.1, long, t, c, y, x);
    }
}

/// A residual can be padded to any length from 256 up that can be addressed.
pub proof fn any_addressable_length_can_be_padded_to<T: Copy>(
    residual: Tensor<T>,
    means: Vec<T>,
    wide: bool,
    long: usize,
)
    requires
        residual.shape@ == seq![1usize, 3usize, 256usize, 256usize],
        residual.data@.len() == 3 * 256 * 256,
        means@.len() == 3,
        256 <= long,
        768 * long <= isize::MAX,
    ensures
        paddable(long),
        call_requires(pad_residual::<T>, (&residual, &means, wide, long)),
{
    picture_volume(residual.shape@);
}

} // verus!
