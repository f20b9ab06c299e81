//! What comes out of the computations: where each sample of a picture, a residual or a tensor goes,
//! and what becomes of it.
//!
//! The laws speak of the functions themselves, of the samples that go in and of those that come
//! out, and of real numbers: they hold for any type of samples whose operators are exact.
use crate::exact::{
    exact, lemma_integer_value, lemma_saturated_byte_value, lemma_saturated_word_value,
    lemma_signed_value, lemma_truncated_value, lemma_unsigned_value,
};
use crate::residual::{
    advances, apply_residual_in_place, axis_is, blend_byte, blend_real, blend_word, byte_blend_is,
    for_each_interpolated_residual, half_is, interpolated_is, mixed_is, only_colors_change,
    ratio_is, real_blend_is, sample_changes, samples_have_one_place, shifted_is, spread, start_is,
    tap_is, walk_is, word_blend_is, FloatImage, Grid, Layout, Picture, Samples, Tap,
};
use crate::sample::{
    byte_is, capped_is, clamped_is, difference_is, integer_is, power, product_is, quotient_is,
    saturated_byte_is, saturated_word_is, signed_is, sum_is, truncated_is, unsigned_is, word_is,
    Sample,
};
use crate::boundary::{
    long_side, long_side_is, removal_answers_for_every_long_side, remove_boundary_artifact,
};
use crate::error::Error;
use crate::tensor::{
    model_input, model_output, picture_volume, planar_index, planar_order_round_trips,
    tensor_order_is_row_major, Tensor,
};
use crate::variant::Variant;
use vstd::arithmetic::div_mod::{lemma_fundamental_div_mod, lemma_fundamental_div_mod_converse};
use vstd::prelude::*;

verus! {

proof fn lemma_shifted_value<T: Sample>(value: spec_fn(T) -> real, base: T, v: T, r: T)
    requires
        exact(value),
        shifted_is(base, v, r),
    ensures
        value(base) + value(v) <= 1 as real ==> 2 as real * value(r) == value(base) + value(v)
            + 1 as real,
        value(base) + value(v) > 1 as real ==> value(r) == 1 as real,
{
    let (sum, one, top) = choose|sum: T, one: T, top: T|
        {
            &&& #[trigger] sum_is(base, v, sum)
            &&& #[trigger] byte_is(1, one)
            &&& #[trigger] capped_is(sum, one, top)
            &&& unsigned_is(top, r)
        };
    lemma_unsigned_value(value, top, r);
}

proof fn lemma_real_value<T: Sample>(value: spec_fn(T) -> real, s: T, v: T, r: T)
    requires
        exact(value),
        real_blend_is(s, v, r),
    ensures
        2 as real * value(s) + value(v) <= 2 as real ==> 2 as real * value(r) == 2 as real * value(
            s,
        ) + value(v),
        2 as real * value(s) + value(v) > 2 as real ==> 2 as real * value(r) == 2 as real,
{
    let base = choose|base: T| #[trigger] signed_is(s, base) && shifted_is(base, v, r);
    lemma_signed_value(value, s, base);
    lemma_shifted_value(value, base, v, r);
}

proof fn lemma_byte_value<T: Sample>(value: spec_fn(T) -> real, s: u8, v: T, r: u8)
    requires
        exact(value),
        byte_blend_is(s, v, r),
    ensures
        ({
            let moved = 2 as real * s as real + 255 as real * value(v);
            &&& moved < 0 as real ==> r == 0
            &&& 0 as real <= moved <= 510 as real ==> 2 as real * r as real <= moved < 2 as real * (
            r + 1) as real
            &&& moved > 510 as real ==> r == 255
        }),
{
    let (x, full, unit, base, o, scaled) = choose|x: T, full: T, unit: T, base: T, o: T, scaled: T|
        {
            &&& #[trigger] byte_is(s, x)
            &&& #[trigger] byte_is(u8::MAX, full)
            &&& #[trigger] quotient_is(x, full, unit)
            &&& #[trigger] signed_is(unit, base)
            &&& #[trigger] shifted_is(base, v, o)
            &&& #[trigger] product_is(o, full, scaled)
            &&& saturated_byte_is(scaled, r)
        };
    lemma_signed_value(value, unit, base);
    lemma_shifted_value(value, base, v, o);
    let (u, f, p) = (value(unit), value(full), value(o));
    assert(u * f == 255 as real * u) by (nonlinear_arith)
        requires
            f == 255 as real,
    ;
    assert(p * f == 255 as real * p) by (nonlinear_arith)
        requires
            f == 255 as real,
    ;
    lemma_saturated_byte_value(value, scaled, r);
}

proof fn lemma_word_value<T: Sample>(value: spec_fn(T) -> real, s: u16, v: T, r: u16)
    requires
        exact(value),
        word_blend_is(s, v, r),
    ensures
        ({
            let moved = 2 as real * s as real + 65535 as real * value(v);
            &&& moved < 0 as real ==> r == 0
            &&& 0 as real <= moved <= 131070 as real ==> 2 as real * r as real <= moved < 2 as real
                * (r + 1) as real
            &&& moved > 131070 as real ==> r == 65535
        }),
{
    let (x, full, unit, base, o, scaled) = choose|x: T, full: T, unit: T, base: T, o: T, scaled: T|
        {
            &&& #[trigger] word_is(s, x)
            &&& #[trigger] word_is(u16::MAX, full)
            &&& #[trigger] quotient_is(x, full, unit)
            &&& #[trigger] signed_is(unit, base)
            &&& #[trigger] shifted_is(base, v, o)
            &&& #[trigger] product_is(o, full, scaled)
            &&& saturated_word_is(scaled, r)
        };
    lemma_signed_value(value, unit, base);
    lemma_shifted_value(value, base, v, o);
    let (u, f, p) = (value(unit), value(full), value(o));
    assert(u * f == 65535 as real * u) by (nonlinear_arith)
        requires
            f == 65535 as real,
    ;
    assert(p * f == 65535 as real * p) by (nonlinear_arith)
        requires
            f == 65535 as real,
    ;
    lemma_saturated_word_value(value, scaled, r);
}

/// A real sample moves by half the residual, and not beyond 1.
pub proof fn real_samples_move_by_half_the_residual<T: Sample>(
    value: spec_fn(T) -> real,
    s: T,
    v: T,
    r: T,
)
    requires
        exact(value),
        call_ensures(blend_real::<T>, (s, v), r),
    ensures
        ({
            let moved = 2 as real * value(s) + value(v);
            2 as real * value(r) == if moved <= 2 as real {
                moved
            } else {
                2 as real
            }
        }),
{
    lemma_real_value(value, s, v, r);
}

/// An 8-bit sample moves by the residual times half its range of 255, the fraction cut off, and
/// stays between 0 and 255.
pub proof fn bytes_move_by_half_the_residual<T: Sample>(
    value: spec_fn(T) -> real,
    s: u8,
    v: T,
    r: u8,
)
    requires
        exact(value),
        call_ensures(blend_byte::<T>, (s, v), r),
    ensures
        ({
            let moved = 2 as real * s as real + 255 as real * value(v);
            &&& moved < 0 as real ==> r == 0
            &&& 0 as real <= moved <= 510 as real ==> 2 as real * r as real <= moved < 2 as real * (
            r + 1) as real
            &&& moved > 510 as real ==> r == 255
        }),
{
    lemma_byte_value(value, s, v, r);
}

/// A 16-bit sample moves by the residual times half its range of 65535, the fraction cut off, and
/// stays between 0 and 65535.
pub proof fn words_move_by_half_the_residual<T: Sample>(
    value: spec_fn(T) -> real,
    s: u16,
    v: T,
    r: u16,
)
    requires
        exact(value),
        call_ensures(blend_word::<T>, (s, v), r),
    ensures
        ({
            let moved = 2 as real * s as real + 65535 as real * value(v);
            &&& moved < 0 as real ==> r == 0
            &&& 0 as real <= moved <= 131070 as real ==> 2 as real * r as real <= moved < 2 as real
                * (r + 1) as real
            &&& moved > 131070 as real ==> r == 65535
        }),
{
    lemma_word_value(value, s, v, r);
}

/// Position `i` of a walk is `i` steps from its start.
proof fn lemma_walk_value<T: Sample>(
    value: spec_fn(T) -> real,
    start: T,
    step: T,
    positions: Seq<T>,
    i: int,
)
    requires
        exact(value),
        walk_is(start, step, positions),
        0 <= i < positions.len(),
    ensures
        value(positions[i]) == value(start) + i as real * value(step),
    decreases i,
{
    let s = value(step);
    if i > 0 {
        lemma_walk_value(value, start, step, positions, i - 1);
        assert(advances(positions, step, i));
        assert((i - 1) as real * s + s == i as real * s) by (nonlinear_arith);
    } else {
        assert(0 as real * s == 0 as real) by (nonlinear_arith);
    }
}

/// Where a position falls: it is held between the first and the last pixel, and lies `q - low`
/// beyond pixel `low`.
proof fn lemma_tap_value<T: Sample>(
    value: spec_fn(T) -> real,
    n: u32,
    position: T,
    tap: Tap<T>,
    q: real,
    low: int,
)
    requires
        exact(value),
        tap_is(n, position, tap),
        n > 0,
        value(position) <= 0 as real ==> q == 0 as real,
        value(position) >= (n - 1) as real ==> q == (n - 1) as real,
        (0 as real) < value(position) < (n - 1) as real ==> q == value(position),
        low as real <= q < (low + 1) as real,
    ensures
        tap.low == low,
        tap.high == if low + 1 < n {
            low + 1
        } else {
            n - 1
        },
        value(tap.weight) == q - low as real,
{
    let (zero, last, held, whole, floor) = choose|zero: T, last: T, held: T, whole: nat, floor: T|
        {
            &&& #[trigger] byte_is(0, zero)
            &&& #[trigger] integer_is((n - 1) as nat, last)
            &&& #[trigger] clamped_is(position, zero, last, held)
            &&& #[trigger] truncated_is(held, 1, whole)
            &&& tap.low == (if whole < n {
                whole as int
            } else {
                n - 1
            })
            &&& #[trigger] integer_is(tap.low as nat, floor)
            &&& difference_is(held, floor, tap.weight)
        };
    reveal_with_fuel(power, 2);
    lemma_integer_value(value, (n - 1) as nat, last);
    assert(value(held) == q);
    lemma_truncated_value(value, held, 1, whole);
    assert(whole == low);
    lemma_integer_value(value, tap.low as nat, floor);
}

/// Where pixel `i` of `len` along an axis falls among the `n` pixels of the residual, each of which
/// spans `1 / step` of them.
proof fn lemma_axis_value<T: Sample>(
    value: spec_fn(T) -> real,
    n: u32,
    len: u32,
    taps: Seq<Tap<T>>,
    i: int,
    step: real,
    q: real,
    low: int,
)
    requires
        exact(value),
        axis_is(n, len, taps),
        n > 0,
        0 <= i < len,
        step * len as real == n as real,
        ({
            let twice = (2 * i + 1) as real * step - 1 as real;
            &&& twice <= 0 as real ==> q == 0 as real
            &&& twice >= 2 as real * (n - 1) as real ==> q == (n - 1) as real
            &&& (0 as real) < twice < 2 as real * (n - 1) as real ==> 2 as real * q == twice
        }),
        low as real <= q < (low + 1) as real,
    ensures
        taps[i].low == low,
        taps[i].high == if low + 1 < n {
            low + 1
        } else {
            n - 1
        },
        value(taps[i].weight) == q - low as real,
{
    let (scale, start, positions) = choose|scale: T, start: T, positions: Seq<T>|
        {
            &&& #[trigger] ratio_is(n, len, scale)
            &&& #[trigger] start_is(scale, start)
            &&& positions.len() == len
            &&& #[trigger] walk_is(start, scale, positions)
            &&& forall|i: int| 0 <= i < len ==> #[trigger] tap_is(n, positions[i], taps[i])
        };
    let (a, b) = choose|a: T, b: T|
        {
            &&& #[trigger] integer_is(n as nat, a)
            &&& #[trigger] integer_is(len as nat, b)
            &&& quotient_is(a, b, scale)
        };
    lemma_integer_value(value, n as nat, a);
    lemma_integer_value(value, len as nat, b);
    let s = value(scale);
    let l = len as real;
    assert(s * l == n as real);
    assert(s == step) by (nonlinear_arith)
        requires
            s * l == n as real,
            step * l == n as real,
            l > 0 as real,
    ;
    let (half, p) = choose|half: T, p: T|
        {
            &&& #[trigger] half_is(half)
            &&& #[trigger] product_is(half, scale, p)
            &&& difference_is(p, half, start)
        };
    let (one, two) = choose|one: T, two: T|
        {
            &&& #[trigger] byte_is(1, one)
            &&& #[trigger] byte_is(2, two)
            &&& quotient_is(one, two, half)
        };
    let h = value(half);
    let t = value(two);
    assert(h * t == 2 as real * h) by (nonlinear_arith)
        requires
            t == 2 as real,
    ;
    assert(2 as real * (h * s) == s) by (nonlinear_arith)
        requires
            2 as real * h == 1 as real,
    ;
    lemma_walk_value(value, start, scale, positions, i);
    let position = value(positions[i]);
    assert((2 * i + 1) as real * s == 2 as real * (i as real * s) + s) by (nonlinear_arith);
    assert(2 as real * position == (2 * i + 1) as real * step - 1 as real);
    assert(tap_is(n, positions[i], taps[i]));
    lemma_tap_value(value, n, positions[i], taps[i], q, low);
}

proof fn lemma_mixed_value<T: Sample>(value: spec_fn(T) -> real, a: T, b: T, w: T, r: T)
    requires
        exact(value),
        mixed_is(a, b, w, r),
    ensures
        value(r) == value(a) * (1 as real - value(w)) + value(b) * value(w),
{
}

/// The residual at a picture pixel that lies `wx` beyond column `x0` and `wy` beyond row `y0` of
/// the residual.
proof fn lemma_interpolated_value<T: Sample>(
    value: spec_fn(T) -> real,
    residual: FloatImage<T>,
    col: Tap<T>,
    row: Tap<T>,
    c: int,
    v: T,
)
    requires
        exact(value),
        interpolated_is(residual, col, row, c, v),
    ensures
        ({
            let s = |x: int, y: int|
                value(residual.samples@[(y * residual.width + x) * residual.channels + c]);
            let (x0, x1, wx) = (col.low as int, col.high as int, value(col.weight));
            let (y0, y1, wy) = (row.low as int, row.high as int, value(row.weight));
            let top = s(x0, y0) * (1 as real - wx) + s(x1, y0) * wx;
            let bottom = s(x0, y1) * (1 as real - wx) + s(x1, y1) * wx;
            value(v) == 2 as real * (top * (1 as real - wy) + bottom * wy) - 1 as real
        }),
{
    let (top, bottom, mid) = choose|top: T, bottom: T, mid: T|
        {
            &&& #[trigger] mixed_is(
                residual.at(col.low as int, row.low as int, c),
                residual.at(col.high as int, row.low as int, c),
                col.weight,
                top,
            )
            &&& #[trigger] mixed_is(
                residual.at(col.low as int, row.high as int, c),
                residual.at(col.high as int, row.high as int, c),
                col.weight,
                bottom,
            )
            &&& #[trigger] mixed_is(top, bottom, row.weight, mid)
            &&& signed_is(mid, v)
        };
    lemma_mixed_value(
        value,
        residual.at(col.low as int, row.low as int, c),
        residual.at(col.high as int, row.low as int, c),
        col.weight,
        top,
    );
    lemma_mixed_value(
        value,
        residual.at(col.low as int, row.high as int, c),
        residual.at(col.high as int, row.high as int, c),
        col.weight,
        bottom,
    );
    lemma_mixed_value(value, top, bottom, row.weight, mid);
    lemma_signed_value(value, mid, v);
}

proof fn lemma_spread_value<S, T: Sample>(
    value: spec_fn(T) -> real,
    grid: Grid,
    residual: FloatImage<T>,
    blend: spec_fn(S, T, S) -> bool,
    before: Seq<S>,
    after: Seq<S>,
    x: int,
    y: int,
    c: int,
    step_x: real,
    step_y: real,
    qx: real,
    qy: real,
    x0: int,
    y0: int,
) -> (v: T)
    requires
        exact(value),
        spread(grid, residual, blend, before, after),
        grid.len() <= before.len(),
        0 <= x < grid.width,
        0 <= y < grid.height,
        0 <= c < match grid.layout {
            Layout::Luma => 1int,
            Layout::LumaAlpha => 1int,
            Layout::Rgb => 3int,
            Layout::Rgba => 3int,
        },
        residual.width > 0,
        residual.height > 0,
        step_x * grid.width as real == residual.width as real,
        step_y * grid.height as real == residual.height as real,
        ({
            let twice = (2 * x + 1) as real * step_x - 1 as real;
            let last = (residual.width - 1) as real;
            &&& twice <= 0 as real ==> qx == 0 as real
            &&& twice >= 2 as real * last ==> qx == last
            &&& (0 as real) < twice < 2 as real * last ==> 2 as real * qx == twice
        }),
        ({
            let twice = (2 * y + 1) as real * step_y - 1 as real;
            let last = (residual.height - 1) as real;
            &&& twice <= 0 as real ==> qy == 0 as real
            &&& twice >= 2 as real * last ==> qy == last
            &&& (0 as real) < twice < 2 as real * last ==> 2 as real * qy == twice
        }),
        x0 as real <= qx < (x0 + 1) as real,
        y0 as real <= qy < (y0 + 1) as real,
    ensures
        ({
            let channels = match grid.layout {
                Layout::Luma => 1int,
                Layout::LumaAlpha => 2int,
                Layout::Rgb => 3int,
                Layout::Rgba => 4int,
            };
            let j = (y * grid.width + x) * channels + c;
            let s = |px: int, py: int|
                value(residual.samples@[(py * residual.width + px) * residual.channels + c]);
            let x1 = if x0 + 1 < residual.width {
                x0 + 1
            } else {
                residual.width - 1
            };
            let y1 = if y0 + 1 < residual.height {
                y0 + 1
            } else {
                residual.height - 1
            };
            let (wx, wy) = (qx - x0 as real, qy - y0 as real);
            let top = s(x0, y0) * (1 as real - wx) + s(x1, y0) * wx;
            let bottom = s(x0, y1) * (1 as real - wx) + s(x1, y1) * wx;
            let mixed = top * (1 as real - wy) + bottom * wy;
            &&& 0 <= j < before.len() == after.len()
            &&& value(v) == 2 as real * mixed - 1 as real
            &&& blend(before[j], v, after[j])
        }),
{
    let j = (y * grid.width + x) * grid.layout.channels_spec() + c;
    samples_have_one_place(grid, x, y, c);
    let (cols, rows) = choose|cols: Seq<Tap<T>>, rows: Seq<Tap<T>>|
        {
            &&& #[trigger] axis_is(residual.width, grid.width, cols)
            &&& #[trigger] axis_is(residual.height, grid.height, rows)
            &&& forall|j: int|
                0 <= j < before.len() ==> sample_changes(
                    grid,
                    residual,
                    cols,
                    rows,
                    blend,
                    j,
                    before[j],
                    #[trigger] after[j],
                )
        };
    assert(sample_changes(grid, residual, cols, rows, blend, j, before[j], after[j]));
    let v = choose|v: T|
        {
            &&& #[trigger] interpolated_is(
                residual,
                cols[grid.column(j)],
                rows[grid.row(j)],
                grid.channel(j),
                v,
            )
            &&& blend(before[j], v, after[j])
        };
    lemma_axis_value(value, residual.width, grid.width, cols, x, step_x, qx, x0);
    lemma_axis_value(value, residual.height, grid.height, rows, y, step_y, qy, y0);
    lemma_interpolated_value(value, residual, cols[x], rows[y], c, v);
    v
}

/// Every colour sample of every pixel, whatever the proportions of the picture, becomes what
/// `apply` makes of it and the residual `v` there. Pixel `x`, `y` of the picture lies at `qx`, `qy` in
/// the residual: its centre at the same fraction of either side, held between the first and the
/// last pixel. The residual there is mixed from the four pixels around, by their distances, and
/// taken to [-1, 1].
pub proof fn every_color_gets_the_residual_there<S: Copy, T: Sample, F: Fn(S, T) -> S>(
    value: spec_fn(T) -> real,
    samples: &mut Vec<S>,
    grid: Grid,
    residual: FloatImage<T>,
    apply: F,
    x: int,
    y: int,
    c: int,
    step_x: real,
    step_y: real,
    qx: real,
    qy: real,
    x0: int,
    y0: int,
    j: int,
)
    requires
        exact(value),
        call_ensures(
            for_each_interpolated_residual::<S, T, F>,
            (samples, grid, &residual, apply),
            (),
        ),
        grid.width * grid.height * match grid.layout {
            Layout::Luma => 1int,
            Layout::LumaAlpha => 2int,
            Layout::Rgb => 3int,
            Layout::Rgba => 4int,
        } <= old(samples)@.len(),
        0 <= x < grid.width,
        0 <= y < grid.height,
        0 <= c < match grid.layout {
            Layout::Luma => 1int,
            Layout::LumaAlpha => 1int,
            Layout::Rgb => 3int,
            Layout::Rgba => 3int,
        },
        residual.width > 0,
        residual.height > 0,
        step_x * grid.width as real == residual.width as real,
        step_y * grid.height as real == residual.height as real,
        ({
            let twice = (2 * x + 1) as real * step_x - 1 as real;
            let last = (residual.width - 1) as real;
            &&& twice <= 0 as real ==> qx == 0 as real
            &&& twice >= 2 as real * last ==> qx == last
            &&& (0 as real) < twice < 2 as real * last ==> 2 as real * qx == twice
        }),
        ({
            let twice = (2 * y + 1) as real * step_y - 1 as real;
            let last = (residual.height - 1) as real;
            &&& twice <= 0 as real ==> qy == 0 as real
            &&& twice >= 2 as real * last ==> qy == last
            &&& (0 as real) < twice < 2 as real * last ==> 2 as real * qy == twice
        }),
        x0 as real <= qx < (x0 + 1) as real,
        y0 as real <= qy < (y0 + 1) as real,
        j == (y * grid.width + x) * (match grid.layout {
            Layout::Luma => 1int,
            Layout::LumaAlpha => 2int,
            Layout::Rgb => 3int,
            Layout::Rgba => 4int,
        }) + c,
    ensures
        ({
            let s = |px: int, py: int|
                value(residual.samples@[(py * residual.width + px) * residual.channels + c]);
            let x1 = if x0 + 1 < residual.width {
                x0 + 1
            } else {
                residual.width - 1
            };
            let y1 = if y0 + 1 < residual.height {
                y0 + 1
            } else {
                residual.height - 1
            };
            let (wx, wy) = (qx - x0 as real, qy - y0 as real);
            let top = s(x0, y0) * (1 as real - wx) + s(x1, y0) * wx;
            let bottom = s(x0, y1) * (1 as real - wx) + s(x1, y1) * wx;
            let mixed = top * (1 as real - wy) + bottom * wy;
            exists|v: T|
                {
                    &&& value(v) == 2 as real * mixed - 1 as real
                    &&& #[trigger] call_ensures(apply, (old(samples)@[j], v), final(samples)@[j])
                }
        }),
{
    let blend = |s: S, v: T, o: S| call_ensures(apply, (s, v), o);
    let v = lemma_spread_value(
        value,
        grid,
        residual,
        blend,
        old(samples)@,
        final(samples)@,
        x,
        y,
        c,
        step_x,
        step_y,
        qx,
        qy,
        x0,
        y0,
    );
    assert(blend(old(samples)@[j], v, final(samples)@[j]));
    assert(call_ensures(apply, (old(samples)@[j], v), final(samples)@[j]));
}

/// Adding a residual to a picture moves every colour sample of every pixel, whatever the
/// proportions of the picture, by the residual there times half the range of the samples: up to the
/// top of the range, and for 8 and 16 bits with the fraction cut off and not below 0. Pixel `x`, `y`
/// of the picture lies at `qx`, `qy` in the residual: its centre at the same fraction of either
/// side, held between the first and the last pixel. The residual there is mixed from the four
/// pixels around, by their distances, and taken to [-1, 1].
pub proof fn every_color_moves_by_the_residual_there<T: Sample>(
    value: spec_fn(T) -> real,
    input: &mut Picture<T>,
    residual: FloatImage<T>,
    x: int,
    y: int,
    c: int,
    step_x: real,
    step_y: real,
    qx: real,
    qy: real,
    x0: int,
    y0: int,
)
    requires
        exact(value),
        call_ensures(apply_residual_in_place::<T>, (input, &residual), ()),
        old(input).grid.width * old(input).grid.height * match old(input).grid.layout {
            Layout::Luma => 1int,
            Layout::LumaAlpha => 2int,
            Layout::Rgb => 3int,
            Layout::Rgba => 4int,
        } <= match old(input).samples {
            Samples::Byte(v) => v@.len(),
            Samples::Word(v) => v@.len(),
            Samples::Real(v) => v@.len(),
        },
        0 <= x < old(input).grid.width,
        0 <= y < old(input).grid.height,
        0 <= c < match old(input).grid.layout {
            Layout::Luma => 1int,
            Layout::LumaAlpha => 1int,
            Layout::Rgb => 3int,
            Layout::Rgba => 3int,
        },
        residual.width > 0,
        residual.height > 0,
        step_x * old(input).grid.width as real == residual.width as real,
        step_y * old(input).grid.height as real == residual.height as real,
        ({
            let twice = (2 * x + 1) as real * step_x - 1 as real;
            let last = (residual.width - 1) as real;
            &&& twice <= 0 as real ==> qx == 0 as real
            &&& twice >= 2 as real * last ==> qx == last
            &&& (0 as real) < twice < 2 as real * last ==> 2 as real * qx == twice
        }),
        ({
            let twice = (2 * y + 1) as real * step_y - 1 as real;
            let last = (residual.height - 1) as real;
            &&& twice <= 0 as real ==> qy == 0 as real
            &&& twice >= 2 as real * last ==> qy == last
            &&& (0 as real) < twice < 2 as real * last ==> 2 as real * qy == twice
        }),
        x0 as real <= qx < (x0 + 1) as real,
        y0 as real <= qy < (y0 + 1) as real,
    ensures
        ({
            let grid = old(input).grid;
            let channels = match grid.layout {
                Layout::Luma => 1int,
                Layout::LumaAlpha => 2int,
                Layout::Rgb => 3int,
                Layout::Rgba => 4int,
            };
            let j = (y * grid.width + x) * channels + c;
            let s = |px: int, py: int|
                value(residual.samples@[(py * residual.width + px) * residual.channels + c]);
            let x1 = if x0 + 1 < residual.width {
                x0 + 1
            } else {
                residual.width - 1
            };
            let y1 = if y0 + 1 < residual.height {
                y0 + 1
            } else {
                residual.height - 1
            };
            let (wx, wy) = (qx - x0 as real, qy - y0 as real);
            let top = s(x0, y0) * (1 as real - wx) + s(x1, y0) * wx;
            let bottom = s(x0, y1) * (1 as real - wx) + s(x1, y1) * wx;
            let mixed = top * (1 as real - wy) + bottom * wy;
            let residual_there = 2 as real * mixed - 1 as real;
            match (old(input).samples, final(input).samples) {
                (Samples::Byte(p), Samples::Byte(r)) => {
                    let moved = 2 as real * p@[j] as real + 255 as real * residual_there;
                    &&& moved < 0 as real ==> r@[j] == 0
                    &&& 0 as real <= moved <= 510 as real ==> 2 as real * r@[j] as real <= moved
                        < 2 as real * (r@[j] + 1) as real
                    &&& moved > 510 as real ==> r@[j] == 255
                },
                (Samples::Word(p), Samples::Word(r)) => {
                    let moved = 2 as real * p@[j] as real + 65535 as real * residual_there;
                    &&& moved < 0 as real ==> r@[j] == 0
                    &&& 0 as real <= moved <= 131070 as real ==> 2 as real * r@[j] as real <= moved
                        < 2 as real * (r@[j] + 1) as real
                    &&& moved > 131070 as real ==> r@[j] == 65535
                },
                (Samples::Real(p), Samples::Real(r)) => {
                    let moved = 2 as real * value(p@[j]) + residual_there;
                    2 as real * value(r@[j]) == if moved <= 2 as real {
                        moved
                    } else {
                        2 as real
                    }
                },
                _ => false,
            }
        }),
{
    let grid = old(input).grid;
    let j = (y * grid.width + x) * grid.layout.channels_spec() + c;
    match (old(input).samples, final(input).samples) {
        (Samples::Byte(p), Samples::Byte(r)) => {
            let blend = |s: u8, v: T, o: u8| byte_blend_is(s, v, o);
            let v = lemma_spread_value(
                value, grid, residual, blend, p@, r@, x, y, c, step_x, step_y, qx, qy, x0, y0,
            );
            lemma_byte_value(value, p@[j], v, r@[j]);
        },
        (Samples::Word(p), Samples::Word(r)) => {
            let blend = |s: u16, v: T, o: u16| word_blend_is(s, v, o);
            let v = lemma_spread_value(
                value, grid, residual, blend, p@, r@, x, y, c, step_x, step_y, qx, qy, x0, y0,
            );
            lemma_word_value(value, p@[j], v, r@[j]);
        },
        (Samples::Real(p), Samples::Real(r)) => {
            let blend = |s: T, v: T, o: T| real_blend_is(s, v, o);
            let v = lemma_spread_value(
                value, grid, residual, blend, p@, r@, x, y, c, step_x, step_y, qx, qy, x0, y0,
            );
            lemma_real_value(value, p@[j], v, r@[j]);
        },
        _ => {},
    }
}

/// Whatever the samples are, every colour sample of every pixel, whatever the proportions of the
/// picture, is blended with a residual that was interpolated at its column and its row.
pub proof fn every_color_is_blended<T: Sample>(
    input: &mut Picture<T>,
    residual: FloatImage<T>,
    x: int,
    y: int,
    c: int,
    j: int,
)
    requires
        call_ensures(apply_residual_in_place::<T>, (input, &residual), ()),
        0 <= x < old(input).grid.width,
        0 <= y < old(input).grid.height,
        match old(input).grid.layout {
            Layout::Luma => c == 0 && j == y * old(input).grid.width + x,
            Layout::LumaAlpha => c == 0 && j == (y * old(input).grid.width + x) * 2,
            Layout::Rgb => 0 <= c < 3 && j == (y * old(input).grid.width + x) * 3 + c,
            Layout::Rgba => 0 <= c < 3 && j == (y * old(input).grid.width + x) * 4 + c,
        },
        match old(input).samples {
            Samples::Byte(v) => j < v@.len(),
            Samples::Word(v) => j < v@.len(),
            Samples::Real(v) => j < v@.len(),
        },
    ensures
        exists|cols: Seq<Tap<T>>, rows: Seq<Tap<T>>, v: T|
            {
                &&& #[trigger] axis_is(residual.width, old(input).grid.width, cols)
                &&& #[trigger] axis_is(residual.height, old(input).grid.height, rows)
                &&& #[trigger] interpolated_is(residual, cols[x], rows[y], c, v)
                &&& match (old(input).samples, final(input).samples) {
                    (Samples::Byte(p), Samples::Byte(r)) => byte_blend_is(p@[j], v, r@[j]),
                    (Samples::Word(p), Samples::Word(r)) => word_blend_is(p@[j], v, r@[j]),
                    (Samples::Real(p), Samples::Real(r)) => real_blend_is(p@[j], v, r@[j]),
                    _ => false,
                }
            },
{
    let grid = old(input).grid;
    samples_have_one_place(grid, x, y, c);
    match (old(input).samples, final(input).samples) {
        (Samples::Byte(p), Samples::Byte(r)) => {
            lemma_spread_touches(
                grid,
                residual,
                |s: u8, v: T, o: u8| byte_blend_is(s, v, o),
                p@,
                r@,
                j,
            );
        },
        (Samples::Word(p), Samples::Word(r)) => {
            lemma_spread_touches(
                grid,
                residual,
                |s: u16, v: T, o: u16| word_blend_is(s, v, o),
                p@,
                r@,
                j,
            );
        },
        (Samples::Real(p), Samples::Real(r)) => {
            lemma_spread_touches(
                grid,
                residual,
                |s: T, v: T, o: T| real_blend_is(s, v, o),
                p@,
                r@,
                j,
            );
        },
        _ => {},
    }
}

proof fn lemma_spread_touches<S, T: Sample>(
    grid: Grid,
    residual: FloatImage<T>,
    blend: spec_fn(S, T, S) -> bool,
    before: Seq<S>,
    after: Seq<S>,
    j: int,
)
    requires
        spread(grid, residual, blend, before, after),
        grid.width > 0,
        grid.height > 0,
        grid.colored(j),
        0 <= j < before.len(),
    ensures
        exists|cols: Seq<Tap<T>>, rows: Seq<Tap<T>>, v: T|
            {
                &&& #[trigger] axis_is(residual.width, grid.width, cols)
                &&& #[trigger] axis_is(residual.height, grid.height, rows)
                &&& #[trigger] interpolated_is(
                    residual,
                    cols[grid.column(j)],
                    rows[grid.row(j)],
                    grid.channel(j),
                    v,
                )
                &&& blend(before[j], v, after[j])
            },
{
    let (cols, rows) = choose|cols: Seq<Tap<T>>, rows: Seq<Tap<T>>|
        {
            &&& #[trigger] axis_is(residual.width, grid.width, cols)
            &&& #[trigger] axis_is(residual.height, grid.height, rows)
            &&& forall|j: int|
                0 <= j < before.len() ==> sample_changes(
                    grid,
                    residual,
                    cols,
                    rows,
                    blend,
                    j,
                    before[j],
                    #[trigger] after[j],
                )
        };
    assert(sample_changes(grid, residual, cols, rows, blend, j, before[j], after[j]));
}

/// Nothing but colours is touched: opacity, what follows the last pixel, and every sample of a
/// picture without pixels stay as they were, and so do the format, the size and the number of
/// samples.
pub proof fn nothing_else_moves<T: Sample>(
    input: &mut Picture<T>,
    residual: FloatImage<T>,
    j: int,
)
    requires
        call_ensures(apply_residual_in_place::<T>, (input, &residual), ()),
        ({
            let grid = old(input).grid;
            ||| grid.width == 0
            ||| grid.height == 0
            ||| match grid.layout {
                Layout::Luma => j >= grid.width * grid.height,
                Layout::LumaAlpha => j >= grid.width * grid.height * 2 || j % 2 == 1,
                Layout::Rgb => j >= grid.width * grid.height * 3,
                Layout::Rgba => j >= grid.width * grid.height * 4 || j % 4 == 3,
            }
        }),
    ensures
        final(input).grid == old(input).grid,
        match (old(input).samples, final(input).samples) {
            (Samples::Byte(p), Samples::Byte(r)) => {
                &&& r@.len() == p@.len()
                &&& 0 <= j < p@.len() ==> r@[j] == p@[j]
            },
            (Samples::Word(p), Samples::Word(r)) => {
                &&& r@.len() == p@.len()
                &&& 0 <= j < p@.len() ==> r@[j] == p@[j]
            },
            (Samples::Real(p), Samples::Real(r)) => {
                &&& r@.len() == p@.len()
                &&& 0 <= j < p@.len() ==> r@[j] == p@[j]
            },
            _ => false,
        },
{
    only_colors_change(*old(input), residual, *final(input));
    let grid = old(input).grid;
    if grid.width == 0 || grid.height == 0 {
        assert(grid.len() == 0) by (nonlinear_arith)
            requires
                grid.len() == grid.width * grid.height * grid.layout.channels_spec(),
                grid.width == 0 || grid.height == 0,
        ;
    }
    assert(!grid.colored(j));
}

/// Samples without colour, those after the last pixel, and all samples where there are no pixels
/// are not given to `apply`: they stay as they were.
pub proof fn only_colors_are_given_to_apply<S: Copy, T: Sample, F: Fn(S, T) -> S>(
    samples: &mut Vec<S>,
    grid: Grid,
    residual: FloatImage<T>,
    apply: F,
    j: int,
)
    requires
        call_ensures(
            for_each_interpolated_residual::<S, T, F>,
            (samples, grid, &residual, apply),
            (),
        ),
        0 <= j < old(samples)@.len(),
        ({
            ||| grid.width == 0
            ||| grid.height == 0
            ||| match grid.layout {
                Layout::Luma => j >= grid.width * grid.height,
                Layout::LumaAlpha => j >= grid.width * grid.height * 2 || j % 2 == 1,
                Layout::Rgb => j >= grid.width * grid.height * 3,
                Layout::Rgba => j >= grid.width * grid.height * 4 || j % 4 == 3,
            }
        }),
    ensures
        final(samples)@.len() == old(samples)@.len(),
        final(samples)@[j] == old(samples)@[j],
{
    if grid.width > 0 && grid.height > 0 {
        assert(!grid.colored(j));
    }
}

/// The number of samples in a pixel, and of those that carry colour.
pub proof fn layouts_have_their_channels(layout: Layout, channels: usize, colors: usize)
    requires
        call_ensures(Layout::channels, (layout,), channels),
        call_ensures(Layout::colors, (layout,), colors),
    ensures
        layout == Layout::Luma ==> channels == 1 && colors == 1,
        layout == Layout::LumaAlpha ==> channels == 2 && colors == 1,
        layout == Layout::Rgb ==> channels == 3 && colors == 3,
        layout == Layout::Rgba ==> channels == 4 && colors == 3,
{
}

/// The samples of a square picture become a tensor exactly where there are three for each pixel.
/// Channel `c` of the pixel in row `y` and column `x` stands in plane `c`, row `y` and column `x` of
/// the tensor, doubled and 1 less.
pub proof fn pictures_are_taken_apart_into_planes<T: Sample>(
    value: spec_fn(T) -> real,
    size: u32,
    samples: Vec<T>,
    r: Result<Tensor<T>, Error>,
    c: int,
    y: int,
    x: int,
)
    requires
        exact(value),
        call_ensures(model_input::<T>, (size, samples), r),
    ensures
        r is Ok <==> samples@.len() == size * size * 3,
        r matches Err(e) ==> e is Shape,
        r matches Ok(t) ==> {
            &&& t.shape@.len() == 4
            &&& t.shape@[0] == 1 && t.shape@[1] == 3
            &&& t.shape@[2] == size && t.shape@[3] == size
            &&& t.data@.len() == samples@.len()
            &&& 0 <= c < 3 && 0 <= y < size && 0 <= x < size ==> value(
                t.data@[(c * size + y) * size + x],
            ) == 2 as real * value(samples@[(y * size + x) * 3 + c]) - 1 as real
        },
{
    if let Ok(t) = r {
        if 0 <= c < 3 && 0 <= y < size && 0 <= x < size {
            let n = size * size;
            let p = y * size + x;
            let j = p * 3 + c;
            let i = (c * size + y) * size + x;
            assert(0 <= p < n) by (nonlinear_arith)
                requires
                    p == y * size + x,
                    n == size * size,
                    0 <= y < size,
                    0 <= x < size,
            ;
            tensor_order_is_row_major(size as int, size as int, c, y, x);
            planar_order_round_trips(n, j);
            lemma_signed_value(value, samples@[j], t.data@[i]);
        }
    }
}

/// A tensor becomes a picture exactly where it has the shape of one picture of three channels.
/// The element in plane `c`, row `y` and column `x` becomes channel `c` of the pixel in row `y` and
/// column `x`, with 1 added and halved.
pub proof fn planes_are_put_together_into_pictures<T: Sample>(
    value: spec_fn(T) -> real,
    array: Tensor<T>,
    r: Result<FloatImage<T>, Error>,
    c: int,
    y: int,
    x: int,
)
    requires
        exact(value),
        call_ensures(model_output::<T>, (&array,), r),
        array.shape@.len() == 4 && array.shape@[0] == 1 && array.shape@[1] == 3
            ==> array.data@.len() == 3 * (array.shape@[2] * array.shape@[3]),
    ensures
        r is Ok <==> array.shape@.len() == 4 && array.shape@[0] == 1 && array.shape@[1] == 3,
        r matches Err(e) ==> e is InvalidShape,
        r matches Ok(img) ==> {
            let (height, width) = (array.shape@[2], array.shape@[3]);
            &&& img.width == width as int % 0x1_0000_0000
            &&& img.height == height as int % 0x1_0000_0000
            &&& img.channels == 3
            &&& img.samples@.len() == 3 * (height * width)
            &&& 0 <= c < 3 && 0 <= y < height && 0 <= x < width ==> 2 as real * value(
                img.samples@[(y * width + x) * 3 + c],
            ) == value(array.data@[(c * height + y) * width + x]) + 1 as real
        },
{
    if let Ok(img) = r {
        let (height, width) = (array.shape@[2] as int, array.shape@[3] as int);
        picture_volume(array.shape@);
        if 0 <= c < 3 && 0 <= y < height && 0 <= x < width {
            let n = height * width;
            let p = y * width + x;
            let j = p * 3 + c;
            assert(0 <= p < n) by (nonlinear_arith)
                requires
                    p == y * width + x,
                    n == height * width,
                    0 <= y < height,
                    0 <= x < width,
            ;
            tensor_order_is_row_major(height, width, c, y, x);
            lemma_unsigned_value(value, array.data@[planar_index(n, j)], img.samples@[j]);
        }
    }
}

/// The long side of a padded residual is 256 times the longer by the shorter side of the picture,
/// the fraction cut off.
pub proof fn long_sides_keep_the_proportions<T: Sample>(
    value: spec_fn(T) -> real,
    width: usize,
    height: usize,
    long: usize,
)
    requires
        exact(value),
        0 < width < 0x1_0000_0000,
        0 < height < 0x1_0000_0000,
        call_ensures(long_side::<T>, (width, height), long),
    ensures
        ({
            let (longer, shorter) = if width > height {
                (width, height)
            } else {
                (height, width)
            };
            &&& 256 <= long
            &&& long < usize::MAX ==> long * shorter <= 256 * longer < (long + 1) * shorter
            &&& long * shorter <= 256 * longer
        }),
{
    lemma_long_side_value(value, width, height, long);
}

proof fn lemma_long_side_value<T: Sample>(
    value: spec_fn(T) -> real,
    width: usize,
    height: usize,
    long: usize,
)
    requires
        exact(value),
        0 < width < 0x1_0000_0000,
        0 < height < 0x1_0000_0000,
        long_side_is::<T>(width, height, long),
    ensures
        ({
            let (longer, shorter) = if width > height {
                (width, height)
            } else {
                (height, width)
            };
            &&& 256 <= long
            &&& long < usize::MAX ==> long * shorter <= 256 * longer < (long + 1) * shorter
            &&& long * shorter <= 256 * longer
        }),
{
    let (longer, shorter) = if width > height {
        (width, height)
    } else {
        (height, width)
    };
    let (a, b, ratio, side, product, whole) = choose|
        a: T,
        b: T,
        ratio: T,
        side: T,
        product: T,
        whole: nat,
    |
        {
            &&& #[trigger] integer_is(longer as nat, a)
            &&& #[trigger] integer_is(shorter as nat, b)
            &&& #[trigger] quotient_is(a, b, ratio)
            &&& #[trigger] word_is(256, side)
            &&& #[trigger] product_is(ratio, side, product)
            &&& #[trigger] truncated_is(product, 3, whole)
            &&& long == (if whole <= usize::MAX {
                whole as int
            } else {
                usize::MAX as int
            })
        };
    reveal_with_fuel(power, 5);
    lemma_integer_value(value, longer as nat, a);
    lemma_integer_value(value, shorter as nat, b);
    lemma_truncated_value(value, product, 3, whole);
    let (q, s, l) = (value(ratio), shorter as real, longer as real);
    let f = value(side);
    assert(q * f == 256 as real * q) by (nonlinear_arith)
        requires
            f == 256 as real,
    ;
    assert(q * s == l);
    assert(q >= 1 as real) by (nonlinear_arith)
        requires
            q * s == l,
            l >= s,
            s > 0 as real,
    ;
    assert(q <= l) by (nonlinear_arith)
        requires
            q * s == l,
            q >= 1 as real,
            s >= 1 as real,
    ;
    let k = whole as int;
    let (p, k0, k1) = (256 as real * q, k as real, (k + 1) as real);
    assert(k0 <= p < k1);
    assert(k0 * s <= 256 as real * l) by (nonlinear_arith)
        requires
            k0 <= p,
            p == 256 as real * q,
            q * s == l,
            s > 0 as real,
    ;
    assert(256 as real * l < k1 * s) by (nonlinear_arith)
        requires
            p < k1,
            p == 256 as real * q,
            q * s == l,
            s > 0 as real,
    ;
    lemma_product_of_integers(k, shorter as int);
    lemma_product_of_integers(k + 1, shorter as int);
    assert(k * shorter <= 256 * longer < (k + 1) * shorter);
    if k > usize::MAX {
        assert(usize::MAX * shorter <= k * shorter) by (nonlinear_arith)
            requires
                k >= usize::MAX,
                shorter > 0,
        ;
    }
    if k < 256 {
        assert((k + 1) * shorter <= 256 * shorter) by (nonlinear_arith)
            requires
                k < 256,
                shorter > 0,
        ;
    }
}

proof fn lemma_product_of_integers(a: int, b: int)
    ensures
        (a * b) as real == a as real * b as real,
{
    assert((a * b) as real == a as real * b as real) by (nonlinear_arith);
}

/// For a picture with pixels, removing the boundary artifact gives a residual that is 256 by 256
/// times the longer by the shorter side of the picture, the fraction cut off, whenever its elements
/// can be addressed: with the width long for a picture wider than high, else with the height long.
pub proof fn removal_keeps_the_proportions<T: Sample>(
    value: spec_fn(T) -> real,
    residual: Tensor<T>,
    size: (usize, usize),
    variant: Variant,
    means: Vec<T>,
    r: Option<Tensor<T>>,
    long: int,
)
    requires
        exact(value),
        0 < size.0 < 0x1_0000_0000,
        0 < size.1 < 0x1_0000_0000,
        call_ensures(remove_boundary_artifact::<T>, (&residual, size, variant, &means), r),
        size.0 > size.1 ==> long == (256 * size.0) / (size.1 as int),
        size.0 <= size.1 ==> long == (256 * size.1) / (size.0 as int),
    ensures
        r is Some <==> 768 * long <= isize::MAX,
        r matches Some(t) ==> {
            &&& t.shape@.len() == 4
            &&& t.shape@[0] == 1
            &&& t.shape@[1] == 3
            &&& t.shape@[2] == if size.0 > size.1 {
                256
            } else {
                long
            }
            &&& t.shape@[3] == if size.0 > size.1 {
                long
            } else {
                256
            }
        },
{
    removal_answers_for_every_long_side(residual, size, variant, means, r, 0, 0, 0);
    let side = choose|side: usize|
        {
            &&& #[trigger] long_side_is::<T>(size.0, size.1, side)
            &&& r is Some <==> 256 <= side && 768 * side <= isize::MAX
            &&& r matches Some(t) ==> t.shape@ == (if size.0 > size.1 {
                seq![1usize, 3usize, 256usize, side]
            } else {
                seq![1usize, 3usize, side, 256usize]
            })
        };
    assert(exists|side: usize|
        {
            &&& #[trigger] long_side_is::<T>(size.0, size.1, side)
            &&& r is Some <==> 256 <= side && 768 * side <= isize::MAX
            &&& r matches Some(t) ==> t.shape@ == (if size.0 > size.1 {
                seq![1usize, 3usize, 256usize, side]
            } else {
                seq![1usize, 3usize, side, 256usize]
            })
        });
    lemma_long_side_value(value, size.0, size.1, side);
    let (longer, shorter) = if size.0 > size.1 {
        (size.0 as int, size.1 as int)
    } else {
        (size.1 as int, size.0 as int)
    };
    if side < usize::MAX {
        assert(side * shorter + shorter == (side + 1) * shorter) by (nonlinear_arith);
        lemma_fundamental_div_mod_converse(
            256 * longer,
            shorter,
            side as int,
            256 * longer - side * shorter,
        );
    } else {
        lemma_fundamental_div_mod(256 * longer, shorter);
        assert(long >= side) by (nonlinear_arith)
            requires
                side * shorter <= 256 * longer,
                256 * longer == shorter * long + (256 * longer) % shorter,
                (256 * longer) % shorter < shorter,
                shorter > 0,
        ;
    }
}

} // verus!
