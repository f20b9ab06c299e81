//! Adding a residual keeps the order of pictures: where neither the picture nor the residual gets
//! darker, the result does not either.
use crate::determinism::{deterministic, number, same_tap, taps_are_determined};
use crate::residual::{
    axis_is, byte_blend_is, interpolated_is, lemma_sample_place, mixed_is, real_blend_is,
    residual_applied, sample_changes, shifted_is, spread, taps_are_neighbors, word_blend_is,
    FloatImage, Grid, Picture, Samples, Tap,
};
use crate::sample::{
    at_most_is, byte_is, capped_is, difference_is, less_is, product_is, quotient_is,
    saturated_byte_is, saturated_word_is, signed_is, sum_is, unsigned_is, word_is, Sample,
};
use vstd::prelude::*;

verus! {

/// `a <= b`.
pub open spec fn at_most<T: Sample>(a: T, b: T) -> bool {
    at_most_is(a, b, true)
}

/// `<=` chains, `<` goes with it, and the values of integers, 0 and 1 among them, are in order.
pub open spec fn comparable<T: Sample>() -> bool {
    &&& exists|zero: T, one: T| #[trigger] byte_is(0, zero) && #[trigger] byte_is(1, one)
    &&& forall|a: T, b: T, c: T| #[trigger]
        at_most(a, b) && #[trigger] at_most(b, c) ==> at_most(a, c)
    &&& forall|a: T, b: T| #[trigger] less_is(a, b, true) ==> at_most(a, b)
    &&& forall|a: T, b: T, c: T| #[trigger]
        at_most(a, b) && #[trigger] less_is(b, c, true) ==> !less_is(a, c, false)
    &&& forall|m: u8, n: u8, x: T, y: T|
        m <= n && #[trigger] byte_is(m, x) && #[trigger] byte_is(n, y) ==> at_most(x, y)
    &&& forall|m: u8, n: u16, x: T, y: T|
        m <= n && #[trigger] byte_is(m, x) && #[trigger] word_is(n, y) ==> at_most(x, y)
    &&& forall|m: u16, n: u16, x: T, y: T|
        m <= n && #[trigger] word_is(m, x) && #[trigger] word_is(n, y) ==> at_most(x, y)
}

/// The operators keep the order wherever they give numbers: sums in both operands, differences in
/// the first, products by what is not negative, and quotients by the value of a byte or word other
/// than 0. What is taken from something no smaller leaves nothing negative.
pub open spec fn order_preserving<T: Sample>() -> bool {
    &&& forall|a: T, b: T, c: T, d: T, r: T, s: T| #[trigger]
        sum_is(a, c, r) && #[trigger] sum_is(b, d, s) && at_most(a, b) && at_most(c, d) && number(r)
            && number(s) ==> at_most(r, s)
    &&& forall|a: T, b: T, c: T, r: T, s: T| #[trigger]
        difference_is(a, c, r) && #[trigger] difference_is(b, c, s) && at_most(a, b) && number(r)
            && number(s) ==> at_most(r, s)
    &&& forall|zero: T, a: T, b: T, r: T| #[trigger]
        byte_is(0, zero) && #[trigger] difference_is(b, a, r) && at_most(a, b) && number(r)
            ==> at_most(zero, r)
    &&& forall|zero: T, a: T, b: T, c: T, r: T, s: T| #[trigger]
        byte_is(0, zero) && #[trigger] product_is(a, c, r) && #[trigger] product_is(b, c, s)
            && at_most(zero, c) && at_most(a, b) && number(r) && number(s) ==> at_most(r, s)
    &&& forall|a: T, b: T, n: u8, c: T, r: T, s: T|
        n > 0 && #[trigger] byte_is(n, c) && #[trigger] quotient_is(a, c, r)
            && #[trigger] quotient_is(b, c, s) && at_most(a, b) ==> at_most(r, s)
    &&& forall|a: T, b: T, n: u16, c: T, r: T, s: T|
        n > 0 && #[trigger] word_is(n, c) && #[trigger] quotient_is(a, c, r)
            && #[trigger] quotient_is(b, c, s) && at_most(a, b) ==> at_most(r, s)
}

/// What arithmetic has to be like for a residual to keep the order of pictures. Floating-point
/// arithmetic is: an operation that gives no NaN rounds the exact result, and rounding keeps the
/// order.
pub open spec fn orderly<T: Sample>() -> bool {
    &&& deterministic::<T>()
    &&& comparable::<T>()
    &&& order_preserving::<T>()
}

/// `w` lies between 0 and 1.
pub open spec fn unit<T: Sample>(w: T) -> bool {
    forall|zero: T, one: T| #[trigger]
        byte_is(0, zero) && #[trigger] byte_is(1, one) ==> at_most(zero, w) && at_most(w, one)
}

proof fn lemma_mixed_order<T: Sample>(a: T, b: T, c: T, d: T, w: T, zero: T, r: T, s: T)
    requires
        orderly::<T>(),
        byte_is(0, zero),
        unit(w),
        at_most(a, c),
        at_most(b, d),
        mixed_is(a, b, w, r),
        mixed_is(c, d, w, s),
        number(r),
        number(s),
    ensures
        at_most(r, s),
{
    let (one, rest, left, right) = choose|one: T, rest: T, left: T, right: T|
        {
            &&& #[trigger] byte_is(1, one)
            &&& #[trigger] difference_is(one, w, rest)
            &&& #[trigger] product_is(a, rest, left)
            &&& #[trigger] product_is(b, w, right)
            &&& sum_is(left, right, r)
        };
    let (one2, rest2, left2, right2) = choose|one: T, rest: T, left: T, right: T|
        {
            &&& #[trigger] byte_is(1, one)
            &&& #[trigger] difference_is(one, w, rest)
            &&& #[trigger] product_is(c, rest, left)
            &&& #[trigger] product_is(d, w, right)
            &&& sum_is(left, right, s)
        };
    assert(one == one2);
    assert(number(left) && number(right) && number(left2) && number(right2));
    assert(at_most(zero, w) && at_most(w, one));
    assert(number(rest) && number(rest2));
    assert(rest == rest2);
    assert(at_most(zero, rest));
    assert(at_most(left, left2));
    assert(at_most(right, right2));
}

proof fn lemma_signed_order<T: Sample>(zero: T, f: T, g: T, r: T, s: T)
    requires
        orderly::<T>(),
        byte_is(0, zero),
        at_most(f, g),
        signed_is(f, r),
        signed_is(g, s),
    ensures
        at_most(r, s),
{
    let (two, double, one) = choose|two: T, double: T, one: T|
        {
            &&& #[trigger] byte_is(2, two)
            &&& #[trigger] product_is(f, two, double)
            &&& #[trigger] byte_is(1, one)
            &&& difference_is(double, one, r)
        };
    let (two2, double2, one2) = choose|two: T, double: T, one: T|
        {
            &&& #[trigger] byte_is(2, two)
            &&& #[trigger] product_is(g, two, double)
            &&& #[trigger] byte_is(1, one)
            &&& difference_is(double, one, s)
        };
    assert(two == two2 && one == one2);
    assert(at_most(zero, two));
    assert(number(double) && number(double2));
    assert(at_most(double, double2));
}

proof fn lemma_signed_number<T: Sample>(f: T, r: T)
    requires
        orderly::<T>(),
        signed_is(f, r),
        number(r),
    ensures
        number(f),
{
}

proof fn lemma_unsigned_order<T: Sample>(f: T, g: T, r: T, s: T)
    requires
        orderly::<T>(),
        at_most(f, g),
        unsigned_is(f, r),
        unsigned_is(g, s),
    ensures
        at_most(r, s),
{
    let (one, shifted, two) = choose|one: T, shifted: T, two: T|
        {
            &&& #[trigger] byte_is(1, one)
            &&& #[trigger] sum_is(f, one, shifted)
            &&& #[trigger] byte_is(2, two)
            &&& quotient_is(shifted, two, r)
        };
    let (one2, shifted2, two2) = choose|one: T, shifted: T, two: T|
        {
            &&& #[trigger] byte_is(1, one)
            &&& #[trigger] sum_is(g, one, shifted)
            &&& #[trigger] byte_is(2, two)
            &&& quotient_is(shifted, two, s)
        };
    assert(one == one2 && two == two2);
    assert(at_most(one, one));
    assert(number(shifted) && number(shifted2));
    assert(at_most(shifted, shifted2));
}

proof fn lemma_shifted_order<T: Sample>(a: T, b: T, u: T, v: T, r: T, s: T)
    requires
        orderly::<T>(),
        at_most(a, b),
        at_most(u, v),
        forall|sum: T| #[trigger] sum_is(a, u, sum) ==> number(sum),
        forall|sum: T| #[trigger] sum_is(b, v, sum) ==> number(sum),
        shifted_is(a, u, r),
        shifted_is(b, v, s),
    ensures
        at_most(r, s),
{
    let (sum, one, top) = choose|sum: T, one: T, top: T|
        {
            &&& #[trigger] sum_is(a, u, sum)
            &&& #[trigger] byte_is(1, one)
            &&& #[trigger] capped_is(sum, one, top)
            &&& unsigned_is(top, r)
        };
    let (sum2, one2, top2) = choose|sum: T, one: T, top: T|
        {
            &&& #[trigger] sum_is(b, v, sum)
            &&& #[trigger] byte_is(1, one)
            &&& #[trigger] capped_is(sum, one, top)
            &&& unsigned_is(top, s)
        };
    assert(one == one2);
    assert(at_most(one, one));
    assert(at_most(sum, sum2));
    assert(at_most(top, top2));
    lemma_unsigned_order(top, top2, r, s);
}

/// `base` is the real sample `s`, taken to [-1, 1].
pub open spec fn real_base_is<T: Sample>(s: T, base: T) -> bool {
    signed_is(s, base)
}

/// `base` is the 8-bit sample `s`, taken to [-1, 1].
pub open spec fn byte_base_is<T: Sample>(s: u8, base: T) -> bool {
    exists|x: T, full: T, unit: T|
        {
            &&& #[trigger] byte_is(s, x)
            &&& #[trigger] byte_is(u8::MAX, full)
            &&& #[trigger] quotient_is(x, full, unit)
            &&& signed_is(unit, base)
        }
}

/// `base` is the 16-bit sample `s`, taken to [-1, 1].
pub open spec fn word_base_is<T: Sample>(s: u16, base: T) -> bool {
    exists|x: T, full: T, unit: T|
        {
            &&& #[trigger] word_is(s, x)
            &&& #[trigger] word_is(u16::MAX, full)
            &&& #[trigger] quotient_is(x, full, unit)
            &&& signed_is(unit, base)
        }
}

/// The sample `s`, which `base` takes to [-1, 1], and the residual `v` have a sum that is a number.
pub open spec fn summable<S, T: Sample>(base: spec_fn(S, T) -> bool, s: S, v: T) -> bool {
    forall|b: T, sum: T| #[trigger] base(s, b) && #[trigger] sum_is(b, v, sum) ==> number(sum)
}

proof fn lemma_real_order<T: Sample>(zero: T, a: T, b: T, u: T, v: T, r: T, s: T)
    requires
        orderly::<T>(),
        byte_is(0, zero),
        at_most(a, b),
        at_most(u, v),
        summable(|s: T, b: T| real_base_is(s, b), a, u),
        summable(|s: T, b: T| real_base_is(s, b), b, v),
        real_blend_is(a, u, r),
        real_blend_is(b, v, s),
    ensures
        at_most(r, s),
{
    let base = |s: T, b: T| real_base_is(s, b);
    let x = choose|x: T| #[trigger] signed_is(a, x) && shifted_is(x, u, r);
    let y = choose|x: T| #[trigger] signed_is(b, x) && shifted_is(x, v, s);
    assert(base(a, x) && base(b, y));
    lemma_signed_order(zero, a, b, x, y);
    lemma_shifted_order(x, y, u, v, r, s);
}

proof fn lemma_byte_order<T: Sample>(zero: T, a: u8, b: u8, u: T, v: T, r: u8, s: u8)
    requires
        orderly::<T>(),
        byte_is(0, zero),
        a <= b,
        at_most(u, v),
        summable(|s: u8, b: T| byte_base_is(s, b), a, u),
        summable(|s: u8, b: T| byte_base_is(s, b), b, v),
        byte_blend_is(a, u, r),
        byte_blend_is(b, v, s),
    ensures
        r <= s,
{
    let base = |s: u8, b: T| byte_base_is(s, b);
    let (x, full, unit, p, o, scaled) = choose|x: T, full: T, unit: T, base: T, o: T, scaled: T|
        {
            &&& #[trigger] byte_is(a, x)
            &&& #[trigger] byte_is(u8::MAX, full)
            &&& #[trigger] quotient_is(x, full, unit)
            &&& #[trigger] signed_is(unit, base)
            &&& #[trigger] shifted_is(base, u, o)
            &&& #[trigger] product_is(o, full, scaled)
            &&& saturated_byte_is(scaled, r)
        };
    let (x2, full2, unit2, p2, o2, scaled2) = choose|
        x: T,
        full: T,
        unit: T,
        base: T,
        o: T,
        scaled: T,
    |
        {
            &&& #[trigger] byte_is(b, x)
            &&& #[trigger] byte_is(u8::MAX, full)
            &&& #[trigger] quotient_is(x, full, unit)
            &&& #[trigger] signed_is(unit, base)
            &&& #[trigger] shifted_is(base, v, o)
            &&& #[trigger] product_is(o, full, scaled)
            &&& saturated_byte_is(scaled, s)
        };
    assert(full == full2);
    assert(at_most(x, x2));
    assert(at_most(unit, unit2));
    assert(base(a, p) && base(b, p2));
    lemma_signed_order(zero, unit, unit2, p, p2);
    lemma_shifted_order(p, p2, u, v, o, o2);
    assert(at_most(zero, full));
    assert(number(scaled) && number(scaled2));
    assert(at_most(scaled, scaled2));
    if s < r {
        let y = choose|y: T| #[trigger] byte_is(r, y) && at_most_is(y, scaled, true);
        let z = choose|z: T| #[trigger] byte_is((s + 1) as u8, z) && at_most_is(z, scaled2, false);
        assert(at_most(y, scaled) && at_most(y, scaled2));
        assert(byte_is((s + 1) as u8, z) && byte_is(r, y) && at_most_is(y, scaled2, true));
        assert(false);
    }
}

proof fn lemma_word_order<T: Sample>(zero: T, a: u16, b: u16, u: T, v: T, r: u16, s: u16)
    requires
        orderly::<T>(),
        byte_is(0, zero),
        a <= b,
        at_most(u, v),
        summable(|s: u16, b: T| word_base_is(s, b), a, u),
        summable(|s: u16, b: T| word_base_is(s, b), b, v),
        word_blend_is(a, u, r),
        word_blend_is(b, v, s),
    ensures
        r <= s,
{
    let base = |s: u16, b: T| word_base_is(s, b);
    let (x, full, unit, p, o, scaled) = choose|x: T, full: T, unit: T, base: T, o: T, scaled: T|
        {
            &&& #[trigger] word_is(a, x)
            &&& #[trigger] word_is(u16::MAX, full)
            &&& #[trigger] quotient_is(x, full, unit)
            &&& #[trigger] signed_is(unit, base)
            &&& #[trigger] shifted_is(base, u, o)
            &&& #[trigger] product_is(o, full, scaled)
            &&& saturated_word_is(scaled, r)
        };
    let (x2, full2, unit2, p2, o2, scaled2) = choose|
        x: T,
        full: T,
        unit: T,
        base: T,
        o: T,
        scaled: T,
    |
        {
            &&& #[trigger] word_is(b, x)
            &&& #[trigger] word_is(u16::MAX, full)
            &&& #[trigger] quotient_is(x, full, unit)
            &&& #[trigger] signed_is(unit, base)
            &&& #[trigger] shifted_is(base, v, o)
            &&& #[trigger] product_is(o, full, scaled)
            &&& saturated_word_is(scaled, s)
        };
    assert(full == full2);
    assert(at_most(x, x2));
    assert(at_most(unit, unit2));
    assert(base(a, p) && base(b, p2));
    lemma_signed_order(zero, unit, unit2, p, p2);
    lemma_shifted_order(p, p2, u, v, o, o2);
    assert(at_most(zero, full));
    assert(number(scaled) && number(scaled2));
    assert(at_most(scaled, scaled2));
    if s < r {
        let y = choose|y: T| #[trigger] word_is(r, y) && at_most_is(y, scaled, true);
        let z = choose|z: T| #[trigger] word_is((s + 1) as u16, z) && at_most_is(z, scaled2, false);
        assert(at_most(y, scaled) && at_most(y, scaled2));
        assert(word_is((s + 1) as u16, z) && word_is(r, y) && at_most_is(y, scaled2, true));
        assert(false);
    }
}

/// Two residuals have the same size, and in the channels that the pixels of `grid` have colours
/// for, the samples of the first are at most those of the second.
pub open spec fn residual_at_most<T: Sample>(
    grid: Grid,
    a: FloatImage<T>,
    b: FloatImage<T>,
) -> bool {
    &&& a.width == b.width
    &&& a.height == b.height
    &&& forall|x: int, y: int, c: int|
        0 <= x < a.width && 0 <= y < a.height && 0 <= c < grid.layout.colors_spec() ==> at_most(
            #[trigger] a.at(x, y, c),
            b.at(x, y, c),
        )
}

proof fn lemma_interpolated_order<T: Sample>(
    grid: Grid,
    a: FloatImage<T>,
    b: FloatImage<T>,
    col: Tap<T>,
    row: Tap<T>,
    c: int,
    zero: T,
    r: T,
    s: T,
)
    requires
        orderly::<T>(),
        byte_is(0, zero),
        residual_at_most(grid, a, b),
        col.low < a.width,
        col.high < a.width,
        row.low < a.height,
        row.high < a.height,
        0 <= c < grid.layout.colors_spec(),
        unit(col.weight),
        unit(row.weight),
        interpolated_is(a, col, row, c, r),
        interpolated_is(b, col, row, c, s),
        number(r),
        number(s),
    ensures
        at_most(r, s),
{
    let (top, bottom, mid) = choose|top: T, bottom: T, mid: T|
        {
            &&& #[trigger] mixed_is(
                a.at(col.low as int, row.low as int, c),
                a.at(col.high as int, row.low as int, c),
                col.weight,
                top,
            )
            &&& #[trigger] mixed_is(
                a.at(col.low as int, row.high as int, c),
                a.at(col.high as int, row.high as int, c),
                col.weight,
                bottom,
            )
            &&& #[trigger] mixed_is(top, bottom, row.weight, mid)
            &&& signed_is(mid, r)
        };
    let (top2, bottom2, mid2) = choose|top: T, bottom: T, mid: T|
        {
            &&& #[trigger] mixed_is(
                b.at(col.low as int, row.low as int, c),
                b.at(col.high as int, row.low as int, c),
                col.weight,
                top,
            )
            &&& #[trigger] mixed_is(
                b.at(col.low as int, row.high as int, c),
                b.at(col.high as int, row.high as int, c),
                col.weight,
                bottom,
            )
            &&& #[trigger] mixed_is(top, bottom, row.weight, mid)
            &&& signed_is(mid, s)
        };
    lemma_signed_number(mid, r);
    lemma_signed_number(mid2, s);
    lemma_mixed_numbers(top, bottom, row.weight, mid);
    lemma_mixed_numbers(top2, bottom2, row.weight, mid2);
    lemma_mixed_order(
        a.at(col.low as int, row.low as int, c),
        a.at(col.high as int, row.low as int, c),
        b.at(col.low as int, row.low as int, c),
        b.at(col.high as int, row.low as int, c),
        col.weight,
        zero,
        top,
        top2,
    );
    lemma_mixed_order(
        a.at(col.low as int, row.high as int, c),
        a.at(col.high as int, row.high as int, c),
        b.at(col.low as int, row.high as int, c),
        b.at(col.high as int, row.high as int, c),
        col.weight,
        zero,
        bottom,
        bottom2,
    );
    lemma_mixed_order(top, bottom, top2, bottom2, row.weight, zero, mid, mid2);
    lemma_signed_order(zero, mid, mid2, r, s);
}

proof fn lemma_mixed_numbers<T: Sample>(a: T, b: T, w: T, r: T)
    requires
        orderly::<T>(),
        mixed_is(a, b, w, r),
        number(r),
    ensures
        number(a),
        number(b),
{
}

/// The residual can be added to `samples` with numbers throughout: the weights of the residual
/// pixels lie between 0 and 1, and every colour sample, which `base` takes to [-1, 1], has a sum
/// with the residual interpolated there that is a number. Finite samples and a finite residual,
/// none of them near the largest number, see to both.
pub open spec fn numeric<S, T: Sample>(
    grid: Grid,
    residual: FloatImage<T>,
    base: spec_fn(S, T) -> bool,
    samples: Seq<S>,
) -> bool {
    forall|cols: Seq<Tap<T>>, rows: Seq<Tap<T>>, j: int, v: T|
        {
            &&& #[trigger] axis_is(residual.width, grid.width, cols)
            &&& #[trigger] axis_is(residual.height, grid.height, rows)
            &&& grid.colored(j)
            &&& #[trigger] interpolated_is(
                residual,
                cols[grid.column(j)],
                rows[grid.row(j)],
                grid.channel(j),
                v,
            )
        } ==> {
            &&& unit(cols[grid.column(j)].weight)
            &&& unit(rows[grid.row(j)].weight)
            &&& number(v)
            &&& summable(base, samples[j], v)
        }
}

/// A weight between 0 and 1 is a number, so there is only one.
proof fn lemma_unit_tap<T: Sample>(t: Tap<T>, u: Tap<T>)
    requires
        orderly::<T>(),
        same_tap(t, u),
        unit(t.weight),
    ensures
        t == u,
{
    let (zero, one) = choose|zero: T, one: T| #[trigger]
        byte_is(0, zero) && #[trigger] byte_is(1, one);
    assert(at_most(zero, t.weight));
}

proof fn lemma_spread_order<S, T: Sample>(
    grid: Grid,
    a: FloatImage<T>,
    b: FloatImage<T>,
    blend: spec_fn(S, T, S) -> bool,
    base: spec_fn(S, T) -> bool,
    most: spec_fn(S, S) -> bool,
    zero: T,
    before: Seq<S>,
    other: Seq<S>,
    after: Seq<S>,
    result: Seq<S>,
    j: int,
)
    requires
        orderly::<T>(),
        byte_is(0, zero),
        residual_at_most(grid, a, b),
        numeric(grid, a, base, before),
        numeric(grid, b, base, other),
        grid.colored(j),
        j < before.len(),
        j < other.len(),
        most(before[j], other[j]),
        forall|x: S, y: S, u: T, v: T, r: S, s: S|
            most(x, y) && at_most(u, v) && summable(base, x, u) && summable(base, y, v)
                && #[trigger] blend(x, u, r) && #[trigger] blend(y, v, s) ==> most(r, s),
        spread(grid, a, blend, before, after),
        spread(grid, b, blend, other, result),
    ensures
        most(after[j], result[j]),
{
    lemma_sample_place(grid, j);
    let (cols, rows) = choose|cols: Seq<Tap<T>>, rows: Seq<Tap<T>>|
        {
            &&& #[trigger] axis_is(a.width, grid.width, cols)
            &&& #[trigger] axis_is(a.height, grid.height, rows)
            &&& forall|j: int|
                0 <= j < before.len() ==> sample_changes(
                    grid,
                    a,
                    cols,
                    rows,
                    blend,
                    j,
                    before[j],
                    #[trigger] after[j],
                )
        };
    let (cols2, rows2) = choose|cols: Seq<Tap<T>>, rows: Seq<Tap<T>>|
        {
            &&& #[trigger] axis_is(b.width, grid.width, cols)
            &&& #[trigger] axis_is(b.height, grid.height, rows)
            &&& forall|j: int|
                0 <= j < other.len() ==> sample_changes(
                    grid,
                    b,
                    cols,
                    rows,
                    blend,
                    j,
                    other[j],
                    #[trigger] result[j],
                )
        };
    taps_are_determined(a.width, grid.width, cols, cols2);
    taps_are_determined(a.height, grid.height, rows, rows2);
    assert(sample_changes(grid, a, cols, rows, blend, j, before[j], after[j]));
    assert(sample_changes(grid, b, cols2, rows2, blend, j, other[j], result[j]));
    let x = grid.column(j);
    let y = grid.row(j);
    let c = grid.channel(j);
    taps_are_neighbors(a.width, grid.width, cols, x);
    taps_are_neighbors(a.height, grid.height, rows, y);
    let u = choose|v: T| #[trigger]
        interpolated_is(a, cols[x], rows[y], c, v) && blend(before[j], v, after[j]);
    let v = choose|v: T| #[trigger]
        interpolated_is(b, cols2[x], rows2[y], c, v) && blend(other[j], v, result[j]);
    lemma_unit_tap(cols[x], cols2[x]);
    lemma_unit_tap(rows[y], rows2[y]);
    lemma_interpolated_order(grid, a, b, cols[x], rows[y], c, zero, u, v);
    assert(blend(before[j], u, after[j]) && blend(other[j], v, result[j]));
}

/// Two pictures have the same size and format, and no colour of the first is brighter than that of
/// the second.
pub open spec fn picture_at_most<T: Sample>(a: Picture<T>, b: Picture<T>) -> bool {
    &&& a.grid == b.grid
    &&& match (a.samples, b.samples) {
        (Samples::Byte(r), Samples::Byte(s)) => forall|j: int|
            a.grid.colored(j) ==> #[trigger] r@[j] <= s@[j],
        (Samples::Word(r), Samples::Word(s)) => forall|j: int|
            a.grid.colored(j) ==> #[trigger] r@[j] <= s@[j],
        (Samples::Real(r), Samples::Real(s)) => forall|j: int|
            a.grid.colored(j) ==> at_most(#[trigger] r@[j], s@[j]),
        _ => false,
    }
}

/// The residual can be added to the picture with numbers throughout.
pub open spec fn numeric_picture<T: Sample>(picture: Picture<T>, residual: FloatImage<T>) -> bool {
    match picture.samples {
        Samples::Byte(s) => numeric(
            picture.grid,
            residual,
            |s: u8, b: T| byte_base_is(s, b),
            s@,
        ),
        Samples::Word(s) => numeric(
            picture.grid,
            residual,
            |s: u16, b: T| word_base_is(s, b),
            s@,
        ),
        Samples::Real(s) => numeric(picture.grid, residual, |s: T, b: T| real_base_is(s, b), s@),
    }
}

/// A brighter picture and a brighter residual give a brighter picture: adding a residual keeps the
/// order of pictures and of residuals, in every colour of every pixel.
pub proof fn applying_is_monotone<T: Sample>(
    before: Picture<T>,
    residual: FloatImage<T>,
    after: Picture<T>,
    other: Picture<T>,
    brighter: FloatImage<T>,
    result: Picture<T>,
)
    requires
        orderly::<T>(),
        before.wf(),
        other.wf(),
        picture_at_most(before, other),
        residual_at_most(before.grid, residual, brighter),
        numeric_picture(before, residual),
        numeric_picture(other, brighter),
        residual_applied(before, residual, after),
        residual_applied(other, brighter, result),
    ensures
        picture_at_most(after, result),
{
    let grid = before.grid;
    let (zero, one) = choose|zero: T, one: T| #[trigger]
        byte_is(0, zero) && #[trigger] byte_is(1, one);
    match (before.samples, other.samples, after.samples, result.samples) {
        (Samples::Byte(p), Samples::Byte(q), Samples::Byte(r), Samples::Byte(s)) => {
            let blend = |s: u8, v: T, o: u8| byte_blend_is(s, v, o);
            let base = |s: u8, b: T| byte_base_is(s, b);
            let most = |x: u8, y: u8| x <= y;
            assert forall|x: u8, y: u8, u: T, v: T, r: u8, s: u8|
                most(x, y) && at_most(u, v) && summable(base, x, u) && summable(base, y, v)
                    && #[trigger] blend(x, u, r) && #[trigger] blend(y, v, s) implies most(
                r,
                s,
            ) by {
                lemma_byte_order(zero, x, y, u, v, r, s);
            }
            assert forall|j: int| grid.colored(j) implies #[trigger] r@[j] <= s@[j] by {
                assert(p@[j] <= q@[j]);
                lemma_spread_order(
                    grid,
                    residual,
                    brighter,
                    blend,
                    base,
                    most,
                    zero,
                    p@,
                    q@,
                    r@,
                    s@,
                    j,
                );
            }
        },
        (Samples::Word(p), Samples::Word(q), Samples::Word(r), Samples::Word(s)) => {
            let blend = |s: u16, v: T, o: u16| word_blend_is(s, v, o);
            let base = |s: u16, b: T| word_base_is(s, b);
            let most = |x: u16, y: u16| x <= y;
            assert forall|x: u16, y: u16, u: T, v: T, r: u16, s: u16|
                most(x, y) && at_most(u, v) && summable(base, x, u) && summable(base, y, v)
                    && #[trigger] blend(x, u, r) && #[trigger] blend(y, v, s) implies most(
                r,
                s,
            ) by {
                lemma_word_order(zero, x, y, u, v, r, s);
            }
            assert forall|j: int| grid.colored(j) implies #[trigger] r@[j] <= s@[j] by {
                assert(p@[j] <= q@[j]);
                lemma_spread_order(
                    grid,
                    residual,
                    brighter,
                    blend,
                    base,
                    most,
                    zero,
                    p@,
                    q@,
                    r@,
                    s@,
                    j,
                );
            }
        },
        (Samples::Real(p), Samples::Real(q), Samples::Real(r), Samples::Real(s)) => {
            let blend = |s: T, v: T, o: T| real_blend_is(s, v, o);
            let base = |s: T, b: T| real_base_is(s, b);
            let most = |x: T, y: T| at_most(x, y);
            assert forall|x: T, y: T, u: T, v: T, r: T, s: T|
                most(x, y) && at_most(u, v) && summable(base, x, u) && summable(base, y, v)
                    && #[trigger] blend(x, u, r) && #[trigger] blend(y, v, s) implies most(
                r,
                s,
            ) by {
                lemma_real_order(zero, x, y, u, v, r, s);
            }
            assert forall|j: int| grid.colored(j) implies at_most(#[trigger] r@[j], s@[j]) by {
                assert(at_most(p@[j], q@[j]));
                lemma_spread_order(
                    grid,
                    residual,
                    brighter,
                    blend,
                    base,
                    most,
                    zero,
                    p@,
                    q@,
                    r@,
                    s@,
                    j,
                );
            }
        },
        _ => {},
    }
}

} // verus!
