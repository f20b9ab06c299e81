//! Where the arithmetic of samples is a function of its operands, so is everything built on it:
//! the same picture and the same residual always give the same result.
//!
//! What is not a number may take many forms, and an operator may give any of them. That shows in no
//! result that is a number, and none of these forms gets into the colours of a picture.
use crate::bindings::{image_pixels, image_size};
use crate::boundary::{
    agree_on_channel, aspect_is, element, long_side, long_side_ignores_transposition, long_side_is,
    paddable, padded, padded_elements, padding_commutes_with_transposition,
    padding_keeps_channels_apart, remove_boundary_artifact, sides_quotient_is, stretched_is,
    transposes_channel, SIDE,
};
use crate::model::{fitted_from, fitting_is_idempotent};
use crate::residual::{
    advances, axis_is, byte_blend_is, half_is, interpolated_is, lemma_sample_place, mixed_is,
    ratio_is, real_blend_is, residual_applied, sample_changes, shifted_is, spread, start_is, tap_is,
    taps_are_neighbors, walk_is, word_blend_is, FloatImage, Grid, Picture, Samples, Tap,
};
use crate::sample::{
    at_most_is, base_is, byte_is, capped_is, clamped_is, difference_is, digit_is, greater_is,
    halved, integer_is, less_is, power, power_is, product_is, quotient_is, reaches,
    saturated_byte_is, saturated_word_is, signed_is, sum_is, truncated, truncated_is, unsigned_is,
    word_is, Sample,
};
use crate::tensor::{
    interleaved_index, picture_of, pictures_survive_the_tensor, planar_index,
    planar_order_round_trips, renormalized, tensor_of, Tensor, CHANNELS,
};
use crate::variant::Variant;
use image::DynamicImage;
use vstd::prelude::*;

verus! {

/// `a` is a number: it can be compared with itself.
pub open spec fn number<T: Sample>(a: T) -> bool {
    at_most_is(a, a, true)
}

/// The same number, or neither is a number.
pub open spec fn same<T: Sample>(a: T, b: T) -> bool {
    a == b || (!number(a) && !number(b))
}

/// Each operator has one result for given operands, up to the form of what is not a number, and
/// each comparison and conversion has one.
pub open spec fn functional<T: Sample>() -> bool {
    &&& forall|a: T, b: T, r: T, s: T| #[trigger]
        sum_is(a, b, r) && #[trigger] sum_is(a, b, s) ==> same(r, s)
    &&& forall|a: T, b: T, r: T, s: T| #[trigger]
        difference_is(a, b, r) && #[trigger] difference_is(a, b, s) ==> same(r, s)
    &&& forall|a: T, b: T, r: T, s: T| #[trigger]
        product_is(a, b, r) && #[trigger] product_is(a, b, s) ==> same(r, s)
    &&& forall|a: T, b: T, r: T, s: T| #[trigger]
        quotient_is(a, b, r) && #[trigger] quotient_is(a, b, s) ==> same(r, s)
    &&& forall|a: T, b: T, r: bool, s: bool| #[trigger]
        less_is(a, b, r) && #[trigger] less_is(a, b, s) ==> r == s
    &&& forall|a: T, b: T, r: bool, s: bool| #[trigger]
        greater_is(a, b, r) && #[trigger] greater_is(a, b, s) ==> r == s
    &&& forall|n: u8, r: T, s: T| #[trigger] byte_is(n, r) && #[trigger] byte_is(n, s) ==> r == s
    &&& forall|n: u16, r: T, s: T| #[trigger] word_is(n, r) && #[trigger] word_is(n, s) ==> r == s
}

/// A result that is a number comes from numbers, and a comparison that holds is one of numbers.
pub open spec fn propagating<T: Sample>() -> bool {
    &&& forall|a: T, b: T, r: T| #[trigger]
        sum_is(a, b, r) && number(r) ==> number(a) && number(b)
    &&& forall|a: T, b: T, r: T| #[trigger]
        difference_is(a, b, r) && number(r) ==> number(a) && number(b)
    &&& forall|a: T, b: T, r: T| #[trigger]
        product_is(a, b, r) && number(r) ==> number(a) && number(b)
    &&& forall|a: T, b: T, r: T| #[trigger]
        quotient_is(a, b, r) && number(r) ==> number(a) && number(b)
    &&& forall|a: T, b: T| #[trigger] less_is(a, b, true) ==> number(a) && number(b)
    &&& forall|a: T, b: T| #[trigger] greater_is(a, b, true) ==> number(a) && number(b)
    &&& forall|a: T, b: T| #[trigger] at_most_is(a, b, true) ==> number(a) && number(b)
}

/// The values of bytes and words are numbers. Adding and subtracting the value of a byte gives a
/// number for a number, and so does multiplying by the value of a byte or word other than 0, and
/// dividing by that of a byte.
pub open spec fn steady<T: Sample>() -> bool {
    &&& forall|n: u8, x: T| #[trigger] byte_is(n, x) ==> number(x)
    &&& forall|n: u16, x: T| #[trigger] word_is(n, x) ==> number(x)
    &&& forall|a: T, n: u8, b: T, r: T| #[trigger]
        byte_is(n, b) && #[trigger] sum_is(a, b, r) && number(a) ==> number(r)
    &&& forall|a: T, n: u8, b: T, r: T| #[trigger]
        byte_is(n, b) && #[trigger] difference_is(a, b, r) && number(a) ==> number(r)
    &&& forall|a: T, n: u8, b: T, r: T|
        n > 0 && #[trigger] byte_is(n, b) && #[trigger] product_is(a, b, r) && number(a) ==> number(
            r,
        )
    &&& forall|a: T, n: u16, b: T, r: T|
        n > 0 && #[trigger] word_is(n, b) && #[trigger] product_is(a, b, r) && number(a) ==> number(
            r,
        )
    &&& forall|a: T, n: u8, b: T, r: T|
        n > 0 && #[trigger] byte_is(n, b) && #[trigger] quotient_is(a, b, r) && number(a)
            ==> number(r)
}

/// The values of integers, and their multiples by a power of 65536, which is a number, are ordered
/// as the integers are: what is at least the larger one is at least the smaller one.
pub open spec fn ordered<T: Sample>() -> bool {
    &&& forall|m: u8, n: u8, x: T, y: T, v: T|
        m <= n && #[trigger] byte_is(m, x) && #[trigger] byte_is(n, y) && #[trigger] at_most_is(
            y,
            v,
            true,
        ) ==> !at_most_is(x, v, false)
    &&& forall|m: u16, n: u16, x: T, y: T, v: T|
        m <= n && #[trigger] word_is(m, x) && #[trigger] word_is(n, y) && #[trigger] at_most_is(
            y,
            v,
            true,
        ) ==> !at_most_is(x, v, false)
    &&& forall|places: nat, scale: T|
        places <= 3 && #[trigger] power_is(places, scale) ==> number(scale)
    &&& forall|m: u16, n: u16, places: nat, scale: T, v: T|
        m <= n && places <= 3 && #[trigger] power_is(places, scale) && #[trigger] reaches(
            v,
            scale,
            n,
            true,
        ) ==> !#[trigger] reaches(v, scale, m, false)
}

/// What arithmetic has to be like for the same inputs to give the same results. Floating-point
/// arithmetic is: of its results only the form of a NaN is not settled.
pub open spec fn deterministic<T: Sample>() -> bool {
    &&& functional::<T>()
    &&& propagating::<T>()
    &&& steady::<T>()
    &&& ordered::<T>()
}

/// Operands that are the same give results that are the same.
spec fn congruent<T: Sample>() -> bool {
    &&& forall|a: T, b: T, c: T, d: T, r: T, s: T| #[trigger]
        sum_is(a, b, r) && #[trigger] sum_is(c, d, s) && same(a, c) && same(b, d) ==> same(r, s)
    &&& forall|a: T, b: T, c: T, d: T, r: T, s: T| #[trigger]
        difference_is(a, b, r) && #[trigger] difference_is(c, d, s) && same(a, c) && same(b, d)
            ==> same(r, s)
    &&& forall|a: T, b: T, c: T, d: T, r: T, s: T| #[trigger]
        product_is(a, b, r) && #[trigger] product_is(c, d, s) && same(a, c) && same(b, d) ==> same(
            r,
            s,
        )
    &&& forall|a: T, b: T, c: T, d: T, r: T, s: T| #[trigger]
        quotient_is(a, b, r) && #[trigger] quotient_is(c, d, s) && same(a, c) && same(b, d)
            ==> same(r, s)
}

proof fn lemma_congruent<T: Sample>()
    requires
        deterministic::<T>(),
    ensures
        congruent::<T>(),
{
}

proof fn lemma_signed<T: Sample>(f: T, g: T, r: T, s: T)
    requires
        deterministic::<T>(),
        same(f, g),
        signed_is(f, r),
        signed_is(g, s),
    ensures
        same(r, s),
{
    lemma_congruent::<T>();
}

proof fn lemma_unsigned<T: Sample>(f: T, g: T, r: T, s: T)
    requires
        deterministic::<T>(),
        same(f, g),
        unsigned_is(f, r),
        unsigned_is(g, s),
    ensures
        same(r, s),
        number(f) ==> r == s,
{
    lemma_congruent::<T>();
}

proof fn lemma_base<T: Sample>(r: T, s: T)
    requires
        deterministic::<T>(),
        base_is(r),
        base_is(s),
    ensures
        same(r, s),
{
}

proof fn lemma_integer<T: Sample>(n: nat, r: T, s: T)
    requires
        deterministic::<T>(),
        integer_is(n, r),
        integer_is(n, s),
    ensures
        same(r, s),
    decreases n,
{
    lemma_congruent::<T>();
    if n >= 0x1_0000_0000 {
        let (half, two) = choose|half: T, two: T|
            {
                &&& integer_is(halved(n), half)
                &&& byte_is(2, two)
                &&& #[trigger] product_is(half, two, r)
            };
        let (half2, two2) = choose|half: T, two: T|
            {
                &&& integer_is(halved(n), half)
                &&& byte_is(2, two)
                &&& #[trigger] product_is(half, two, s)
            };
        lemma_integer(halved(n), half, half2);
        assert(byte_is(2, two) && byte_is(2, two2));
    } else if n >= 65536 {
        assert forall|b: T, c: T| #[trigger] base_is(b) && #[trigger] base_is(c) implies same(
            b,
            c,
        ) by {
            lemma_base(b, c);
        }
    }
}

proof fn lemma_power<T: Sample>(places: nat, r: T, s: T)
    requires
        deterministic::<T>(),
        places <= 3,
        power_is(places, r),
        power_is(places, s),
    ensures
        r == s,
    decreases places,
{
    if places > 0 {
        lemma_congruent::<T>();
        let (l, b) = choose|lower: T, base: T|
            {
                &&& power_is((places - 1) as nat, lower)
                &&& base_is(base)
                &&& #[trigger] product_is(lower, base, r)
            };
        let (l2, b2) = choose|lower: T, base: T|
            {
                &&& power_is((places - 1) as nat, lower)
                &&& base_is(base)
                &&& #[trigger] product_is(lower, base, s)
            };
        lemma_power((places - 1) as nat, l, l2);
        lemma_base(b, b2);
        assert(same(r, s));
    }
}

proof fn lemma_digit<T: Sample>(v: T, w: T, places: nat, scale: T, d: u16, e: u16)
    requires
        deterministic::<T>(),
        same(v, w),
        places <= 3,
        power_is(places, scale),
        digit_is(v, scale, d),
        digit_is(w, scale, e),
    ensures
        d == e,
{
    if !number(v) {
        assert(!number(w));
        assert(!reaches(v, scale, d, true));
        assert(!reaches(w, scale, e, true));
    } else {
        if d < e {
            assert(reaches(v, scale, e, true) && reaches(v, scale, (d + 1) as u16, false));
        }
        if e < d {
            assert(reaches(v, scale, d, true) && reaches(v, scale, (e + 1) as u16, false));
        }
    }
}

proof fn lemma_truncated<T: Sample>(v: T, w: T, places: nat, k: nat, j: nat)
    requires
        deterministic::<T>(),
        same(v, w),
        places <= 3,
        truncated_is(v, places, k),
        truncated_is(w, places, j),
    ensures
        k == j,
    decreases places,
{
    if places == 0 {
        let one = choose|one: T| #[trigger]
            power_is(0, one) && k <= 65535 && digit_is(v, one, k as u16);
        let two = choose|one: T| #[trigger]
            power_is(0, one) && j <= 65535 && digit_is(w, one, j as u16);
        lemma_power(0, one, two);
        lemma_digit(v, w, 0, one, k as u16, j as u16);
    } else {
        lemma_congruent::<T>();
        let (scale, d, x, p, rest) = choose|scale: T, d: u16, x: T, p: T, rest: T|
            {
                &&& power_is(places, scale)
                &&& digit_is(v, scale, d)
                &&& #[trigger] word_is(d, x)
                &&& #[trigger] product_is(x, scale, p)
                &&& #[trigger] difference_is(v, p, rest)
                &&& d * power(places) <= k
                &&& truncated_is(rest, (places - 1) as nat, (k - d * power(places)) as nat)
            };
        let (scale2, d2, x2, p2, rest2) = choose|scale: T, d: u16, x: T, p: T, rest: T|
            {
                &&& power_is(places, scale)
                &&& digit_is(w, scale, d)
                &&& #[trigger] word_is(d, x)
                &&& #[trigger] product_is(x, scale, p)
                &&& #[trigger] difference_is(w, p, rest)
                &&& d * power(places) <= j
                &&& truncated_is(rest, (places - 1) as nat, (j - d * power(places)) as nat)
            };
        lemma_power(places, scale, scale2);
        lemma_digit(v, w, places, scale, d, d2);
        assert(x == x2 && same(p, p2) && same(rest, rest2));
        lemma_truncated(
            rest,
            rest2,
            (places - 1) as nat,
            (k - d * power(places)) as nat,
            (j - d * power(places)) as nat,
        );
    }
}

/// Rounding what is not a number towards zero gives 0.
pub proof fn no_number_is_cut_to_zero<T: Sample>(v: T, places: u32, k: u64)
    requires
        deterministic::<T>(),
        !number(v),
        places <= 3,
        call_ensures(truncated::<T>, (v, places), k),
    ensures
        k == 0,
{
    lemma_no_number(v, places as nat, k as nat);
}

proof fn lemma_no_number<T: Sample>(v: T, places: nat, k: nat)
    requires
        deterministic::<T>(),
        !number(v),
        truncated_is(v, places, k),
    ensures
        k == 0,
    decreases places,
{
    if places > 0 {
        let (scale, d, x, p, rest) = choose|scale: T, d: u16, x: T, p: T, rest: T|
            {
                &&& power_is(places, scale)
                &&& digit_is(v, scale, d)
                &&& #[trigger] word_is(d, x)
                &&& #[trigger] product_is(x, scale, p)
                &&& #[trigger] difference_is(v, p, rest)
                &&& d * power(places) <= k
                &&& truncated_is(rest, (places - 1) as nat, (k - d * power(places)) as nat)
            };
        assert(d == 0);
        assert(d * power(places) == 0) by (nonlinear_arith)
            requires
                d == 0,
        ;
        lemma_no_number(rest, (places - 1) as nat, k);
    }
}

proof fn lemma_saturated_byte<T: Sample>(v: T, d: u8, e: u8)
    requires
        ordered::<T>(),
        saturated_byte_is(v, d),
        saturated_byte_is(v, e),
    ensures
        d == e,
{
}

proof fn lemma_saturated_word<T: Sample>(v: T, d: u16, e: u16)
    requires
        ordered::<T>(),
        saturated_word_is(v, d),
        saturated_word_is(v, e),
    ensures
        d == e,
{
}

proof fn lemma_mixed<T: Sample>(a: T, b: T, w: T, c: T, d: T, u: T, r: T, s: T)
    requires
        deterministic::<T>(),
        same(a, c),
        same(b, d),
        same(w, u),
        mixed_is(a, b, w, r),
        mixed_is(c, d, u, s),
    ensures
        same(r, s),
{
    lemma_congruent::<T>();
}

/// Two positions fall between the same pixels, with the same weight.
pub open spec fn same_tap<T: Sample>(t: Tap<T>, u: Tap<T>) -> bool {
    t.low == u.low && t.high == u.high && same(t.weight, u.weight)
}

proof fn lemma_clamped<T: Sample>(v: T, w: T, low: T, high: T, high2: T, r: T, s: T)
    requires
        deterministic::<T>(),
        same(v, w),
        same(high, high2),
        clamped_is(v, low, high, r),
        clamped_is(w, low, high2, s),
    ensures
        same(r, s),
{
}

proof fn lemma_tap<T: Sample>(n: u32, p: T, q: T, t: Tap<T>, u: Tap<T>)
    requires
        deterministic::<T>(),
        same(p, q),
        tap_is(n, p, t),
        tap_is(n, q, u),
    ensures
        same_tap(t, u),
{
    let (zero, last, held, whole, floor) = choose|zero: T, last: T, held: T, whole: nat, floor: T|
        {
            &&& #[trigger] byte_is(0, zero)
            &&& #[trigger] integer_is((n - 1) as nat, last)
            &&& #[trigger] clamped_is(p, zero, last, held)
            &&& #[trigger] truncated_is(held, 1, whole)
            &&& t.low == (if whole < n {
                whole as int
            } else {
                n - 1
            })
            &&& #[trigger] integer_is(t.low as nat, floor)
            &&& difference_is(held, floor, t.weight)
        };
    let (zero2, last2, held2, whole2, floor2) = choose|
        zero: T,
        last: T,
        held: T,
        whole: nat,
        floor: T,
    |
        {
            &&& #[trigger] byte_is(0, zero)
            &&& #[trigger] integer_is((n - 1) as nat, last)
            &&& #[trigger] clamped_is(q, zero, last, held)
            &&& #[trigger] truncated_is(held, 1, whole)
            &&& u.low == (if whole < n {
                whole as int
            } else {
                n - 1
            })
            &&& #[trigger] integer_is(u.low as nat, floor)
            &&& difference_is(held, floor, u.weight)
        };
    lemma_congruent::<T>();
    lemma_integer((n - 1) as nat, last, last2);
    assert(zero == zero2);
    lemma_clamped(p, q, zero, last, last2, held, held2);
    lemma_truncated(held, held2, 1, whole, whole2);
    lemma_integer(t.low as nat, floor, floor2);
    assert(same(t.weight, u.weight));
}

proof fn lemma_walk<T: Sample>(
    start: T,
    start2: T,
    step: T,
    step2: T,
    p: Seq<T>,
    q: Seq<T>,
    i: int,
)
    requires
        deterministic::<T>(),
        same(start, start2),
        same(step, step2),
        walk_is(start, step, p),
        walk_is(start2, step2, q),
        p.len() == q.len(),
        0 <= i < p.len(),
    ensures
        same(p[i], q[i]),
    decreases i,
{
    if i > 0 {
        lemma_congruent::<T>();
        lemma_walk(start, start2, step, step2, p, q, i - 1);
        assert(advances(p, step, i) && advances(q, step2, i));
    }
}

proof fn lemma_ratio<T: Sample>(n: u32, len: u32, r: T, s: T)
    requires
        deterministic::<T>(),
        ratio_is(n, len, r),
        ratio_is(n, len, s),
    ensures
        same(r, s),
{
    let (a, b) = choose|a: T, b: T|
        {
            &&& #[trigger] integer_is(n as nat, a)
            &&& #[trigger] integer_is(len as nat, b)
            &&& quotient_is(a, b, r)
        };
    let (a2, b2) = choose|a: T, b: T|
        {
            &&& #[trigger] integer_is(n as nat, a)
            &&& #[trigger] integer_is(len as nat, b)
            &&& quotient_is(a, b, s)
        };
    lemma_congruent::<T>();
    lemma_integer(n as nat, a, a2);
    lemma_integer(len as nat, b, b2);
}

proof fn lemma_start<T: Sample>(scale: T, scale2: T, r: T, s: T)
    requires
        deterministic::<T>(),
        same(scale, scale2),
        start_is(scale, r),
        start_is(scale2, s),
    ensures
        same(r, s),
{
    lemma_congruent::<T>();
    assert forall|h: T, k: T| #[trigger] half_is(h) && #[trigger] half_is(k) implies same(
        h,
        k,
    ) by {}
}

/// The pixels along an axis of a picture fall among those of the residual in one way.
pub proof fn taps_are_determined<T: Sample>(n: u32, len: u32, t: Seq<Tap<T>>, u: Seq<Tap<T>>)
    requires
        deterministic::<T>(),
        axis_is(n, len, t),
        axis_is(n, len, u),
    ensures
        t.len() == u.len(),
        forall|i: int| 0 <= i < len ==> same_tap(#[trigger] t[i], u[i]),
{
    let (scale, start, p) = choose|scale: T, start: T, positions: Seq<T>|
        {
            &&& #[trigger] ratio_is(n, len, scale)
            &&& #[trigger] start_is(scale, start)
            &&& positions.len() == len
            &&& #[trigger] walk_is(start, scale, positions)
            &&& forall|i: int| 0 <= i < len ==> #[trigger] tap_is(n, positions[i], t[i])
        };
    let (scale2, start2, q) = choose|scale: T, start: T, positions: Seq<T>|
        {
            &&& #[trigger] ratio_is(n, len, scale)
            &&& #[trigger] start_is(scale, start)
            &&& positions.len() == len
            &&& #[trigger] walk_is(start, scale, positions)
            &&& forall|i: int| 0 <= i < len ==> #[trigger] tap_is(n, positions[i], u[i])
        };
    lemma_ratio(n, len, scale, scale2);
    lemma_start(scale, scale2, start, start2);
    assert forall|i: int| 0 <= i < len implies same_tap(#[trigger] t[i], u[i]) by {
        lemma_walk(start, start2, scale, scale2, p, q, i);
        assert(tap_is(n, p[i], t[i]) && tap_is(n, q[i], u[i]));
        lemma_tap(n, p[i], q[i], t[i], u[i]);
    }
}

/// Two residuals have the same size, and the same samples in the channels that the pixels of
/// `grid` have colours for.
pub open spec fn same_colors<T: Sample>(grid: Grid, a: FloatImage<T>, b: FloatImage<T>) -> bool {
    &&& a.width == b.width
    &&& a.height == b.height
    &&& forall|x: int, y: int, c: int|
        0 <= x < a.width && 0 <= y < a.height && 0 <= c < grid.layout.colors_spec() ==> same(
            #[trigger] a.at(x, y, c),
            b.at(x, y, c),
        )
}

proof fn lemma_interpolated<T: Sample>(
    grid: Grid,
    a: FloatImage<T>,
    b: FloatImage<T>,
    col: Tap<T>,
    row: Tap<T>,
    col2: Tap<T>,
    row2: Tap<T>,
    c: int,
    r: T,
    s: T,
)
    requires
        deterministic::<T>(),
        same_colors(grid, a, b),
        col.low < a.width,
        col.high < a.width,
        row.low < a.height,
        row.high < a.height,
        0 <= c < grid.layout.colors_spec(),
        same_tap(col, col2),
        same_tap(row, row2),
        interpolated_is(a, col, row, c, r),
        interpolated_is(b, col2, row2, c, s),
    ensures
        same(r, s),
{
    let (left, right) = (col.low as int, col.high as int);
    let (above, below) = (row.low as int, row.high as int);
    let (top, bottom, mid) = choose|top: T, bottom: T, mid: T|
        {
            &&& #[trigger] mixed_is(a.at(left, above, c), a.at(right, above, c), col.weight, top)
            &&& #[trigger] mixed_is(a.at(left, below, c), a.at(right, below, c), col.weight, bottom)
            &&& #[trigger] mixed_is(top, bottom, row.weight, mid)
            &&& signed_is(mid, r)
        };
    let (top2, bottom2, mid2) = choose|top: T, bottom: T, mid: T|
        {
            &&& #[trigger] mixed_is(b.at(left, above, c), b.at(right, above, c), col2.weight, top)
            &&& #[trigger] mixed_is(
                b.at(left, below, c),
                b.at(right, below, c),
                col2.weight,
                bottom,
            )
            &&& #[trigger] mixed_is(top, bottom, row2.weight, mid)
            &&& signed_is(mid, s)
        };
    lemma_mixed(
        a.at(left, above, c),
        a.at(right, above, c),
        col.weight,
        b.at(left, above, c),
        b.at(right, above, c),
        col2.weight,
        top,
        top2,
    );
    lemma_mixed(
        a.at(left, below, c),
        a.at(right, below, c),
        col.weight,
        b.at(left, below, c),
        b.at(right, below, c),
        col2.weight,
        bottom,
        bottom2,
    );
    lemma_mixed(top, bottom, row.weight, top2, bottom2, row2.weight, mid, mid2);
    lemma_signed(mid, mid2, r, s);
}

proof fn lemma_capped<T: Sample>(a: T, b: T, one: T, r: T, s: T)
    requires
        deterministic::<T>(),
        same(a, b),
        byte_is(1, one),
        capped_is(a, one, r),
        capped_is(b, one, s),
    ensures
        r == s,
        number(r),
{
}

/// A shifted sample is a number, whatever it was shifted by, as what is not a number is capped.
proof fn lemma_shifted<T: Sample>(a: T, b: T, u: T, v: T, r: T, s: T)
    requires
        deterministic::<T>(),
        same(a, b),
        same(u, v),
        shifted_is(a, u, r),
        shifted_is(b, v, s),
    ensures
        r == s,
        number(r),
{
    let (sum, one, top) = choose|sum: T, one: T, top: T|
        {
            &&& #[trigger] sum_is(a, u, sum)
            &&& #[trigger] byte_is(1, one)
            &&& #[trigger] capped_is(sum, one, top)
            &&& unsigned_is(top, r)
        };
    let (sum2, one2, top2) = choose|sum: T, one: T, top: T|
        {
            &&& #[trigger] sum_is(b, v, sum)
            &&& #[trigger] byte_is(1, one)
            &&& #[trigger] capped_is(sum, one, top)
            &&& unsigned_is(top, s)
        };
    lemma_congruent::<T>();
    assert(one == one2);
    assert(same(sum, sum2));
    lemma_capped(sum, sum2, one, top, top2);
    lemma_unsigned(top, top, r, s);
}

proof fn lemma_real_blend<T: Sample>(x: T, u: T, v: T, r: T, s: T)
    requires
        deterministic::<T>(),
        same(u, v),
        real_blend_is(x, u, r),
        real_blend_is(x, v, s),
    ensures
        r == s,
{
    let a = choose|a: T| #[trigger] signed_is(x, a) && shifted_is(a, u, r);
    let b = choose|a: T| #[trigger] signed_is(x, a) && shifted_is(a, v, s);
    lemma_signed(x, x, a, b);
    lemma_shifted(a, b, u, v, r, s);
}

proof fn lemma_byte_blend<T: Sample>(b: u8, u: T, v: T, r: u8, s: u8)
    requires
        deterministic::<T>(),
        same(u, v),
        byte_blend_is(b, u, r),
        byte_blend_is(b, v, s),
    ensures
        r == s,
{
    let (x, full, unit, p, o, scaled) = choose|x: T, full: T, unit: T, base: T, o: T, scaled: T|
        {
            &&& #[trigger] byte_is(b, x)
            &&& #[trigger] byte_is(u8::MAX, full)
            &&& #[trigger] quotient_is(x, full, unit)
            &&& #[trigger] signed_is(unit, base)
            &&& #[trigger] shifted_is(base, u, o)
            &&& #[trigger] product_is(o, full, scaled)
            &&& saturated_byte_is(scaled, r)
        };
    let (x2, full2, unit2, p2, o2, scaled2) = choose|
        x: T,
        full: T,
        unit: T,
        base: T,
        o: T,
        scaled: T,
    |
        {
            &&& #[trigger] byte_is(b, x)
            &&& #[trigger] byte_is(u8::MAX, full)
            &&& #[trigger] quotient_is(x, full, unit)
            &&& #[trigger] signed_is(unit, base)
            &&& #[trigger] shifted_is(base, v, o)
            &&& #[trigger] product_is(o, full, scaled)
            &&& saturated_byte_is(scaled, s)
        };
    assert(x == x2 && full == full2);
    lemma_signed(unit, unit2, p, p2);
    lemma_shifted(p, p2, u, v, o, o2);
    assert(scaled == scaled2);
    lemma_saturated_byte(scaled, r, s);
}

proof fn lemma_word_blend<T: Sample>(b: u16, u: T, v: T, r: u16, s: u16)
    requires
        deterministic::<T>(),
        same(u, v),
        word_blend_is(b, u, r),
        word_blend_is(b, v, s),
    ensures
        r == s,
{
    let (x, full, unit, p, o, scaled) = choose|x: T, full: T, unit: T, base: T, o: T, scaled: T|
        {
            &&& #[trigger] word_is(b, x)
            &&& #[trigger] word_is(u16::MAX, full)
            &&& #[trigger] quotient_is(x, full, unit)
            &&& #[trigger] signed_is(unit, base)
            &&& #[trigger] shifted_is(base, u, o)
            &&& #[trigger] product_is(o, full, scaled)
            &&& saturated_word_is(scaled, r)
        };
    let (x2, full2, unit2, p2, o2, scaled2) = choose|
        x: T,
        full: T,
        unit: T,
        base: T,
        o: T,
        scaled: T,
    |
        {
            &&& #[trigger] word_is(b, x)
            &&& #[trigger] word_is(u16::MAX, full)
            &&& #[trigger] quotient_is(x, full, unit)
            &&& #[trigger] signed_is(unit, base)
            &&& #[trigger] shifted_is(base, v, o)
            &&& #[trigger] product_is(o, full, scaled)
            &&& saturated_word_is(scaled, s)
        };
    assert(x == x2 && full == full2);
    lemma_signed(unit, unit2, p, p2);
    lemma_shifted(p, p2, u, v, o, o2);
    assert(scaled == scaled2);
    lemma_saturated_word(scaled, r, s);
}

proof fn lemma_spread<S, T: Sample>(
    grid: Grid,
    residual: FloatImage<T>,
    other: FloatImage<T>,
    blend: spec_fn(S, T, S) -> bool,
    before: Seq<S>,
    a: Seq<S>,
    b: Seq<S>,
)
    requires
        deterministic::<T>(),
        forall|s: S, u: T, v: T, o: S, p: S| #[trigger]
            blend(s, u, o) && #[trigger] blend(s, v, p) && same(u, v) ==> o == p,
        same_colors(grid, residual, other),
        spread(grid, residual, blend, before, a),
        spread(grid, other, blend, before, b),
    ensures
        a == b,
{
    if grid.width > 0 && grid.height > 0 {
        let (cols, rows) = choose|cols: Seq<Tap<T>>, rows: Seq<Tap<T>>|
            {
                &&& #[trigger] axis_is(residual.width, grid.width, cols)
                &&& #[trigger] axis_is(residual.height, grid.height, rows)
                &&& forall|j: int|
                    0 <= j < before.len() ==> sample_changes(
                        grid,
                        residual,
                        cols,
                        rows,
                        blend,
                        j,
                        before[j],
                        #[trigger] a[j],
                    )
            };
        let (cols2, rows2) = choose|cols: Seq<Tap<T>>, rows: Seq<Tap<T>>|
            {
                &&& #[trigger] axis_is(other.width, grid.width, cols)
                &&& #[trigger] axis_is(other.height, grid.height, rows)
                &&& forall|j: int|
                    0 <= j < before.len() ==> sample_changes(
                        grid,
                        other,
                        cols,
                        rows,
                        blend,
                        j,
                        before[j],
                        #[trigger] b[j],
                    )
            };
        taps_are_determined(residual.width, grid.width, cols, cols2);
        taps_are_determined(residual.height, grid.height, rows, rows2);
        assert forall|j: int| 0 <= j < before.len() implies a[j] == b[j] by {
            assert(sample_changes(grid, residual, cols, rows, blend, j, before[j], a[j]));
            assert(sample_changes(grid, other, cols2, rows2, blend, j, before[j], b[j]));
            if grid.colored(j) {
                lemma_sample_place(grid, j);
                let col = cols[grid.column(j)];
                let row = rows[grid.row(j)];
                let col2 = cols2[grid.column(j)];
                let row2 = rows2[grid.row(j)];
                let c = grid.channel(j);
                let v = choose|v: T| #[trigger]
                    interpolated_is(residual, col, row, c, v) && blend(before[j], v, a[j]);
                let w = choose|v: T| #[trigger]
                    interpolated_is(other, col2, row2, c, v) && blend(before[j], v, b[j]);
                taps_are_neighbors(residual.width, grid.width, cols, grid.column(j));
                taps_are_neighbors(residual.height, grid.height, rows, grid.row(j));
                lemma_interpolated(grid, residual, other, col, row, col2, row2, c, v, w);
            }
        }
        assert(a =~= b);
    }
}

/// The same samples, in the same format.
pub open spec fn same_samples<T>(a: Samples<T>, b: Samples<T>) -> bool {
    match (a, b) {
        (Samples::Byte(r), Samples::Byte(s)) => r@ == s@,
        (Samples::Word(r), Samples::Word(s)) => r@ == s@,
        (Samples::Real(r), Samples::Real(s)) => r@ == s@,
        _ => false,
    }
}

/// Only the colours of a residual matter: residuals of the same size with the same samples in the
/// channels that the picture has colours for give the same picture.
pub proof fn only_colors_matter<T: Sample>(
    before: Picture<T>,
    residual: FloatImage<T>,
    other: FloatImage<T>,
    a: Picture<T>,
    b: Picture<T>,
)
    requires
        deterministic::<T>(),
        same_colors(before.grid, residual, other),
        residual_applied(before, residual, a),
        residual_applied(before, other, b),
    ensures
        a.grid == b.grid,
        same_samples(a.samples, b.samples),
{
    match (before.samples, a.samples, b.samples) {
        (Samples::Byte(s), Samples::Byte(r), Samples::Byte(t)) => {
            let blend = |s: u8, v: T, o: u8| byte_blend_is(s, v, o);
            assert forall|s: u8, u: T, v: T, o: u8, p: u8| #[trigger]
                blend(s, u, o) && #[trigger] blend(s, v, p) && same(u, v) implies o == p by {
                lemma_byte_blend(s, u, v, o, p);
            }
            lemma_spread(before.grid, residual, other, blend, s@, r@, t@);
        },
        (Samples::Word(s), Samples::Word(r), Samples::Word(t)) => {
            let blend = |s: u16, v: T, o: u16| word_blend_is(s, v, o);
            assert forall|s: u16, u: T, v: T, o: u16, p: u16| #[trigger]
                blend(s, u, o) && #[trigger] blend(s, v, p) && same(u, v) implies o == p by {
                lemma_word_blend(s, u, v, o, p);
            }
            lemma_spread(before.grid, residual, other, blend, s@, r@, t@);
        },
        (Samples::Real(s), Samples::Real(r), Samples::Real(t)) => {
            let blend = |s: T, v: T, o: T| real_blend_is(s, v, o);
            assert forall|s: T, u: T, v: T, o: T, p: T| #[trigger]
                blend(s, u, o) && #[trigger] blend(s, v, p) && same(u, v) implies o == p by {
                lemma_real_blend(s, u, v, o, p);
            }
            lemma_spread(before.grid, residual, other, blend, s@, r@, t@);
        },
        _ => {},
    }
}

/// Adding the same residual to the same picture always gives the same picture.
pub proof fn applying_is_determined<T: Sample>(
    before: Picture<T>,
    residual: FloatImage<T>,
    a: Picture<T>,
    b: Picture<T>,
)
    requires
        deterministic::<T>(),
        residual_applied(before, residual, a),
        residual_applied(before, residual, b),
    ensures
        a.grid == b.grid,
        same_samples(a.samples, b.samples),
{
    only_colors_matter(before, residual, residual, a, b);
}

/// `f` holds the samples of a picture with four real samples per pixel, where `value` gives the
/// sample of a bit pattern.
pub open spec fn samples_of<T: Sample>(
    value: spec_fn(u32) -> T,
    img: DynamicImage,
    f: FloatImage<T>,
) -> bool {
    &&& f.width == image_size(img).0
    &&& f.height == image_size(img).1
    &&& f.channels == 4
    &&& forall|x: int, y: int, c: int|
        0 <= x < f.width && 0 <= y < f.height && 0 <= c < 4 ==> same(
            #[trigger] f.at(x, y, c),
            value(image_pixels(img)[y * f.width + x][c]),
        )
}

/// An oversized residual is applied like its shrunk form: fitting it to the picture and adding it
/// gives the same picture as doing so with what it was shrunk to.
pub proof fn oversized_residuals_apply_like_shrunk_ones<T: Sample>(
    value: spec_fn(u32) -> T,
    residual: DynamicImage,
    shrunk: DynamicImage,
    fitted: DynamicImage,
    f: FloatImage<T>,
    g: FloatImage<T>,
    before: Picture<T>,
    a: Picture<T>,
    b: Picture<T>,
)
    requires
        deterministic::<T>(),
        fitted_from(residual, before.grid.width, before.grid.height, shrunk),
        fitted_from(shrunk, before.grid.width, before.grid.height, fitted),
        samples_of(value, shrunk, f),
        samples_of(value, fitted, g),
        residual_applied(before, f, a),
        residual_applied(before, g, b),
    ensures
        a.grid == b.grid,
        same_samples(a.samples, b.samples),
{
    fitting_is_idempotent(
        residual,
        before.grid.width,
        before.grid.height,
        shrunk,
        fitted,
    );
    assert forall|x: int, y: int, c: int|
        0 <= x < f.width && 0 <= y < f.height && 0 <= c
            < before.grid.layout.colors_spec() implies same(
        #[trigger] f.at(x, y, c),
        g.at(x, y, c),
    ) by {
        assert(same(g.at(x, y, c), value(image_pixels(fitted)[y * g.width + x][c])));
    }
    only_colors_matter(before, f, g, a, b);
}

/// Sides with the same quotient are stretched alike.
proof fn lemma_stretched<T: Sample>(
    longer: usize,
    shorter: usize,
    a: usize,
    longer2: usize,
    shorter2: usize,
    b: usize,
)
    requires
        deterministic::<T>(),
        forall|p: T, q: T| #[trigger]
            sides_quotient_is(longer, shorter, p) && #[trigger] sides_quotient_is(
                longer2,
                shorter2,
                q,
            ) ==> same(p, q),
        stretched_is::<T>(longer, shorter, a),
        stretched_is::<T>(longer2, shorter2, b),
    ensures
        a == b,
{
    let (n, d, ratio, side, product, whole) = choose|
        n: T,
        d: T,
        ratio: T,
        side: T,
        product: T,
        whole: nat,
    |
        {
            &&& #[trigger] integer_is(longer as nat, n)
            &&& #[trigger] integer_is(shorter as nat, d)
            &&& #[trigger] quotient_is(n, d, ratio)
            &&& #[trigger] word_is(256, side)
            &&& #[trigger] product_is(ratio, side, product)
            &&& #[trigger] truncated_is(product, 3, whole)
            &&& a == (if whole <= usize::MAX {
                whole as int
            } else {
                usize::MAX as int
            })
        };
    let (n2, d2, ratio2, side2, product2, whole2) = choose|
        n: T,
        d: T,
        ratio: T,
        side: T,
        product: T,
        whole: nat,
    |
        {
            &&& #[trigger] integer_is(longer2 as nat, n)
            &&& #[trigger] integer_is(shorter2 as nat, d)
            &&& #[trigger] quotient_is(n, d, ratio)
            &&& #[trigger] word_is(256, side)
            &&& #[trigger] product_is(ratio, side, product)
            &&& #[trigger] truncated_is(product, 3, whole)
            &&& b == (if whole <= usize::MAX {
                whole as int
            } else {
                usize::MAX as int
            })
        };
    lemma_congruent::<T>();
    assert(sides_quotient_is(longer, shorter, ratio));
    assert(sides_quotient_is(longer2, shorter2, ratio2));
    assert(same(product, product2));
    lemma_truncated(product, product2, 3, whole, whole2);
}

/// Two pictures have the same aspect ratio: the quotients of their sides are the same.
pub open spec fn same_aspect<T: Sample>(size: (usize, usize), other: (usize, usize)) -> bool {
    forall|p: T, q: T| #[trigger]
        aspect_is(size.0, size.1, p) && #[trigger] aspect_is(other.0, other.1, q) ==> same(p, q)
}

/// The long side of a padded residual is settled by the aspect ratio of the picture: two pictures
/// with the same aspect ratio have the same one.
pub proof fn long_side_follows_the_ratio<T: Sample>(
    size: (usize, usize),
    a: usize,
    other: (usize, usize),
    b: usize,
)
    requires
        deterministic::<T>(),
        same_aspect::<T>(size, other),
        long_side_is::<T>(size.0, size.1, a),
        long_side_is::<T>(other.0, other.1, b),
    ensures
        a == b,
{
    let (longer, shorter) = if size.0 > size.1 {
        (size.0, size.1)
    } else {
        (size.1, size.0)
    };
    let (longer2, shorter2) = if other.0 > other.1 {
        (other.0, other.1)
    } else {
        (other.1, other.0)
    };
    assert forall|p: T, q: T| #[trigger]
        sides_quotient_is(longer, shorter, p) && #[trigger] sides_quotient_is(
            longer2,
            shorter2,
            q,
        ) implies same(p, q) by {
        assert(aspect_is(size.0, size.1, p) && aspect_is(other.0, other.1, q));
    }
    lemma_stretched::<T>(longer, shorter, a, longer2, shorter2, b);
}

/// The long side of a padded residual is settled by the sides of the picture: two calls for the
/// same picture have the same one.
pub proof fn long_side_is_determined<T: Sample>(width: usize, height: usize, a: usize, b: usize)
    requires
        deterministic::<T>(),
        long_side_is::<T>(width, height, a),
        long_side_is::<T>(width, height, b),
    ensures
        a == b,
{
    assert forall|p: T, q: T| #[trigger] aspect_is(width, height, p) && #[trigger] aspect_is(
        width,
        height,
        q,
    ) implies same(p, q) by {
        if width > height {
            lemma_quotient(width, height, p, q);
        } else {
            lemma_quotient(height, width, p, q);
        }
    }
    long_side_follows_the_ratio::<T>((width, height), a, (width, height), b);
}

proof fn lemma_quotient<T: Sample>(longer: usize, shorter: usize, r: T, s: T)
    requires
        deterministic::<T>(),
        sides_quotient_is(longer, shorter, r),
        sides_quotient_is(longer, shorter, s),
    ensures
        same(r, s),
{
    lemma_congruent::<T>();
    assert forall|n: nat, p: T, q: T| #[trigger] integer_is(n, p) && #[trigger] integer_is(
        n,
        q,
    ) implies same(p, q) by {
        lemma_integer(n, p, q);
    }
}

/// A residual is padded in one way for a picture of a given size: to the same length, with the
/// same elements.
pub proof fn padding_is_determined<T: Sample>(
    residual: Seq<T>,
    means: Seq<T>,
    width: usize,
    height: usize,
    a: usize,
    t: Tensor<T>,
    b: usize,
    u: Tensor<T>,
)
    requires
        deterministic::<T>(),
        long_side_is::<T>(width, height, a),
        long_side_is::<T>(width, height, b),
        padded(residual, means, width > height, a as int, t),
        padded(residual, means, width > height, b as int, u),
    ensures
        a == b,
        t.shape@ == u.shape@,
        t.data@ == u.data@,
{
    long_side_is_determined::<T>(width, height, a, b);
    assert(t.shape@ =~= u.shape@);
    assert(t.data@ =~= u.data@);
}

/// The same shape and the same elements, or neither is there.
pub open spec fn same_tensors<T>(a: Option<Tensor<T>>, b: Option<Tensor<T>>) -> bool {
    match (a, b) {
        (Some(t), Some(u)) => t.shape@ == u.shape@ && t.data@ == u.data@,
        (None, None) => true,
        _ => false,
    }
}

/// `r` is what removing the boundary artifact gives, with the long side `long`.
proof fn lemma_removed<T: Sample>(
    residual: Tensor<T>,
    means: Vec<T>,
    size: (usize, usize),
    variant: Variant,
    r: Option<Tensor<T>>,
) -> (long: usize)
    requires
        call_ensures(remove_boundary_artifact::<T>, (&residual, size, variant, &means), r),
    ensures
        long_side_is::<T>(size.0, size.1, long),
        r is Some <==> paddable(long),
        r matches Some(t) ==> padded(residual.data@, means@, size.0 > size.1, long as int, t),
{
    choose|long: usize|
        {
            &&& #[trigger] long_side_is::<T>(size.0, size.1, long)
            &&& match r {
                Some(t) => paddable(long) && padded(
                    residual.data@,
                    means@,
                    size.0 > size.1,
                    long as int,
                    t,
                ),
                None => !paddable(long),
            }
        }
}

/// The boundary artifact is removed exactly where the long side is at least 256 and can be
/// addressed, and the result is as long as that, along the width for a picture wider than high and
/// along the height for any other.
pub proof fn removal_goes_by_the_long_side<T: Sample>(
    residual: Tensor<T>,
    means: Vec<T>,
    size: (usize, usize),
    variant: Variant,
    r: Option<Tensor<T>>,
    long: usize,
)
    requires
        deterministic::<T>(),
        call_ensures(long_side::<T>, (size.0, size.1), long),
        call_ensures(remove_boundary_artifact::<T>, (&residual, size, variant, &means), r),
    ensures
        r is Some <==> 256 <= long && 768 * long <= isize::MAX,
        r matches Some(t) ==> t.shape@ == (if size.0 > size.1 {
            seq![1usize, 3usize, 256usize, long]
        } else {
            seq![1usize, 3usize, long, 256usize]
        }),
{
    let l = lemma_removed(residual, means, size, variant, r);
    long_side_is_determined::<T>(size.0, size.1, l, long);
    if let Some(t) = r {
        assert(t.shape@ =~= (if size.0 > size.1 {
            seq![1usize, 3usize, 256usize, long]
        } else {
            seq![1usize, 3usize, long, 256usize]
        }));
    }
}

/// The variant of the model is ignored, and the size of the picture counts through its aspect ratio
/// only: for a picture `k` times as large, with the same aspect ratio as samples, and for any two
/// variants, the boundary artifact is removed alike.
pub proof fn only_the_ratio_matters<T: Sample>(
    residual: Tensor<T>,
    means: Vec<T>,
    k: nat,
    size: (usize, usize),
    larger: (usize, usize),
    variant: Variant,
    other: Variant,
    a: Option<Tensor<T>>,
    b: Option<Tensor<T>>,
)
    requires
        deterministic::<T>(),
        k >= 1,
        larger.0 == k * size.0,
        larger.1 == k * size.1,
        same_aspect::<T>(larger, size),
        call_ensures(remove_boundary_artifact::<T>, (&residual, larger, variant, &means), a),
        call_ensures(remove_boundary_artifact::<T>, (&residual, size, other, &means), b),
    ensures
        same_tensors(a, b),
{
    assert(larger.0 > larger.1 <==> size.0 > size.1) by (nonlinear_arith)
        requires
            k >= 1,
            larger.0 == k * size.0,
            larger.1 == k * size.1,
    ;
    let l = lemma_removed(residual, means, larger, variant, a);
    let m = lemma_removed(residual, means, size, other, b);
    long_side_follows_the_ratio::<T>(larger, l, size, m);
    if let (Some(t), Some(u)) = (a, b) {
        assert(t.shape@ =~= u.shape@);
        assert(t.data@ =~= u.data@);
    }
}

/// Channels are kept apart: where two residuals agree on a channel and so do its means, the
/// boundary artifact is removed from it alike, whatever the other channels hold.
pub proof fn channels_are_independent<T: Sample>(
    residual: Tensor<T>,
    means: Vec<T>,
    other: Tensor<T>,
    other_means: Vec<T>,
    size: (usize, usize),
    variant: Variant,
    c: int,
    a: Option<Tensor<T>>,
    b: Option<Tensor<T>>,
)
    requires
        deterministic::<T>(),
        0 <= c < CHANNELS,
        means@[c] == other_means@[c],
        agree_on_channel(residual.data@, other.data@, c),
        call_ensures(remove_boundary_artifact::<T>, (&residual, size, variant, &means), a),
        call_ensures(remove_boundary_artifact::<T>, (&other, size, variant, &other_means), b),
    ensures
        match (a, b) {
            (Some(t), Some(u)) => {
                &&& t.shape@ == u.shape@
                &&& forall|y: int, x: int|
                    0 <= y < t.shape@[2] && 0 <= x < t.shape@[3] ==> #[trigger] element(t, c, y, x)
                        == element(u, c, y, x)
            },
            (None, None) => true,
            _ => false,
        },
{
    let l = lemma_removed(residual, means, size, variant, a);
    let m = lemma_removed(other, other_means, size, variant, b);
    long_side_is_determined::<T>(size.0, size.1, l, m);
    if let (Some(t), Some(u)) = (a, b) {
        assert(t.shape@ =~= u.shape@);
        padding_keeps_channels_apart(
            residual.data@,
            means@,
            other.data@,
            other_means@,
            size.0 > size.1,
            l as int,
            c,
            t,
            u,
        );
    }
}

/// The quotient of a side by itself is 1, 1 times the value of a word is that value, and rounding
/// the value of a word towards zero gives the word. Floating-point arithmetic has it so.
pub open spec fn unital<T: Sample>() -> bool {
    &&& forall|n: usize, q: T| n > 0 && #[trigger] sides_quotient_is(n, n, q) ==> byte_is(1, q)
    &&& forall|q: T, n: u16, x: T, p: T| #[trigger]
        byte_is(1, q) && #[trigger] word_is(n, x) && #[trigger] product_is(q, x, p) ==> p == x
    &&& forall|n: u16, x: T, k: nat| #[trigger]
        word_is(n, x) && #[trigger] truncated_is(x, 3, k) ==> k == n
}

/// The long side for a picture with equal sides is 256.
pub proof fn equal_sides_are_not_stretched<T: Sample>(side: usize, long: usize)
    requires
        unital::<T>(),
        side > 0,
        long_side_is::<T>(side, side, long),
    ensures
        long == SIDE,
{
    let (a, b, ratio, word, product, whole) = choose|
        a: T,
        b: T,
        ratio: T,
        word: T,
        product: T,
        whole: nat,
    |
        {
            &&& #[trigger] integer_is(side as nat, a)
            &&& #[trigger] integer_is(side as nat, b)
            &&& #[trigger] quotient_is(a, b, ratio)
            &&& #[trigger] word_is(256, word)
            &&& #[trigger] product_is(ratio, word, product)
            &&& #[trigger] truncated_is(product, 3, whole)
            &&& long == (if whole <= usize::MAX {
                whole as int
            } else {
                usize::MAX as int
            })
        };
    assert(sides_quotient_is(side, side, ratio));
    assert(byte_is(1, ratio));
    assert(product == word);
    assert(whole == 256);
}

/// Wide and tall pictures are treated alike: removing the boundary artifact from a transposed
/// residual for a transposed picture gives the transposed result.
pub proof fn removal_commutes_with_transposition<T: Sample>(
    residual: Tensor<T>,
    transposed: Tensor<T>,
    means: Vec<T>,
    width: usize,
    height: usize,
    variant: Variant,
    a: Option<Tensor<T>>,
    b: Option<Tensor<T>>,
)
    requires
        deterministic::<T>(),
        unital::<T>(),
        width >= 1,
        height >= 1,
        forall|c: int| 0 <= c < CHANNELS ==> #[trigger] transposes_channel(
            residual.data@,
            transposed.data@,
            c,
        ),
        call_ensures(
            remove_boundary_artifact::<T>,
            (&residual, (width, height), variant, &means),
            a,
        ),
        call_ensures(
            remove_boundary_artifact::<T>,
            (&transposed, (height, width), variant, &means),
            b,
        ),
    ensures
        match (a, b) {
            (Some(t), Some(u)) => {
                &&& u.shape@ == seq![t.shape@[0], t.shape@[1], t.shape@[3], t.shape@[2]]
                &&& forall|c: int, y: int, x: int|
                    0 <= c < CHANNELS && 0 <= y < t.shape@[2] && 0 <= x < t.shape@[3]
                        ==> #[trigger] element(t, c, y, x) == element(u, c, x, y)
            },
            (None, None) => true,
            _ => false,
        },
{
    let l = lemma_removed(residual, means, (width, height), variant, a);
    let m = lemma_removed(transposed, means, (height, width), variant, b);
    long_side_ignores_transposition::<T>(height, width, m);
    long_side_is_determined::<T>(width, height, l, m);
    if width == height {
        equal_sides_are_not_stretched::<T>(width, l);
    }
    if let (Some(t), Some(u)) = (a, b) {
        let wide = width > height;
        let tall = height > width;
        assert(u.shape@ =~= seq![t.shape@[0], t.shape@[1], t.shape@[3], t.shape@[2]]);
        assert forall|c: int, y: int, x: int|
            0 <= c < CHANNELS && 0 <= y < t.shape@[2] && 0 <= x < t.shape@[3] implies #[trigger]
            element(t, c, y, x) == element(u, c, x, y) by {
            assert(transposes_channel(residual.data@, transposed.data@, c));
            padding_commutes_with_transposition(
                residual.data@,
                transposed.data@,
                means@,
                width,
                height,
                l as int,
                c,
                y,
                x,
            );
            padded_elements(residual.data@, means@, wide, l as int, t, c, y, x);
            padded_elements(transposed.data@, means@, tall, l as int, u, c, x, y);
        }
    }
}

/// A picture becomes one tensor, and a tensor one picture, up to the form of what is not a number.
pub proof fn tensors_are_determined<T: Sample>(
    size: u32,
    samples: Seq<T>,
    t: Tensor<T>,
    u: Tensor<T>,
    img: FloatImage<T>,
    other: FloatImage<T>,
)
    requires
        deterministic::<T>(),
        tensor_of(size, samples, t),
        tensor_of(size, samples, u),
        picture_of(t, img),
        picture_of(u, other),
    ensures
        t.shape@ == u.shape@,
        t.data@.len() == u.data@.len(),
        forall|i: int| 0 <= i < t.data@.len() ==> same(#[trigger] t.data@[i], u.data@[i]),
        img.width == other.width,
        img.height == other.height,
        img.samples@.len() == other.samples@.len(),
        forall|j: int|
            0 <= j < img.samples@.len() ==> same(#[trigger] img.samples@[j], other.samples@[j]),
{
    assert(t.shape@ =~= u.shape@);
    assert forall|i: int| 0 <= i < t.data@.len() implies same(
        #[trigger] t.data@[i],
        u.data@[i],
    ) by {
        let f = samples[interleaved_index(size * size, i)];
        lemma_signed(f, f, t.data@[i], u.data@[i]);
    }
    assert forall|j: int| 0 <= j < img.samples@.len() implies same(
        #[trigger] img.samples@[j],
        other.samples@[j],
    ) by {
        let n = size * size;
        planar_order_round_trips(n, j);
        let i = planar_index(n, j);
        assert(same(t.data@[i], u.data@[i]));
        lemma_unsigned(t.data@[i], u.data@[i], img.samples@[j], other.samples@[j]);
    }
}

/// Twice `f` lies between a half and 2: `f` lies between a quarter and 1.
pub open spec fn upper<T: Sample>(half: T, f: T) -> bool {
    forall|two: T, double: T| #[trigger]
        byte_is(2, two) && #[trigger] product_is(f, two, double) ==> at_most_is(half, double, true)
            && at_most_is(double, two, true)
}

/// Between a half and 2 nothing is rounded: taking 1 away and adding it again leads back, and so
/// does halving what was doubled to get there. Floating-point arithmetic has it so.
pub open spec fn exact_near_one<T: Sample>() -> bool {
    &&& forall|half: T, one: T, two: T, x: T, d: T, r: T|
        {
            &&& #[trigger] half_is(half)
            &&& #[trigger] byte_is(1, one)
            &&& #[trigger] byte_is(2, two)
            &&& at_most_is(half, x, true)
            &&& at_most_is(x, two, true)
            &&& #[trigger] difference_is(x, one, d)
            &&& #[trigger] sum_is(d, one, r)
        } ==> r == x
    &&& forall|half: T, two: T, f: T, x: T, q: T|
        {
            &&& #[trigger] half_is(half)
            &&& #[trigger] byte_is(2, two)
            &&& at_most_is(half, x, true)
            &&& at_most_is(x, two, true)
            &&& #[trigger] product_is(f, two, x)
            &&& #[trigger] quotient_is(x, two, q)
        } ==> q == f
}

/// A picture that goes into a tensor and comes out again keeps every sample between a quarter and
/// 1.
pub proof fn upper_samples_survive_the_tensor<T: Sample>(
    half: T,
    size: u32,
    samples: Seq<T>,
    t: Tensor<T>,
    img: FloatImage<T>,
)
    requires
        functional::<T>(),
        exact_near_one::<T>(),
        half_is(half),
        tensor_of(size, samples, t),
        picture_of(t, img),
    ensures
        img.width == size,
        img.height == size,
        img.samples@.len() == samples.len(),
        forall|j: int|
            0 <= j < samples.len() && upper(half, samples[j]) ==> #[trigger] img.samples@[j]
                == samples[j],
{
    pictures_survive_the_tensor(size, samples, t, img);
    assert forall|j: int| 0 <= j < samples.len() && upper(half, samples[j]) implies #[trigger]
        img.samples@[j] == samples[j] by {
        lemma_renormalized(half, samples[j], img.samples@[j]);
    }
}

proof fn lemma_renormalized<T: Sample>(half: T, f: T, r: T)
    requires
        functional::<T>(),
        exact_near_one::<T>(),
        half_is(half),
        upper(half, f),
        renormalized(f, r),
    ensures
        r == f,
{
    let v = choose|v: T| #[trigger] signed_is(f, v) && unsigned_is(v, r);
    let (two, double, one) = choose|two: T, double: T, one: T|
        {
            &&& #[trigger] byte_is(2, two)
            &&& #[trigger] product_is(f, two, double)
            &&& #[trigger] byte_is(1, one)
            &&& difference_is(double, one, v)
        };
    let (one2, shifted, two2) = choose|one: T, shifted: T, two: T|
        {
            &&& #[trigger] byte_is(1, one)
            &&& #[trigger] sum_is(v, one, shifted)
            &&& #[trigger] byte_is(2, two)
            &&& quotient_is(shifted, two, r)
        };
    assert(one == one2 && two == two2);
    assert(shifted == double);
}

} // verus!
