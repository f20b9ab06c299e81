//! What the computations amount to in real numbers.
//!
//! Samples are rounded in use. Where they are not, every result is the one that a formula over the
//! real numbers gives. The laws here state these formulas of the functions themselves, for any type
//! of samples whose operators are exact.
use crate::sample::{
    base_is, byte_is, capped, clamped, convert_from_0_1_to_neg1_1, convert_from_neg1_1_to_0_1,
    difference_is, digit_is, halved, integer, integer_is, power, power_is, product_is, quotient_is,
    reaches, saturated_byte, saturated_byte_is, saturated_word, saturated_word_is, signed_is,
    sum_is, truncated, truncated_is, unsigned_is, word_is, Sample,
};
use std::ops::{Add, Div, Mul, Sub};
use vstd::prelude::*;

verus! {

/// Every sample has a value, and the operators, the comparisons and the conversions from integers
/// are those of the values.
pub open spec fn exact<T: Sample>(value: spec_fn(T) -> real) -> bool {
    &&& forall|a: T, b: T, r: T| #[trigger]
        call_ensures(<T as Add<T>>::add, (a, b), r) ==> value(r) == value(a) + value(b)
    &&& forall|a: T, b: T, r: T| #[trigger]
        call_ensures(<T as Sub<T>>::sub, (a, b), r) ==> value(r) == value(a) - value(b)
    &&& forall|a: T, b: T, r: T| #[trigger]
        call_ensures(<T as Mul<T>>::mul, (a, b), r) ==> value(r) == value(a) * value(b)
    &&& forall|a: T, b: T, r: T| #[trigger]
        call_ensures(<T as Div<T>>::div, (a, b), r) && value(b) != 0 as real ==> value(r) * value(b)
            == value(a)
    &&& forall|a: T, b: T, c: bool| #[trigger]
        call_ensures(<T as PartialOrd<T>>::lt, (&a, &b), c) ==> c == (value(a) < value(b))
    &&& forall|a: T, b: T, c: bool| #[trigger]
        call_ensures(<T as PartialOrd<T>>::gt, (&a, &b), c) ==> c == (value(a) > value(b))
    &&& forall|a: T, b: T, c: bool| #[trigger]
        call_ensures(<T as PartialOrd<T>>::le, (&a, &b), c) ==> c == (value(a) <= value(b))
    &&& forall|n: u8, r: T| #[trigger]
        call_ensures(<T as From<u8>>::from, (n,), r) ==> value(r) == n as real
    &&& forall|n: u16, r: T| #[trigger]
        call_ensures(<T as From<u16>>::from, (n,), r) ==> value(r) == n as real
}

pub(crate) proof fn lemma_signed_value<T: Sample>(value: spec_fn(T) -> real, f: T, r: T)
    requires
        exact(value),
        signed_is(f, r),
    ensures
        value(r) == 2 as real * value(f) - 1 as real,
{
    let (two, double, one) = choose|two: T, double: T, one: T|
        {
            &&& #[trigger] byte_is(2, two)
            &&& #[trigger] product_is(f, two, double)
            &&& #[trigger] byte_is(1, one)
            &&& difference_is(double, one, r)
        };
    let (a, b) = (value(f), value(two));
    assert(a * b == 2 as real * a) by (nonlinear_arith)
        requires
            b == 2 as real,
    ;
}

pub(crate) proof fn lemma_unsigned_value<T: Sample>(value: spec_fn(T) -> real, f: T, r: T)
    requires
        exact(value),
        unsigned_is(f, r),
    ensures
        2 as real * value(r) == value(f) + 1 as real,
{
    let (one, shifted, two) = choose|one: T, shifted: T, two: T|
        {
            &&& #[trigger] byte_is(1, one)
            &&& #[trigger] sum_is(f, one, shifted)
            &&& #[trigger] byte_is(2, two)
            &&& quotient_is(shifted, two, r)
        };
    let (a, b) = (value(r), value(two));
    assert(a * b == 2 as real * a) by (nonlinear_arith)
        requires
            b == 2 as real,
    ;
}

/// Re-normalising to [-1, 1] doubles a sample and takes 1 away.
pub proof fn value_taken_to_neg1_1<T: Sample>(value: spec_fn(T) -> real, f: T, r: T)
    requires
        exact(value),
        call_ensures(convert_from_0_1_to_neg1_1::<T>, (f,), r),
    ensures
        value(r) == 2 as real * value(f) - 1 as real,
{
    lemma_signed_value(value, f, r);
}

/// Re-normalising to [0, 1] adds 1 to a sample and halves it.
pub proof fn value_taken_to_0_1<T: Sample>(value: spec_fn(T) -> real, f: T, r: T)
    requires
        exact(value),
        call_ensures(convert_from_neg1_1_to_0_1::<T>, (f,), r),
    ensures
        2 as real * value(r) == value(f) + 1 as real,
{
    lemma_unsigned_value(value, f, r);
}

/// The two re-normalisations undo each other.
pub proof fn renormalizing_there_and_back<T: Sample>(
    value: spec_fn(T) -> real,
    f: T,
    there: T,
    back: T,
)
    requires
        exact(value),
        ({
            ||| call_ensures(convert_from_0_1_to_neg1_1::<T>, (f,), there) && call_ensures(
                convert_from_neg1_1_to_0_1::<T>,
                (there,),
                back,
            )
            ||| call_ensures(convert_from_neg1_1_to_0_1::<T>, (f,), there) && call_ensures(
                convert_from_0_1_to_neg1_1::<T>,
                (there,),
                back,
            )
        }),
    ensures
        value(back) == value(f),
{
    if call_ensures(convert_from_0_1_to_neg1_1::<T>, (f,), there) && call_ensures(
        convert_from_neg1_1_to_0_1::<T>,
        (there,),
        back,
    ) {
        lemma_signed_value(value, f, there);
        lemma_unsigned_value(value, there, back);
    } else {
        lemma_unsigned_value(value, f, there);
        lemma_signed_value(value, there, back);
    }
}

/// Capping gives the smaller of the two: one of them, and at most both.
pub proof fn value_capped<T: Sample>(value: spec_fn(T) -> real, a: T, b: T, r: T)
    requires
        exact(value),
        call_ensures(capped::<T>, (a, b), r),
    ensures
        r == a || r == b,
        value(r) <= value(a),
        value(r) <= value(b),
{
}

/// Clamping gives the nearest value between the bounds: the value itself where it lies between
/// them, else the bound that it is beyond.
pub proof fn value_clamped<T: Sample>(value: spec_fn(T) -> real, v: T, low: T, high: T, r: T)
    requires
        exact(value),
        value(low) <= value(high),
        call_ensures(clamped::<T>, (v, low, high), r),
    ensures
        value(low) <= value(r) <= value(high),
        value(low) <= value(v) <= value(high) ==> r == v,
        value(v) < value(low) ==> r == low,
        value(v) > value(high) ==> r == high,
{
}

/// Capping and clamping go by the comparisons alone: what a comparison does not hold of, such as a
/// NaN, is capped and not clamped.
pub proof fn comparisons_decide<T: Sample>(v: T, low: T, high: T, top: T, held: T)
    requires
        call_ensures(capped::<T>, (v, high), top),
        call_ensures(clamped::<T>, (v, low, high), held),
    ensures
        (forall|c: bool| call_ensures(<T as PartialOrd<T>>::lt, (&v, &high), c) ==> !c) ==> top
            == high,
        (forall|c: bool| call_ensures(<T as PartialOrd<T>>::lt, (&v, &high), c) ==> c) ==> top == v,
        (forall|c: bool| call_ensures(<T as PartialOrd<T>>::lt, (&v, &low), c) ==> !c) && (forall|
            c: bool,
        | call_ensures(<T as PartialOrd<T>>::gt, (&v, &high), c) ==> !c) ==> held == v,
{
}

proof fn lemma_base_value<T: Sample>(value: spec_fn(T) -> real, r: T)
    requires
        exact(value),
        base_is(r),
    ensures
        value(r) == 65536 as real,
{
    let n = choose|n: T| #[trigger] word_is(256, n) && product_is(n, n, r);
    let a = value(n);
    assert(a * a == 65536 as real) by (nonlinear_arith)
        requires
            a == 256 as real,
    ;
}

pub(crate) proof fn lemma_integer_value<T: Sample>(value: spec_fn(T) -> real, n: nat, r: T)
    requires
        exact(value),
        n < 0x1_0000_0000,
        integer_is(n, r),
    ensures
        value(r) == n as real,
{
    if n >= 65536 {
        let (leading, base, high, low) = choose|leading: T, base: T, high: T, low: T|
            {
                &&& #[trigger] word_is((n / 65536) as u16, leading)
                &&& base_is(base)
                &&& #[trigger] product_is(leading, base, high)
                &&& #[trigger] word_is((n % 65536) as u16, low)
                &&& sum_is(high, low, r)
            };
        lemma_base_value(value, base);
        let (a, b) = (value(leading), value(base));
        assert(a * b == 65536 as real * a) by (nonlinear_arith)
            requires
                b == 65536 as real,
        ;
    }
}

/// The sample of an integer of 32 bits has its value.
pub proof fn value_of_an_integer<T: Sample>(value: spec_fn(T) -> real, n: usize, r: T)
    requires
        exact(value),
        n < 0x1_0000_0000,
        call_ensures(integer::<T>, (n,), r),
    ensures
        value(r) == n as real,
{
    lemma_integer_value(value, n as nat, r);
}

proof fn lemma_large_integer_value<T: Sample>(value: spec_fn(T) -> real, n: nat, r: T) -> (e: int)
    requires
        exact(value),
        n >= 0x8000_0000,
        integer_is(n, r),
    ensures
        value(r) == (n + e) as real,
        -(n / 0x8000_0000) < e < n / 0x8000_0000,
    decreases n,
{
    if n < 0x1_0000_0000 {
        lemma_integer_value(value, n, r);
        0
    } else {
        let (half, two) = choose|half: T, two: T|
            {
                &&& integer_is(halved(n), half)
                &&& byte_is(2, two)
                &&& #[trigger] product_is(half, two, r)
            };
        let m = halved(n);
        let e = lemma_large_integer_value(value, m, half);
        assert(byte_is(2, two));
        let (a, b) = (value(half), value(two));
        assert(a * b == 2 as real * a) by (nonlinear_arith)
            requires
                b == 2 as real,
        ;
        assert(m / 0x8000_0000 == n / 0x1_0000_0000);
        2 * e + (2 * m - n)
    }
}

/// The sample of a longer integer is less than a part in `2^31` away from it.
pub proof fn value_of_a_long_integer<T: Sample>(value: spec_fn(T) -> real, n: usize, r: T)
    requires
        exact(value),
        n >= 0x1_0000_0000,
        call_ensures(integer::<T>, (n,), r),
    ensures
        ((n - n / 0x8000_0000) as real) < value(r) < (n + n / 0x8000_0000) as real,
{
    let e = lemma_large_integer_value(value, n as nat, r);
}

proof fn lemma_power_value<T: Sample>(value: spec_fn(T) -> real, places: nat, r: T)
    requires
        exact(value),
        places <= 3,
        power_is(places, r),
    ensures
        value(r) == power(places) as real,
    decreases places,
{
    reveal_with_fuel(power, 4);
    if places > 0 {
        let (l, b) = choose|lower: T, base: T|
            {
                &&& power_is((places - 1) as nat, lower)
                &&& base_is(base)
                &&& #[trigger] call_ensures(<T as Mul<T>>::mul, (lower, base), r)
            };
        assert(exists|lower: T, base: T|
            {
                &&& power_is((places - 1) as nat, lower)
                &&& base_is(base)
                &&& #[trigger] call_ensures(<T as Mul<T>>::mul, (lower, base), r)
            });
        lemma_power_value(value, (places - 1) as nat, l);
        lemma_base_value(value, b);
        let (x, y) = (value(l), value(b));
        assert(x * y == 65536 as real * x) by (nonlinear_arith)
            requires
                y == 65536 as real,
        ;
        assert(power(places) == 65536 * power((places - 1) as nat));
    }
}

proof fn lemma_digit_value<T: Sample>(value: spec_fn(T) -> real, v: T, scale: T, s: real, d: u16)
    requires
        exact(value),
        value(scale) == s,
        digit_is(v, scale, d),
    ensures
        d == 0 || d as real * s <= value(v),
        d == 65535 || value(v) < (d + 1) as real * s,
{
    assert forall|e: u16, c: bool| #[trigger] reaches(v, scale, e, c) implies c == (e as real * s
        <= value(v)) by {}
}

/// A digit takes its multiple of the scale `s` off `v`.
proof fn lemma_place(v: real, rest: real, d: int, s: int, scale: int)
    requires
        s == scale,
        scale == 65536 || scale == 0x1_0000_0000 || scale == 0x1_0000_0000_0000,
        rest == v - d as real * s as real,
    ensures
        rest == v - (d * scale) as real,
        d as real * s as real == (d * scale) as real,
        (d + 1) as real * s as real == (d * scale + scale) as real,
{
    if scale == 65536 {
        assert(d as real * s as real == 65536 as real * d as real) by (nonlinear_arith)
            requires
                s == 65536,
        ;
        assert((d + 1) as real * s as real == 65536 as real * (d + 1) as real) by (nonlinear_arith)
            requires
                s == 65536,
        ;
        assert(d * scale == 65536 * d) by (nonlinear_arith)
            requires
                scale == 65536,
        ;
    } else if scale == 0x1_0000_0000 {
        assert(d as real * s as real == 0x1_0000_0000 as real * d as real) by (nonlinear_arith)
            requires
                s == 0x1_0000_0000,
        ;
        assert((d + 1) as real * s as real == 0x1_0000_0000 as real * (d + 1) as real) by (nonlinear_arith)
            requires
                s == 0x1_0000_0000,
        ;
        assert(d * scale == 0x1_0000_0000 * d) by (nonlinear_arith)
            requires
                scale == 0x1_0000_0000,
        ;
    } else {
        assert(d as real * s as real == 0x1_0000_0000_0000 as real * d as real) by (nonlinear_arith)
            requires
                s == 0x1_0000_0000_0000,
        ;
        assert((d + 1) as real * s as real == 0x1_0000_0000_0000 as real * (d + 1) as real) by (nonlinear_arith)
            requires
                s == 0x1_0000_0000_0000,
        ;
        assert(d * scale == 0x1_0000_0000_0000 * d) by (nonlinear_arith)
            requires
                scale == 0x1_0000_0000_0000,
        ;
    }
}

pub(crate) proof fn lemma_truncated_value<T: Sample>(
    value: spec_fn(T) -> real,
    v: T,
    places: nat,
    k: nat,
)
    requires
        exact(value),
        places <= 3,
        truncated_is(v, places, k),
    ensures
        value(v) < 0 as real ==> k == 0,
        0 as real <= value(v) < (65536 * power(places)) as real ==> k as real <= value(v) < (k
            + 1) as real,
        value(v) >= (65536 * power(places)) as real ==> k == 65536 * power(places) - 1,
    decreases places,
{
    reveal_with_fuel(power, 5);
    if places == 0 {
        let one = choose|one: T| #[trigger]
            power_is(0, one) && k <= 65535 && digit_is(v, one, k as u16);
        lemma_power_value(value, 0, one);
        lemma_digit_value(value, v, one, 1 as real, k as u16);
    } else {
        let (scale, d, x, p, rest) = choose|scale: T, d: u16, x: T, p: T, rest: T|
            {
                &&& power_is(places, scale)
                &&& digit_is(v, scale, d)
                &&& #[trigger] call_ensures(<T as From<u16>>::from, (d,), x)
                &&& #[trigger] call_ensures(<T as Mul<T>>::mul, (x, scale), p)
                &&& #[trigger] call_ensures(<T as Sub<T>>::sub, (v, p), rest)
                &&& d * power(places) <= k
                &&& truncated_is(rest, (places - 1) as nat, (k - d * power(places)) as nat)
            };
        assert(exists|scale: T, d: u16, x: T, p: T, rest: T|
            {
                &&& power_is(places, scale)
                &&& digit_is(v, scale, d)
                &&& #[trigger] call_ensures(<T as From<u16>>::from, (d,), x)
                &&& #[trigger] call_ensures(<T as Mul<T>>::mul, (x, scale), p)
                &&& #[trigger] call_ensures(<T as Sub<T>>::sub, (v, p), rest)
                &&& d * power(places) <= k
                &&& truncated_is(rest, (places - 1) as nat, (k - d * power(places)) as nat)
            });
        let s = power(places);
        lemma_power_value(value, places, scale);
        lemma_digit_value(value, v, scale, s as real, d);
        lemma_truncated_value(value, rest, (places - 1) as nat, (k - d * s) as nat);
        assert(places == 1 || places == 2 || places == 3);
        assert(s == 65536 * power((places - 1) as nat));
        assert(value(rest) == value(v) - d as real * s as real);
        if places == 1 {
            lemma_place(value(v), value(rest), d as int, s as int, 65536);
        } else if places == 2 {
            lemma_place(value(v), value(rest), d as int, s as int, 0x1_0000_0000);
        } else {
            lemma_place(value(v), value(rest), d as int, s as int, 0x1_0000_0000_0000);
        }
    }
}

/// A sample rounded towards zero is the integer at most as large and less than 1 below, 0 for what
/// is negative, and the largest integer of as many digits in base 65536 for what is beyond it.
pub proof fn value_truncated<T: Sample>(value: spec_fn(T) -> real, v: T, places: u32, k: u64)
    requires
        exact(value),
        places <= 3,
        call_ensures(truncated::<T>, (v, places), k),
    ensures
        ({
            let most: int = if places == 0 {
                0xffff
            } else if places == 1 {
                0xffff_ffff
            } else if places == 2 {
                0xffff_ffff_ffff
            } else {
                0xffff_ffff_ffff_ffff
            };
            &&& value(v) < 0 as real ==> k == 0
            &&& 0 as real <= value(v) < (most + 1) as real ==> k as real <= value(v) < (k + 1) as real
            &&& value(v) >= (most + 1) as real ==> k == most
        }),
{
    reveal_with_fuel(power, 5);
    lemma_truncated_value(value, v, places as nat, k as nat);
}

pub(crate) proof fn lemma_saturated_byte_value<T: Sample>(value: spec_fn(T) -> real, v: T, d: u8)
    requires
        exact(value),
        saturated_byte_is(v, d),
    ensures
        value(v) < 0 as real ==> d == 0,
        0 as real <= value(v) < 256 as real ==> d as real <= value(v) < (d + 1) as real,
        value(v) >= 256 as real ==> d == 255,
{
}

pub(crate) proof fn lemma_saturated_word_value<T: Sample>(value: spec_fn(T) -> real, v: T, d: u16)
    requires
        exact(value),
        saturated_word_is(v, d),
    ensures
        value(v) < 0 as real ==> d == 0,
        0 as real <= value(v) < 65536 as real ==> d as real <= value(v) < (d + 1) as real,
        value(v) >= 65536 as real ==> d == 65535,
{
}

/// A sample brought to 8 or 16 bits is rounded towards zero, and held at the ends of the range.
pub proof fn value_saturated<T: Sample>(value: spec_fn(T) -> real, v: T, b: u8, w: u16)
    requires
        exact(value),
        call_ensures(saturated_byte::<T>, (v,), b),
        call_ensures(saturated_word::<T>, (v,), w),
    ensures
        value(v) < 0 as real ==> b == 0 && w == 0,
        0 as real <= value(v) < 256 as real ==> b as real <= value(v) < (b + 1) as real,
        value(v) >= 256 as real ==> b == 255,
        0 as real <= value(v) < 65536 as real ==> w as real <= value(v) < (w + 1) as real,
        value(v) >= 65536 as real ==> w == 65535,
{
    lemma_saturated_byte_value(value, v, b);
    lemma_saturated_word_value(value, v, w);
}

/// What nothing is at most, such as a NaN, becomes 0.
pub proof fn what_exceeds_nothing_becomes_zero<T: Sample>(v: T, b: u8, w: u16)
    requires
        forall|x: T, c: bool| #[trigger]
            call_ensures(<T as PartialOrd<T>>::le, (&x, &v), c) ==> !c,
        call_ensures(saturated_byte::<T>, (v,), b),
        call_ensures(saturated_word::<T>, (v,), w),
    ensures
        b == 0,
        w == 0,
{
}

} // verus!
