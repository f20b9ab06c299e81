//! Arithmetic on samples.
//!
//! Samples are floating-point numbers in use, but nothing here depends on which: every function is
//! generic over [`Sample`], that is over the operators that std gives such numbers. A
//! floating-point operator is not promised to be a function of its operands (the payload of a NaN
//! may vary), so contracts are relations: `sum_is(a, b, r)` says that `r` is a value that `a + b`
//! may return, and a longer computation is described by the chain of such steps it takes, in
//! their order. Where the operators are functions, such a chain has exactly one result, see
//! [`crate::determinism`].
use std::ops::{Add, Div, Mul, Sub};
use vstd::prelude::*;
use vstd::std_specs::ops::{AddSpec, DivSpec, MulSpec, SubSpec};

verus! {

/// What the computations ask of a sample: the four operators, the order, and the values of small
/// integers.
pub trait Sample: Copy + Add<Self, Output = Self> + Sub<Self, Output = Self> + Mul<
    Self,
    Output = Self,
> + Div<Self, Output = Self> + PartialOrd<Self> + From<u8> + From<u16> {

}

impl<T> Sample for T where
    T: Copy + Add<T, Output = T> + Sub<T, Output = T> + Mul<T, Output = T> + Div<
        T,
        Output = T,
    > + PartialOrd<T> + From<u8> + From<u16>,
 {

}

/// The operators may be applied to any two values, as those of floating-point numbers may.
pub open spec fn total<T: Sample>() -> bool {
    &&& forall|a: T, b: T| #[trigger] a.add_req(b)
    &&& forall|a: T, b: T| #[trigger] a.sub_req(b)
    &&& forall|a: T, b: T| #[trigger] a.mul_req(b)
    &&& forall|a: T, b: T| #[trigger] a.div_req(b)
}

/// `a + b` may return `r`.
pub open spec fn sum_is<T: Sample>(a: T, b: T, r: T) -> bool {
    call_ensures(<T as Add<T>>::add, (a, b), r)
}

/// `a - b` may return `r`.
pub open spec fn difference_is<T: Sample>(a: T, b: T, r: T) -> bool {
    call_ensures(<T as Sub<T>>::sub, (a, b), r)
}

/// `a * b` may return `r`.
pub open spec fn product_is<T: Sample>(a: T, b: T, r: T) -> bool {
    call_ensures(<T as Mul<T>>::mul, (a, b), r)
}

/// `a / b` may return `r`.
pub open spec fn quotient_is<T: Sample>(a: T, b: T, r: T) -> bool {
    call_ensures(<T as Div<T>>::div, (a, b), r)
}

/// `a < b` may answer `c`.
pub open spec fn less_is<T: Sample>(a: T, b: T, c: bool) -> bool {
    call_ensures(<T as PartialOrd<T>>::lt, (&a, &b), c)
}

/// `a > b` may answer `c`.
pub open spec fn greater_is<T: Sample>(a: T, b: T, c: bool) -> bool {
    call_ensures(<T as PartialOrd<T>>::gt, (&a, &b), c)
}

/// `a <= b` may answer `c`.
pub open spec fn at_most_is<T: Sample>(a: T, b: T, c: bool) -> bool {
    call_ensures(<T as PartialOrd<T>>::le, (&a, &b), c)
}

/// `r` is the value of the byte `n`.
pub open spec fn byte_is<T: Sample>(n: u8, r: T) -> bool {
    call_ensures(<T as From<u8>>::from, (n,), r)
}

/// `r` is the value of the 16-bit word `n`.
pub open spec fn word_is<T: Sample>(n: u16, r: T) -> bool {
    call_ensures(<T as From<u16>>::from, (n,), r)
}

/// `r` is `2 * f - 1`: `f` taken from [0, 1] to [-1, 1].
pub open spec fn signed_is<T: Sample>(f: T, r: T) -> bool {
    exists|two: T, double: T, one: T|
        {
            &&& #[trigger] byte_is(2, two)
            &&& #[trigger] product_is(f, two, double)
            &&& #[trigger] byte_is(1, one)
            &&& difference_is(double, one, r)
        }
}

/// Re-normalise a sample from the range [0, 1] to the range [-1, 1].
pub fn convert_from_0_1_to_neg1_1<T: Sample>(f: T) -> (r: T)
    requires
        total::<T>(),
    ensures
        signed_is(f, r),
{
    let two = T::from(2u8);
    let double = f * two;
    let one = T::from(1u8);
    let r = double - one;
    assert(byte_is(2, two) && product_is(f, two, double) && byte_is(1, one));
    r
}

/// `r` is `(f + 1) / 2`: `f` taken from [-1, 1] to [0, 1].
pub open spec fn unsigned_is<T: Sample>(f: T, r: T) -> bool {
    exists|one: T, shifted: T, two: T|
        {
            &&& #[trigger] byte_is(1, one)
            &&& #[trigger] sum_is(f, one, shifted)
            &&& #[trigger] byte_is(2, two)
            &&& quotient_is(shifted, two, r)
        }
}

/// Re-normalise a sample from the range [-1, 1] to the range [0, 1].
pub fn convert_from_neg1_1_to_0_1<T: Sample>(f: T) -> (r: T)
    requires
        total::<T>(),
    ensures
        unsigned_is(f, r),
{
    let one = T::from(1u8);
    let shifted = f + one;
    let two = T::from(2u8);
    let r = shifted / two;
    assert(byte_is(1, one) && sum_is(f, one, shifted) && byte_is(2, two));
    r
}

/// `r` is `a` where `a < b` holds and `b` where it does not, as for an `a` that is not a number.
pub open spec fn capped_is<T: Sample>(a: T, b: T, r: T) -> bool {
    exists|c: bool| #[trigger]
        less_is(a, b, c) && r == if c {
            a
        } else {
            b
        }
}

/// The smaller of `a` and `b`; `b` where `a` is not a number.
pub fn capped<T: Sample>(a: T, b: T) -> (r: T)
    ensures
        capped_is(a, b, r),
{
    let c = a < b;
    assert(less_is(a, b, c));
    if c {
        a
    } else {
        b
    }
}

/// `r` is `v` held between `low` and `high`.
pub open spec fn clamped_is<T: Sample>(v: T, low: T, high: T, r: T) -> bool {
    exists|under: bool, over: bool|
        {
            &&& #[trigger] less_is(v, low, under)
            &&& #[trigger] greater_is(v, high, over)
            &&& r == if under {
                low
            } else if over {
                high
            } else {
                v
            }
        }
}

/// `v` held between `low` and `high`.
pub fn clamped<T: Sample>(v: T, low: T, high: T) -> (r: T)
    ensures
        clamped_is(v, low, high, r),
{
    let under = v < low;
    let over = v > high;
    assert(less_is(v, low, under) && greater_is(v, high, over));
    if under {
        low
    } else if over {
        high
    } else {
        v
    }
}

/// `r` is the value of 65536, the base in which integers of two words are written.
pub open spec fn base_is<T: Sample>(r: T) -> bool {
    exists|n: T| #[trigger] word_is(256, n) && product_is(n, n, r)
}

fn base<T: Sample>() -> (r: T)
    requires
        total::<T>(),
    ensures
        base_is(r),
{
    let n = T::from(256u16);
    assert(word_is(256, n));
    n * n
}

/// Half of `n`, where a half left over makes the result odd. What is cut off is so remembered in
/// the last bit, and rounding the result further goes the way that rounding `n` would.
pub open spec fn halved(n: nat) -> nat {
    if n % 4 == 1 {
        n / 2 + 1
    } else {
        n / 2
    }
}

/// `r` is the value of the integer `n`. Up to 16 bits it is that of a word, up to 32 bits that of
/// two words, where only the addition rounds, and above that it is twice that of half of `n`. So
/// `r` is the sample nearest to `n` below `2^32`, and above that for samples of up to 30
/// significant bits, such as those of single precision.
pub open spec fn integer_is<T: Sample>(n: nat, r: T) -> bool
    decreases n,
{
    if n < 65536 {
        word_is(n as u16, r)
    } else if n < 0x1_0000_0000 {
        exists|leading: T, base: T, high: T, low: T|
            {
                &&& #[trigger] word_is((n / 65536) as u16, leading)
                &&& base_is(base)
                &&& #[trigger] product_is(leading, base, high)
                &&& #[trigger] word_is((n % 65536) as u16, low)
                &&& sum_is(high, low, r)
            }
    } else {
        exists|half: T, two: T|
            {
                &&& integer_is(halved(n), half)
                &&& byte_is(2, two)
                &&& #[trigger] product_is(half, two, r)
            }
    }
}

/// The value of the integer `n`.
pub fn integer<T: Sample>(n: usize) -> (r: T)
    requires
        total::<T>(),
    ensures
        integer_is(n as nat, r),
{
    integer_value(n as u64)
}

fn integer_value<T: Sample>(n: u64) -> (r: T)
    requires
        total::<T>(),
    ensures
        integer_is(n as nat, r),
    decreases n,
{
    if n < 65536 {
        T::from(n as u16)
    } else if n < 0x1_0000_0000 {
        let leading = T::from((n / 65536) as u16);
        let b = base::<T>();
        let high = leading * b;
        let low = T::from((n % 65536) as u16);
        let r = high + low;
        assert(word_is((n as nat / 65536) as u16, leading) && base_is(b) && product_is(
            leading,
            b,
            high,
        ) && word_is((n as nat % 65536) as u16, low));
        r
    } else {
        let m: u64 = if n % 4 == 1 {
            n / 2 + 1
        } else {
            n / 2
        };
        let half = integer_value::<T>(m);
        let two = T::from(2u8);
        let r = half * two;
        assert(integer_is(halved(n as nat), half) && byte_is(2, two) && product_is(half, two, r));
        r
    }
}

/// Whether `d * scale <= v` may be answered by `c`.
pub open spec fn reaches<T: Sample>(v: T, scale: T, d: u16, c: bool) -> bool {
    exists|x: T, p: T|
        {
            &&& #[trigger] word_is(d, x)
            &&& #[trigger] product_is(x, scale, p)
            &&& at_most_is(p, v, c)
        }
}

/// `d` is the number of times `scale` goes into `v`, held between 0 and 65535: `d` of them are
/// at most `v`, one more is not. A `v` that is negative or not a number has digit 0.
pub open spec fn digit_is<T: Sample>(v: T, scale: T, d: u16) -> bool {
    &&& d == 0 || reaches(v, scale, d, true)
    &&& d == 65535 || reaches(v, scale, (d + 1) as u16, false)
}

fn digit<T: Sample>(v: T, scale: T) -> (d: u16)
    requires
        total::<T>(),
    ensures
        digit_is(v, scale, d),
{
    let mut low: u32 = 0;
    let mut high: u32 = 65536;
    while high - low > 1
        invariant
            total::<T>(),
            low < high <= 65536,
            low == 0 || reaches(v, scale, low as u16, true),
            high == 65536 || reaches(v, scale, high as u16, false),
        decreases high - low,
    {
        let mid: u32 = low + (high - low) / 2;
        let x = T::from(mid as u16);
        let p = x * scale;
        let c = p <= v;
        assert(word_is(mid as u16, x) && product_is(x, scale, p) && at_most_is(p, v, c));
        if c {
            low = mid;
        } else {
            high = mid;
        }
    }
    assert(high == low + 1);
    low as u16
}

/// `r` is the value of 65536 to the power `places`.
pub open spec fn power_is<T: Sample>(places: nat, r: T) -> bool
    decreases places,
{
    if places == 0 {
        byte_is(1, r)
    } else {
        exists|lower: T, base: T|
            {
                &&& power_is((places - 1) as nat, lower)
                &&& base_is(base)
                &&& #[trigger] product_is(lower, base, r)
            }
    }
}

/// 65536 to the power `places`.
pub open spec fn power(places: nat) -> nat
    decreases places,
{
    if places == 0 {
        1
    } else {
        65536 * power((places - 1) as nat)
    }
}

/// `k` is `v` rounded towards zero and held between 0 and the largest integer of `places + 1`
/// digits in base 65536: the digits of `v`, each taken from what the higher ones leave.
pub open spec fn truncated_is<T: Sample>(v: T, places: nat, k: nat) -> bool
    decreases places,
{
    if places == 0 {
        exists|one: T| #[trigger] power_is(0, one) && k <= 65535 && digit_is(v, one, k as u16)
    } else {
        exists|scale: T, d: u16, x: T, p: T, rest: T|
            {
                &&& power_is(places, scale)
                &&& digit_is(v, scale, d)
                &&& #[trigger] word_is(d, x)
                &&& #[trigger] product_is(x, scale, p)
                &&& #[trigger] difference_is(v, p, rest)
                &&& d * power(places) <= k
                &&& truncated_is(rest, (places - 1) as nat, (k - d * power(places)) as nat)
            }
    }
}

fn place_scale<T: Sample>(places: u32) -> (r: T)
    requires
        total::<T>(),
    ensures
        power_is(places as nat, r),
    decreases places,
{
    if places == 0 {
        T::from(1u8)
    } else {
        let lower = place_scale::<T>(places - 1);
        let b = base::<T>();
        let r = lower * b;
        assert(power_is((places - 1) as nat, lower) && base_is(b) && product_is(lower, b, r));
        r
    }
}

fn place_value(places: u32) -> (r: u64)
    requires
        places <= 3,
    ensures
        r == power(places as nat),
        1 <= r <= 0x1_0000_0000_0000,
    decreases places,
{
    reveal_with_fuel(power, 4);
    if places == 0 {
        1
    } else {
        65536 * place_value(places - 1)
    }
}

/// `v` rounded towards zero and held between 0 and the largest integer of `places + 1` digits in
/// base 65536; 0 where `v` is not a number.
pub fn truncated<T: Sample>(v: T, places: u32) -> (k: u64)
    requires
        total::<T>(),
        places <= 3,
    ensures
        truncated_is(v, places as nat, k as nat),
        k < 65536 * power(places as nat),
    decreases places,
{
    let scale = place_scale::<T>(places);
    let d: u16 = digit(v, scale);
    if places == 0 {
        assert(power_is(0, scale));
        d as u64
    } else {
        let unit: u64 = place_value(places);
        let x = T::from(d);
        let p = x * scale;
        let rest = v - p;
        let low: u64 = truncated(rest, places - 1);
        assert(d * unit <= 65535 * unit) by (nonlinear_arith)
            requires
                d <= 65535,
                unit >= 1,
        ;
        let k: u64 = d as u64 * unit + low;
        assert(power_is(places as nat, scale) && digit_is(v, scale, d) && word_is(d, x)
            && product_is(x, scale, p) && difference_is(v, p, rest) && truncated_is(
            rest,
            (places - 1) as nat,
            low as nat,
        ));
        k
    }
}

/// `d` is `v` rounded towards zero and held between 0 and 255.
pub open spec fn saturated_byte_is<T: Sample>(v: T, d: u8) -> bool {
    &&& d == 0 || exists|x: T| #[trigger] byte_is(d, x) && at_most_is(x, v, true)
    &&& d == 255 || exists|x: T| #[trigger] byte_is((d + 1) as u8, x) && at_most_is(x, v, false)
}

/// `v` rounded towards zero and held between 0 and 255; 0 where `v` is not a number.
pub fn saturated_byte<T: Sample>(v: T) -> (d: u8)
    ensures
        saturated_byte_is(v, d),
{
    let mut low: u16 = 0;
    let mut high: u16 = 256;
    while high - low > 1
        invariant
            low < high <= 256,
            low == 0 || exists|x: T| #[trigger] byte_is(low as u8, x) && at_most_is(x, v, true),
            high == 256 || exists|x: T| #[trigger] byte_is(high as u8, x) && at_most_is(x, v, false),
        decreases high - low,
    {
        let mid: u16 = low + (high - low) / 2;
        let x = T::from(mid as u8);
        let c = x <= v;
        assert(byte_is(mid as u8, x) && at_most_is(x, v, c));
        if c {
            low = mid;
        } else {
            high = mid;
        }
    }
    assert(high == low + 1);
    low as u8
}

/// `d` is `v` rounded towards zero and held between 0 and 65535.
pub open spec fn saturated_word_is<T: Sample>(v: T, d: u16) -> bool {
    &&& d == 0 || exists|x: T| #[trigger] word_is(d, x) && at_most_is(x, v, true)
    &&& d == 65535 || exists|x: T| #[trigger] word_is((d + 1) as u16, x) && at_most_is(x, v, false)
}

/// `v` rounded towards zero and held between 0 and 65535; 0 where `v` is not a number.
pub fn saturated_word<T: Sample>(v: T) -> (d: u16)
    ensures
        saturated_word_is(v, d),
{
    let mut low: u32 = 0;
    let mut high: u32 = 65536;
    while high - low > 1
        invariant
            low < high <= 65536,
            low == 0 || exists|x: T| #[trigger] word_is(low as u16, x) && at_most_is(x, v, true),
            high == 65536 || exists|x: T| #[trigger]
                word_is(high as u16, x) && at_most_is(x, v, false),
        decreases high - low,
    {
        let mid: u32 = low + (high - low) / 2;
        let x = T::from(mid as u16);
        let c = x <= v;
        assert(word_is(mid as u16, x) && at_most_is(x, v, c));
        if c {
            low = mid;
        } else {
            high = mid;
        }
    }
    assert(high == low + 1);
    low as u16
}

} // verus!
