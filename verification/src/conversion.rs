//! Conversions between doubles and machine integers.

use crate::binary64::{
    lemma_size_strictly_increases, lemma_size_zero, one_in_units, size_in_units, Binary64, FRACTION_SPAN,
    INFINITE_MAGNITUDE, INTEGRAL_EXPONENT,
};
use vstd::arithmetic::div_mod::{
    lemma_div_denominator, lemma_fundamental_div_mod, lemma_fundamental_div_mod_converse,
};
use vstd::arithmetic::power2::{
    lemma2_to64, lemma2_to64_rest, lemma_pow2_adds, lemma_pow2_pos, lemma_pow2_strictly_increases,
    lemma_pow2_unfold, pow2,
};
use vstd::bits::{lemma_u64_shl_is_mul, lemma_u64_shr_is_div};
use vstd::prelude::*;

verus! {

/// The integer part of a size.
pub open spec fn whole(size: nat) -> nat {
    size / one_in_units()
}

/// What a size exceeds its integer part by, in units.
pub open spec fn excess(size: nat) -> nat {
    size % one_in_units()
}

/// `value` brought into `0..=top`.
pub open spec fn capped(value: nat, top: nat) -> nat {
    if value <= top {
        value
    } else {
        top
    }
}

impl Binary64 {
    /// The value without its fraction, towards zero. For a value that is no NaN.
    pub open spec fn truncated(self) -> int {
        if self.is_negative() {
            -(whole(size_in_units(self.magnitude())) as int)
        } else {
            whole(size_in_units(self.magnitude())) as int
        }
    }

    /// Whether the value is a whole number.
    pub open spec fn is_integral(self) -> bool {
        self.is_finite() && excess(size_in_units(self.magnitude())) == 0
    }
}

/// `(m * p) / (p * s)` is `m / s`, and the remainder scales with `p`.
proof fn lemma_scaled_division(m: nat, p: nat, s: nat)
    requires
        p > 0,
        s > 0,
    ensures
        (m * p) / (p * s) == m / s,
        (m * p) % (p * s) == p * (m % s),
{
    let q = m / s;
    let r = m % s;
    lemma_fundamental_div_mod(m as int, s as int);
    assert(m == s * q + r);
    assert(m * p == q * (p * s) + p * r) by (nonlinear_arith)
        requires
            m == s * q + r,
    ;
    assert(0 <= p * r < p * s) by (nonlinear_arith)
        requires
            p > 0,
            r < s,
    ;
    lemma_fundamental_div_mod_converse(
        (m * p) as int,
        (p * s) as int,
        q as int,
        (p * r) as int,
    );
}

/// A size with a nonzero exponent field below [`INTEGRAL_EXPONENT`].
proof fn lemma_fractional_size(exponent: nat, significand: nat)
    requires
        1 <= exponent < 1075,
    ensures
        whole(significand * pow2((exponent - 1) as nat)) == significand / pow2(
            (1075 - exponent) as nat,
        ),
        excess(significand * pow2((exponent - 1) as nat)) == pow2((exponent - 1) as nat) * (
        significand % pow2((1075 - exponent) as nat)),
{
    let p = pow2((exponent - 1) as nat);
    let s = pow2((1075 - exponent) as nat);
    lemma_pow2_pos((exponent - 1) as nat);
    lemma_pow2_pos((1075 - exponent) as nat);
    lemma_pow2_adds((exponent - 1) as nat, (1075 - exponent) as nat);
    assert(p * s == one_in_units());
    lemma_scaled_division(significand, p, s);
}

/// A size with an exponent field from [`INTEGRAL_EXPONENT`] on.
proof fn lemma_integral_size(exponent: nat, significand: nat)
    requires
        1075 <= exponent,
    ensures
        whole(significand * pow2((exponent - 1) as nat)) == significand * pow2(
            (exponent - 1075) as nat,
        ),
        excess(significand * pow2((exponent - 1) as nat)) == 0,
{
    let k = pow2((exponent - 1075) as nat);
    let one = one_in_units();
    lemma_pow2_pos(1074);
    lemma_pow2_adds((exponent - 1075) as nat, 1074);
    assert(significand * (k * one) == (significand * k) * one) by (nonlinear_arith);
    lemma_fundamental_div_mod_converse(
        (significand * pow2((exponent - 1) as nat)) as int,
        one as int,
        (significand * k) as int,
        0,
    );
}

/// The size of the infinities is a whole number, as the model has it.
pub proof fn lemma_infinite_size()
    ensures
        excess(size_in_units(INFINITE_MAGNITUDE as nat)) == 0,
{
    assert(INFINITE_MAGNITUDE as nat / (FRACTION_SPAN as nat) == 2047);
    lemma_integral_size(2047, FRACTION_SPAN as nat);
}

/// Exponent fields below 1023 belong to sizes below one.
proof fn lemma_below_one(magnitude: nat)
    requires
        magnitude < 1023 * FRACTION_SPAN,
    ensures
        size_in_units(magnitude) < one_in_units(),
        whole(size_in_units(magnitude)) == 0,
        excess(size_in_units(magnitude)) == size_in_units(magnitude),
{
    let bound: nat = (1023 * FRACTION_SPAN) as nat;
    lemma_size_strictly_increases(magnitude, bound);
    assert(bound / (FRACTION_SPAN as nat) == 1023 && bound % (FRACTION_SPAN as nat) == 0);
    lemma2_to64_rest();
    assert(pow2(52) == FRACTION_SPAN) by {
        lemma2_to64_rest();
    }
    lemma_pow2_adds(52, 1022);
    assert(size_in_units(bound) == one_in_units());
    lemma_fundamental_div_mod_converse(
        size_in_units(magnitude) as int,
        one_in_units() as int,
        0,
        size_in_units(magnitude) as int,
    );
}

/// The integer part of the size of `magnitude`, or `u64::MAX` if that is less.
pub fn whole_of(magnitude: u64) -> (result: u64)
    requires
        magnitude <= INFINITE_MAGNITUDE,
    ensures
        result == capped(whole(size_in_units(magnitude as nat)), u64::MAX as nat),
{
    let exponent: u64 = magnitude / FRACTION_SPAN;
    let fraction: u64 = magnitude % FRACTION_SPAN;
    if exponent < 1023 {
        proof {
            lemma_below_one(magnitude as nat);
        }
        return 0;
    }
    let significand: u64 = FRACTION_SPAN + fraction;
    let ghost size = size_in_units(magnitude as nat);
    assert(size == (significand as nat) * pow2((exponent - 1) as nat));
    if exponent < INTEGRAL_EXPONENT {
        let shift: u64 = INTEGRAL_EXPONENT - exponent;
        proof {
            lemma_fractional_size(exponent as nat, significand as nat);
            lemma_u64_shr_is_div(significand, shift);
        }
        significand >> shift
    } else if exponent < 1087 {
        let shift: u64 = exponent - INTEGRAL_EXPONENT;
        proof {
            lemma_integral_size(exponent as nat, significand as nat);
            lemma_pow2_pos(shift as nat);
            lemma2_to64();
            if shift < 11 {
                lemma_pow2_strictly_increases(shift as nat, 11);
            }
            assert(pow2(11) == 2048);
            assert(significand * pow2(shift as nat) <= u64::MAX) by (nonlinear_arith)
                requires
                    significand < 0x20_0000_0000_0000,
                    pow2(shift as nat) <= 2048,
            ;
            lemma_u64_shl_is_mul(significand, shift);
        }
        significand << shift
    } else {
        proof {
            lemma_integral_size(exponent as nat, significand as nat);
            let shift = (exponent - INTEGRAL_EXPONENT) as nat;
            lemma2_to64();
            if shift > 12 {
                lemma_pow2_strictly_increases(12, shift);
            }
            assert(pow2(12) == 4096);
            assert(significand * pow2(shift) > u64::MAX) by (nonlinear_arith)
                requires
                    significand >= 0x10_0000_0000_0000,
                    pow2(shift) >= 4096,
            ;
        }
        u64::MAX
    }
}

/// The magnitude of the double `significand * 2^(exponent - 1)`, in units.
fn normalised(significand: u64, exponent: u64) -> (magnitude: u64)
    requires
        1 <= significand <= 2 * FRACTION_SPAN,
        60 <= exponent < 2046,
    ensures
        magnitude < INFINITE_MAGNITUDE,
        size_in_units(magnitude as nat) == (significand as nat) * pow2((exponent - 1) as nat),
{
    let mut scaled: u64 = significand;
    let mut field: u64 = exponent;
    proof {
        lemma2_to64();
    }
    while scaled < FRACTION_SPAN
        invariant
            1 <= scaled <= 2 * FRACTION_SPAN,
            1 <= field <= exponent,
            60 <= exponent < 2046,
            (scaled as nat) * pow2((field - 1) as nat) == (significand as nat) * pow2(
                (exponent - 1) as nat,
            ),
            scaled >= pow2((exponent - field) as nat),
        decreases field,
    {
        proof {
            lemma2_to64_rest();
            assert(exponent - field < 52) by {
                if exponent - field >= 52 {
                    if exponent - field > 52 {
                        lemma_pow2_strictly_increases(52, (exponent - field) as nat);
                    }
                    assert(false);
                }
            }
            lemma_pow2_unfold((field - 1) as nat);
            lemma_pow2_unfold((exponent - field + 1) as nat);
            assert((2 * scaled) * pow2((field - 2) as nat) == scaled * (2 * pow2(
                (field - 2) as nat,
            ))) by (nonlinear_arith);
        }
        scaled = 2 * scaled;
        field = field - 1;
    }
    let magnitude: u64 = (field - 1) * FRACTION_SPAN + scaled;
    proof {
        let span = FRACTION_SPAN as nat;
        if scaled < 2 * FRACTION_SPAN {
            lemma_fundamental_div_mod_converse(
                magnitude as int,
                span as int,
                field as int,
                (scaled - span) as int,
            );
        } else {
            lemma_fundamental_div_mod_converse(
                magnitude as int,
                span as int,
                (field + 1) as int,
                0,
            );
            lemma_pow2_unfold(field as nat);
            let p = pow2((field - 1) as nat);
            assert(span * (2 * p) == (2 * span) * p) by (nonlinear_arith);
        }
    }
    magnitude
}

/// The magnitude of the fraction: of what the size exceeds its integer part by.
pub fn fraction_of(magnitude: u64) -> (result: u64)
    requires
        magnitude < INFINITE_MAGNITUDE,
    ensures
        result < INFINITE_MAGNITUDE,
        size_in_units(result as nat) == excess(size_in_units(magnitude as nat)),
{
    let exponent: u64 = magnitude / FRACTION_SPAN;
    let fraction: u64 = magnitude % FRACTION_SPAN;
    if exponent < 1023 {
        proof {
            lemma_below_one(magnitude as nat);
        }
        return magnitude;
    }
    let significand: u64 = FRACTION_SPAN + fraction;
    if exponent >= INTEGRAL_EXPONENT {
        proof {
            lemma_integral_size(exponent as nat, significand as nat);
        }
        return 0;
    }
    let shift: u64 = INTEGRAL_EXPONENT - exponent;
    let step: u64 = power_of_two(shift);
    let rest: u64 = significand % step;
    proof {
        lemma_fractional_size(exponent as nat, significand as nat);
        let p = pow2((exponent - 1) as nat);
        assert(p * rest == rest * p && p * 0 == 0) by (nonlinear_arith);
        assert(rest <= significand) by (nonlinear_arith)
            requires
                rest == significand % step,
                step > 0,
        ;
    }
    if rest == 0 {
        return 0;
    }
    normalised(rest, exponent)
}

/// `2^shift`.
fn power_of_two(shift: u64) -> (power: u64)
    requires
        shift < 64,
    ensures
        power == pow2(shift as nat),
        power > 0,
{
    proof {
        lemma2_to64_rest();
        lemma_pow2_pos(shift as nat);
        if shift < 63 {
            lemma_pow2_strictly_increases(shift as nat, 63);
        }
        assert(pow2(63) == 0x8000_0000_0000_0000);
        lemma_u64_shl_is_mul(1, shift);
    }
    1u64 << shift
}

/// The whole number nearest to a size; halves go up.
pub open spec fn nearest(size: nat) -> nat {
    if 2 * excess(size) >= one_in_units() {
        whole(size) + 1
    } else {
        whole(size)
    }
}

/// The whole number nearest to the size of `magnitude`, or `top` if that is less.
pub fn nearest_of(magnitude: u64, top: u32) -> (result: u32)
    requires
        magnitude <= INFINITE_MAGNITUDE,
    ensures
        result == capped(nearest(size_in_units(magnitude as nat)), top as nat),
{
    let floor: u64 = whole_of(magnitude);
    if floor >= top as u64 {
        return top;
    }
    let exponent: u64 = magnitude / FRACTION_SPAN;
    let fraction: u64 = magnitude % FRACTION_SPAN;
    if exponent < 1022 {
        proof {
            lemma_below_one(magnitude as nat);
            lemma_below_half(magnitude as nat);
        }
        return 0;
    }
    let significand: u64 = FRACTION_SPAN + fraction;
    if exponent >= INTEGRAL_EXPONENT {
        proof {
            lemma_integral_size(exponent as nat, significand as nat);
            lemma_pow2_pos(1074);
        }
        return floor as u32;
    }
    let shift: u64 = INTEGRAL_EXPONENT - exponent;
    let step: u64 = power_of_two(shift);
    let rest: u64 = significand % step;
    proof {
        lemma2_to64_rest();
        lemma_fractional_size(exponent as nat, significand as nat);
        let p = pow2((exponent - 1) as nat);
        lemma_pow2_pos((exponent - 1) as nat);
        lemma_pow2_adds((exponent - 1) as nat, shift as nat);
        assert(2 * (p * rest) >= p * step <==> 2 * rest >= step) by (nonlinear_arith)
            requires
                p > 0,
        ;
        if shift < 54 {
            lemma_pow2_strictly_increases(shift as nat, 54);
        }
    }
    if 2 * rest >= step {
        (floor + 1) as u32
    } else {
        floor as u32
    }
}

/// The whole number nearest to a size; halves go to the even one.
pub open spec fn nearest_even(size: nat) -> nat {
    if 2 * excess(size) > one_in_units() || (2 * excess(size) == one_in_units() && whole(size) % 2
        == 1) {
        whole(size) + 1
    } else {
        whole(size)
    }
}

/// The whole number nearest to the size of `magnitude`, halves to the even one, or `top`
/// if that is less.
pub fn nearest_even_of(magnitude: u64, top: u32) -> (result: u32)
    requires
        magnitude <= INFINITE_MAGNITUDE,
    ensures
        result == capped(nearest_even(size_in_units(magnitude as nat)), top as nat),
{
    let floor: u64 = whole_of(magnitude);
    if floor >= top as u64 {
        return top;
    }
    let exponent: u64 = magnitude / FRACTION_SPAN;
    let fraction: u64 = magnitude % FRACTION_SPAN;
    if exponent < 1022 {
        proof {
            lemma_below_one(magnitude as nat);
            lemma_below_half(magnitude as nat);
        }
        return 0;
    }
    let significand: u64 = FRACTION_SPAN + fraction;
    if exponent >= INTEGRAL_EXPONENT {
        proof {
            lemma_integral_size(exponent as nat, significand as nat);
            lemma_pow2_pos(1074);
        }
        return floor as u32;
    }
    let shift: u64 = INTEGRAL_EXPONENT - exponent;
    let step: u64 = power_of_two(shift);
    let rest: u64 = significand % step;
    proof {
        lemma2_to64_rest();
        lemma_fractional_size(exponent as nat, significand as nat);
        let p = pow2((exponent - 1) as nat);
        lemma_pow2_pos((exponent - 1) as nat);
        lemma_pow2_adds((exponent - 1) as nat, shift as nat);
        assert((2 * (p * rest) > p * step <==> 2 * rest > step) && (2 * (p * rest) == p * step <==>
            2 * rest == step)) by (nonlinear_arith)
            requires
                p > 0,
        ;
        if shift < 54 {
            lemma_pow2_strictly_increases(shift as nat, 54);
        }
    }
    if 2 * rest > step || (2 * rest == step && floor % 2 == 1) {
        (floor + 1) as u32
    } else {
        floor as u32
    }
}

/// Exponent fields below 1022 belong to sizes below one half.
proof fn lemma_below_half(magnitude: nat)
    requires
        magnitude < 1022 * FRACTION_SPAN,
    ensures
        2 * size_in_units(magnitude) < one_in_units(),
{
    let bound: nat = (1022 * FRACTION_SPAN) as nat;
    lemma_size_strictly_increases(magnitude, bound);
    assert(bound / (FRACTION_SPAN as nat) == 1022 && bound % (FRACTION_SPAN as nat) == 0);
    lemma2_to64_rest();
    lemma_pow2_adds(52, 1021);
    lemma_pow2_unfold(1074);
}

/// The spacing of the doubles around the whole number `n`, if that exceeds one.
pub open spec fn granularity(n: nat) -> nat
    decreases n,
{
    if n < 2 * FRACTION_SPAN {
        1
    } else {
        2 * granularity(n / 2)
    }
}

/// The multiple of `step` nearest to `n`, the even one of two equally near.
pub open spec fn nearest_multiple(n: nat, step: nat) -> nat {
    let quotient = n / step;
    let rest = n % step;
    if 2 * rest > step || (2 * rest == step && quotient % 2 == 1) {
        (quotient + 1) * step
    } else {
        quotient * step
    }
}

/// The double nearest to `n`, as a whole number.
pub open spec fn rounded(n: nat) -> nat {
    nearest_multiple(n, granularity(n))
}

/// Whole numbers up to `2^53` are doubles.
pub proof fn lemma_small_numbers_are_exact(n: nat)
    requires
        n <= 2 * FRACTION_SPAN,
    ensures
        rounded(n) == n,
{
    if n == 2 * FRACTION_SPAN {
        assert(granularity(n / 2) == 1);
        assert(granularity(n) == 2);
        assert(nearest_multiple(n, 2) == n);
    } else {
        assert(n / 1 == n && n % 1 == 0 && n * 1 == n);
    }
}

impl Binary64 {
    /// The double nearest to `n`.
    pub fn from_u64(n: u64) -> (value: Binary64)
        ensures
            value.is_finite(),
            !value.is_negative(),
            value.units() == rounded(n as nat) * one_in_units(),
    {
        if n == 0 {
            proof {
                lemma_small_numbers_are_exact(0);
            }
            return Binary64 { bits: 0 };
        }
        let mut shift: u64 = 0;
        let mut step: u64 = 1;
        let mut quotient: u64 = n;
        proof {
            lemma2_to64();
            assert(n as nat / 1 == n);
        }
        while quotient >= 2 * FRACTION_SPAN
            invariant
                n > 0,
                shift <= 11,
                step == pow2(shift as nat),
                step > 0,
                quotient == n as nat / step as nat,
                quotient > 0,
                granularity(n as nat) == step as nat * granularity(quotient as nat),
            decreases quotient,
        {
            proof {
                lemma2_to64();
                lemma2_to64_rest();
                lemma_pow2_unfold((shift + 1) as nat);
                lemma_div_denominator(n as int, step as int, 2);
                lemma_fundamental_div_mod(n as int, step as int);
                assert(shift < 11) by {
                    if shift == 11 {
                        assert(step == 2048);
                        assert(n >= 2048 * quotient);
                    }
                }
                assert(step <= 2048) by {
                    if shift < 11 {
                        lemma_pow2_strictly_increases(shift as nat, 11);
                    }
                }
                let g = granularity(quotient as nat / 2);
                assert(step as nat * (2 * g) == (step as nat * 2) * g) by (nonlinear_arith);
            }
            quotient = quotient / 2;
            step = step * 2;
            shift = shift + 1;
        }
        proof {
            assert(granularity(quotient as nat) == 1);
            assert(step as nat * 1 == step as nat);
            assert(granularity(n as nat) == step);
            lemma2_to64();
            if shift < 11 {
                lemma_pow2_strictly_increases(shift as nat, 11);
            }
        }
        let rest: u64 = n % step;
        let up: bool = 2 * rest > step || (2 * rest == step && quotient % 2 == 1);
        let significand: u64 = if up {
            quotient + 1
        } else {
            quotient
        };
        let magnitude: u64 = normalised(significand, INTEGRAL_EXPONENT + shift);
        proof {
            lemma_pow2_adds(shift as nat, 1074);
            assert((INTEGRAL_EXPONENT + shift) - 1 == shift + 1074);
            let m = significand as nat;
            let s = step as nat;
            let one = one_in_units();
            assert(m * (s * one) == (m * s) * one) by (nonlinear_arith);
        }
        Binary64 { bits: magnitude }
    }

    /// The double equal to `n`.
    pub fn from_u32(n: u32) -> (value: Binary64)
        ensures
            value.is_finite(),
            !value.is_negative(),
            value.units() == n * one_in_units(),
    {
        proof {
            lemma_small_numbers_are_exact(n as nat);
        }
        Binary64::from_u64(n as u64)
    }

    /// Whether the value is a whole number.
    pub fn integral(self) -> (answer: bool)
        ensures
            answer == self.is_integral(),
    {
        if !self.finite() {
            return false;
        }
        let fraction: u64 = fraction_of(self.magnitude_bits());
        proof {
            lemma_size_zero(fraction as nat);
        }
        fraction == 0
    }

    /// What [`Binary64::to_u32`] returns.
    pub open spec fn as_u32(self) -> nat {
        self.saturated(u32::MAX as nat)
    }

    /// The integer part brought into `0..=top`; zero for a NaN.
    pub open spec fn saturated(self, top: nat) -> nat {
        if self.is_nan() || self.is_negative() {
            0
        } else {
            capped(whole(size_in_units(self.magnitude())), top)
        }
    }

    /// The integer part brought into the range of `u64`; zero for a NaN.
    pub fn to_u64(self) -> (result: u64)
        ensures
            result == self.saturated(u64::MAX as nat),
    {
        if self.nan() || self.bits >= crate::binary64::SIGN_BIT {
            0
        } else {
            whole_of(self.magnitude_bits())
        }
    }

    /// The integer part brought into the range of `u32`; zero for a NaN.
    pub fn to_u32(self) -> (result: u32)
        ensures
            result == self.as_u32(),
    {
        let wide: u64 = self.to_u64();
        if wide <= u32::MAX as u64 {
            wide as u32
        } else {
            u32::MAX
        }
    }

    /// The integer part brought into the range of `usize`; zero for a NaN.
    pub fn to_usize(self) -> (result: usize)
        ensures
            result == self.saturated(usize::MAX as nat),
    {
        let wide: u64 = self.to_u64();
        if wide <= usize::MAX as u64 {
            wide as usize
        } else {
            usize::MAX
        }
    }

    /// The integer part brought into the range of `i64`; zero for a NaN.
    pub open spec fn as_i64(self) -> int {
        if self.is_nan() {
            0
        } else if self.truncated() > i64::MAX {
            i64::MAX as int
        } else if self.truncated() < i64::MIN {
            i64::MIN as int
        } else {
            self.truncated()
        }
    }

    /// The integer part brought into the range of `i64`; zero for a NaN.
    pub fn to_i64(self) -> (result: i64)
        ensures
            result == self.as_i64(),
    {
        if self.nan() {
            return 0;
        }
        let size: u64 = whole_of(self.magnitude_bits());
        if self.bits >= crate::binary64::SIGN_BIT {
            if size >= 0x8000_0000_0000_0000 {
                i64::MIN
            } else {
                -(size as i64)
            }
        } else if size >= 0x8000_0000_0000_0000 {
            i64::MAX
        } else {
            size as i64
        }
    }

    /// The whole number nearest to the value, halves away from zero, brought into
    /// `0..=top`; zero for a NaN.
    pub open spec fn nearest_within(self, top: nat) -> nat {
        if self.is_nan() || self.is_negative() {
            0
        } else {
            capped(nearest(size_in_units(self.magnitude())), top)
        }
    }

    /// The whole number nearest to the value, halves away from zero, brought into
    /// `0..=top`; zero for a NaN.
    pub fn round_within(self, top: u32) -> (result: u32)
        ensures
            result == self.nearest_within(top as nat),
    {
        if self.nan() || self.bits >= crate::binary64::SIGN_BIT {
            0
        } else {
            nearest_of(self.magnitude_bits(), top)
        }
    }

    /// The whole number nearest to the value, halves to the even one, brought into
    /// `0..=top`; zero for a NaN.
    pub open spec fn nearest_even_within(self, top: nat) -> nat {
        if self.is_nan() || self.is_negative() {
            0
        } else {
            capped(nearest_even(size_in_units(self.magnitude())), top)
        }
    }

    /// The whole number nearest to the value, halves to the even one, brought into
    /// `0..=top`; zero for a NaN.
    pub fn round_even_within(self, top: u32) -> (result: u32)
        ensures
            result == self.nearest_even_within(top as nat),
    {
        if self.nan() || self.bits >= crate::binary64::SIGN_BIT {
            0
        } else {
            nearest_even_of(self.magnitude_bits(), top)
        }
    }
}

proof fn lemma_whole_between(size: nat, k: nat)
    requires
        k * one_in_units() <= size < (k + 1) * one_in_units(),
    ensures
        whole(size) == k,
        excess(size) == size - k * one_in_units(),
{
    let one = one_in_units();
    lemma_pow2_pos(1074);
    assert((k + 1) * one == k * one + one) by (nonlinear_arith);
    lemma_fundamental_div_mod_converse(
        size as int,
        one as int,
        k as int,
        (size - k * one) as int,
    );
}

/// A value from `k` on and below `k + 1` has the integer part `k`; one below zero is brought
/// up to zero, one beyond the range down to its top, and a NaN is zero.
pub proof fn conversions_round_down(value: Binary64, top: nat, k: nat)
    ensures
        value.is_nan() ==> value.saturated(top) == 0 && value.as_i64() == 0,
        !value.is_nan() && value.units() < one_in_units() ==> value.saturated(top) == 0,
        !value.is_nan() && k * one_in_units() <= value.units() < (k + 1) * one_in_units() && k
            <= top ==> value.saturated(top) == k,
        !value.is_nan() && top * one_in_units() <= value.units() ==> value.saturated(top) == top,
        !value.is_nan() && k * one_in_units() <= value.units() < (k + 1) * one_in_units() && k
            <= 0x7fff_ffff_ffff_ffff ==> value.as_i64() == k,
        !value.is_nan() && k * one_in_units() <= -value.units() < (k + 1) * one_in_units() && k
            <= 0x8000_0000_0000_0000 ==> value.as_i64() == -k,
        value.as_u32() == value.saturated(0xffff_ffff),
{
    let one = one_in_units();
    let size = size_in_units(value.magnitude());
    lemma_pow2_pos(1074);
    assert((k + 1) * one >= 0 && k * one >= 0 && top * one >= 0) by (nonlinear_arith);
    if k * one <= size < (k + 1) * one {
        lemma_whole_between(size, k);
    }
    if size < one {
        assert(0 * one == 0 && 1 * one == one) by (nonlinear_arith);
        lemma_whole_between(size, 0);
    }
    if top * one <= size {
        let w = whole(size);
        lemma_fundamental_div_mod(size as int, one as int);
        assert(one * w == w * one) by (nonlinear_arith);
        assert(w >= top) by (nonlinear_arith)
            requires
                size == w * one + excess(size),
                excess(size) < one,
                top * one <= size,
                one > 0,
        ;
    }
    if value.is_negative() {
        lemma_size_zero(value.magnitude());
        if k * one <= value.units() {
            assert(size == 0);
            assert(k == 0) by (nonlinear_arith)
                requires
                    k * one <= 0,
                    one > 0,
            ;
        }
        if top * one <= value.units() {
            assert(top == 0) by (nonlinear_arith)
                requires
                    top * one <= 0,
                    one > 0,
            ;
        }
    } else if k * one <= -value.units() < (k + 1) * one {
        assert(size == 0);
        assert(k == 0) by (nonlinear_arith)
            requires
                k * one <= 0,
                one > 0,
        ;
        assert(0 * one == 0 && 1 * one == one) by (nonlinear_arith);
        lemma_whole_between(0, 0);
    }
}

/// A value from a half below `k` on and below a half above it is rounded to `k`.
pub proof fn rounding_goes_to_the_nearest(value: Binary64, top: nat, k: nat)
    requires
        !value.is_nan(),
        !value.is_negative(),
        (2 * k - 1) * one_in_units() <= 2 * value.units() < (2 * k + 1) * one_in_units(),
    ensures
        value.nearest_within(top) == if k <= top {
            k
        } else {
            top
        },
{
    let one = one_in_units();
    let size = size_in_units(value.magnitude());
    lemma_pow2_pos(1074);
    assert((2 * k - 1) * one == 2 * (k * one) - one && (2 * k + 1) * one == 2 * (k * one) + one)
        by (nonlinear_arith);
    if k * one <= size {
        assert((k + 1) * one == k * one + one) by (nonlinear_arith);
        lemma_whole_between(size, k);
    } else {
        assert(k > 0) by (nonlinear_arith)
            requires
                k * one > 0,
        ;
        let j = (k - 1) as nat;
        assert(j * one == k * one - one && (j + 1) * one == k * one) by (nonlinear_arith)
            requires
                j == k - 1,
        ;
        lemma_whole_between(size, j);
    }
}

/// A value is rounded to the nearest whole number, and to the even one of two that are
/// equally near.
pub proof fn even_rounding_goes_to_the_nearest(value: Binary64, top: nat, k: nat)
    requires
        !value.is_nan(),
        !value.is_negative(),
        (2 * k - 1) * one_in_units() <= 2 * value.units() <= (2 * k + 1) * one_in_units(),
        k % 2 == 0 || (2 * k - 1) * one_in_units() < 2 * value.units() < (2 * k + 1)
            * one_in_units(),
    ensures
        value.nearest_even_within(top) == if k <= top {
            k
        } else {
            top
        },
{
    let one = one_in_units();
    let size = size_in_units(value.magnitude());
    lemma_pow2_pos(1074);
    assert((2 * k - 1) * one == 2 * (k * one) - one && (2 * k + 1) * one == 2 * (k * one) + one)
        by (nonlinear_arith);
    if k * one <= size {
        assert((k + 1) * one == k * one + one) by (nonlinear_arith);
        lemma_whole_between(size, k);
    } else {
        assert(k > 0) by (nonlinear_arith)
            requires
                k * one > 0,
        ;
        let j = (k - 1) as nat;
        assert(j * one == k * one - one && (j + 1) * one == k * one) by (nonlinear_arith)
            requires
                j == k - 1,
        ;
        lemma_whole_between(size, j);
    }
}

/// A value is rounded to at least `k` exactly from a half below `k` on, and cut down to at
/// least `k` exactly from `k` on.
pub proof fn conversions_reach(value: Binary64, top: nat, k: nat)
    requires
        0 < k <= top,
    ensures
        value.nearest_within(top) >= k <==> !value.is_nan() && 2 * value.units() >= (2 * k - 1)
            * one_in_units(),
        value.saturated(top) >= k <==> !value.is_nan() && value.units() >= k * one_in_units(),
{
    let one = one_in_units();
    let size = size_in_units(value.magnitude());
    let w = whole(size);
    let e = excess(size);
    lemma_pow2_pos(1074);
    lemma_fundamental_div_mod(size as int, one as int);
    assert(one * w == w * one) by (nonlinear_arith);
    assert((2 * k - 1) * one == 2 * (k * one) - one) by (nonlinear_arith);
    assert(k * one >= one) by (nonlinear_arith)
        requires
            k >= 1,
            one > 0,
    ;
    if w >= k {
        assert(w * one >= k * one) by (nonlinear_arith)
            requires
                w >= k,
                one > 0,
        ;
    } else if w == k - 1 {
        assert(w * one == k * one - one) by (nonlinear_arith)
            requires
                w == k - 1,
        ;
    } else {
        assert(w * one <= k * one - 2 * one) by (nonlinear_arith)
            requires
                w <= k - 2,
                one > 0,
        ;
    }
}

/// A number is rounded to a multiple of the step, no further away than half a step, and to the
/// even one of two multiples that are equally far.
pub proof fn multiples_are_the_nearest(n: nat, step: nat)
    requires
        step > 0,
    ensures
        nearest_multiple(n, step) % step == 0,
        2 * nearest_multiple(n, step) <= 2 * n + step,
        2 * n <= 2 * nearest_multiple(n, step) + step,
        2 * nearest_multiple(n, step) == 2 * n + step || 2 * n == 2 * nearest_multiple(n, step)
            + step ==> (nearest_multiple(n, step) / step) % 2 == 0,
{
    let quotient = n / step;
    let rest = n % step;
    lemma_fundamental_div_mod(n as int, step as int);
    assert(step * quotient == quotient * step) by (nonlinear_arith);
    assert((quotient + 1) * step == quotient * step + step) by (nonlinear_arith);
    lemma_fundamental_div_mod_converse(
        (quotient * step) as int,
        step as int,
        quotient as int,
        0,
    );
    lemma_fundamental_div_mod_converse(
        ((quotient + 1) * step) as int,
        step as int,
        (quotient + 1) as int,
        0,
    );
}

/// Whole numbers are spaced as doubles are: exactly up to `2^53`, and from there on so that
/// between `2^52` and `2^53` steps lead to the number.
pub proof fn whole_numbers_are_spaced(n: nat)
    ensures
        granularity(n) >= 1,
        n < 0x20_0000_0000_0000 * granularity(n),
        n < 0x20_0000_0000_0000 <==> granularity(n) == 1,
        granularity(n) > 1 ==> n >= 0x10_0000_0000_0000 * granularity(n),
        n >= 0x10_0000_0000_0000 ==> granularity(2 * n) == 2 * granularity(n),
    decreases n,
{
    if n >= 2 * FRACTION_SPAN {
        whole_numbers_are_spaced(n / 2);
    }
    if n >= 0x10_0000_0000_0000 {
        assert((2 * n) / 2 == n);
        assert(granularity(2 * n) == 2 * granularity((2 * n) / 2));
    }
}

/// A finite value is a whole number exactly if it is some number of ones.
pub proof fn whole_numbers_are_ones(value: Binary64, k: nat)
    ensures
        value.is_integral() ==> value.is_finite() && (value.units() == value.truncated()
            * one_in_units()),
        value.is_finite() && (value.units() == k * one_in_units() || -value.units() == k
            * one_in_units()) ==> value.is_integral(),
{
    let one = one_in_units();
    let size = size_in_units(value.magnitude());
    lemma_pow2_pos(1074);
    lemma_fundamental_div_mod(size as int, one as int);
    let w = whole(size);
    assert(one * w == w * one) by (nonlinear_arith);
    assert((-(w as int)) * one == -(w * one)) by (nonlinear_arith);
    assert(k * one >= 0) by (nonlinear_arith);
    if value.units() == k * one || -value.units() == k * one {
        assert(size == k * one);
        lemma_fundamental_div_mod_converse(size as int, one as int, k as int, 0);
    }
}

/// A value beyond the range of `i64` is brought to the end that it is beyond, and a rounded value
/// is never beyond the top; what is below zero or no number is rounded to zero.
pub proof fn conversions_stop_at_the_range(value: Binary64, top: nat)
    ensures
        !value.is_nan() && value.units() >= 0x8000_0000_0000_0000 * one_in_units()
            ==> value.as_i64() == 0x7fff_ffff_ffff_ffff,
        !value.is_nan() && -value.units() >= 0x8000_0000_0000_0000 * one_in_units()
            ==> value.as_i64() == -0x8000_0000_0000_0000,
        value.nearest_within(top) <= top,
        value.nearest_even_within(top) <= top,
        value.saturated(top) <= top,
        value.is_nan() || value.is_negative() ==> value.nearest_within(top) == 0
            && value.nearest_even_within(top) == 0 && value.saturated(top) == 0,
{
    let one = one_in_units();
    let size = size_in_units(value.magnitude());
    let w = whole(size);
    lemma_pow2_pos(1074);
    lemma_fundamental_div_mod(size as int, one as int);
    if size >= 0x8000_0000_0000_0000 * one {
        assert(w >= 0x8000_0000_0000_0000) by (nonlinear_arith)
            requires
                size == one * w + size % one,
                size % one < one,
                size >= 0x8000_0000_0000_0000 * one,
                one > 0,
        ;
    }
}

} // verus!
