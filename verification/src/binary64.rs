//! IEEE-754 binary64 values carried as bit patterns.
//!
//! Every measured quantity of the calculator is a double. This crate never does
//! arithmetic on doubles; it orders, classifies, converts, counts and serialises
//! them. For that a double is its 64 bits, and what the bits stand for is the
//! integer [`Binary64::units`]: the value in multiples of the least positive
//! subnormal, so that no rounding and no rational number enters a contract.

use vstd::arithmetic::power2::{
    lemma_pow2_pos, lemma_pow2_strictly_increases, lemma_pow2_unfold, pow2,
};
use vstd::prelude::*;

verus! {

/// `2^63`, the weight of the sign bit.
pub const SIGN_BIT: u64 = 0x8000_0000_0000_0000;

/// `2^52`, the number of fractions that share one exponent.
pub const FRACTION_SPAN: u64 = 0x10_0000_0000_0000;

/// The magnitude of the two infinities; larger magnitudes are NaNs.
pub const INFINITE_MAGNITUDE: u64 = 0x7ff0_0000_0000_0000;

/// The exponent field of the values whose unit in the last place is 1.
pub const INTEGRAL_EXPONENT: u64 = 1075;

/// A double, as its bit pattern.
#[derive(Clone, Copy, Debug, PartialEq, Eq, Structural)]
pub struct Binary64 {
    pub bits: u64,
}

/// How many units (multiples of `2^-1074`) one is.
pub open spec fn one_in_units() -> nat {
    pow2(1074)
}

/// The size, in units, of the double whose bits without the sign are `magnitude`.
///
/// The infinities get the size that the next exponent would have: larger than
/// every finite size, which is all an ordering needs of them.
pub open spec fn size_in_units(magnitude: nat) -> nat {
    let exponent = magnitude / (FRACTION_SPAN as nat);
    let fraction = magnitude % (FRACTION_SPAN as nat);
    if exponent == 0 {
        fraction
    } else {
        (FRACTION_SPAN as nat + fraction) * pow2((exponent - 1) as nat)
    }
}

impl Binary64 {
    /// The bits without the sign.
    pub open spec fn magnitude(self) -> nat {
        if self.bits >= SIGN_BIT {
            (self.bits - SIGN_BIT) as nat
        } else {
            self.bits as nat
        }
    }

    pub open spec fn is_negative(self) -> bool {
        self.bits >= SIGN_BIT
    }

    pub open spec fn is_nan(self) -> bool {
        self.magnitude() > INFINITE_MAGNITUDE
    }

    pub open spec fn is_finite(self) -> bool {
        self.magnitude() < INFINITE_MAGNITUDE
    }

    /// The value in units. Meaningless on a NaN.
    pub open spec fn units(self) -> int {
        if self.is_negative() {
            -(size_in_units(self.magnitude()) as int)
        } else {
            size_in_units(self.magnitude()) as int
        }
    }

    /// `self < other` of IEEE-754.
    pub open spec fn lt(self, other: Binary64) -> bool {
        !self.is_nan() && !other.is_nan() && self.units() < other.units()
    }

    /// `self <= other` of IEEE-754.
    pub open spec fn le(self, other: Binary64) -> bool {
        !self.is_nan() && !other.is_nan() && self.units() <= other.units()
    }

    /// `self == other` of IEEE-754: the two zeros are equal, a NaN equals nothing.
    pub open spec fn same_value(self, other: Binary64) -> bool {
        !self.is_nan() && !other.is_nan() && self.units() == other.units()
    }

    /// The position of the value in the total order of IEEE-754: negative NaNs, then
    /// the values from minus to plus infinity with -0 before +0, then positive NaNs.
    pub open spec fn total_rank(self) -> int {
        if self.is_negative() {
            -1 - self.magnitude()
        } else {
            self.magnitude() as int
        }
    }
}

/// Sizes grow strictly with the bits.
pub proof fn lemma_size_strictly_increases(a: nat, b: nat)
    requires
        a < b,
    ensures
        size_in_units(a) < size_in_units(b),
{
    let span = FRACTION_SPAN as nat;
    let ea = a / span;
    let fa = a % span;
    let eb = b / span;
    let fb = b % span;
    assert(a == span * ea + fa && b == span * eb + fb && fa < span && fb < span && ea <= eb)
        by (nonlinear_arith)
        requires
            ea == a / span,
            fa == a % span,
            eb == b / span,
            fb == b % span,
            span > 0,
            a < b,
    ;
    if eb == 0 {
    } else if ea == eb {
        assert(fa < fb);
        lemma_pow2_pos((ea - 1) as nat);
        assert((span + fa) * pow2((ea - 1) as nat) < (span + fb) * pow2((ea - 1) as nat))
            by (nonlinear_arith)
            requires
                fa < fb,
                pow2((ea - 1) as nat) > 0,
        ;
    } else if ea == 0 {
        lemma_pow2_pos((eb - 1) as nat);
        assert((span + fb) * pow2((eb - 1) as nat) >= span) by (nonlinear_arith)
            requires
                pow2((eb - 1) as nat) >= 1,
        ;
    } else {
        let pa = pow2((ea - 1) as nat);
        let pb = pow2((eb - 1) as nat);
        lemma_pow2_pos((ea - 1) as nat);
        lemma_pow2_unfold(ea);
        assert(pow2(ea) == 2 * pa);
        if ea < eb - 1 {
            lemma_pow2_strictly_increases(ea, (eb - 1) as nat);
        }
        assert(2 * pa <= pb);
        assert((span + fa) * pa < (span + fb) * pb) by (nonlinear_arith)
            requires
                fa < span,
                pa > 0,
                2 * pa <= pb,
                fb >= 0,
        ;
    }
}

/// Sizes are ordered as the bits are.
pub proof fn lemma_size_order(a: nat, b: nat)
    ensures
        a < b <==> size_in_units(a) < size_in_units(b),
        a == b <==> size_in_units(a) == size_in_units(b),
{
    if a < b {
        lemma_size_strictly_increases(a, b);
    } else if b < a {
        lemma_size_strictly_increases(b, a);
    }
}

/// Only the zeros have the size zero.
pub proof fn lemma_size_zero(a: nat)
    ensures
        size_in_units(a) == 0 <==> a == 0,
        size_in_units(0) == 0,
{
    lemma_size_order(0, a);
}

impl Binary64 {
    pub fn from_bits(bits: u64) -> (value: Binary64)
        ensures
            value.bits == bits,
    {
        Binary64 { bits }
    }

    /// The bits without the sign.
    pub fn magnitude_bits(self) -> (magnitude: u64)
        ensures
            magnitude == self.magnitude(),
            magnitude < SIGN_BIT,
    {
        if self.bits >= SIGN_BIT {
            self.bits - SIGN_BIT
        } else {
            self.bits
        }
    }

    /// Whether the value is neither infinite nor a NaN.
    pub fn finite(self) -> (answer: bool)
        ensures
            answer == self.is_finite(),
    {
        self.magnitude_bits() < INFINITE_MAGNITUDE
    }

    pub fn nan(self) -> (answer: bool)
        ensures
            answer == self.is_nan(),
    {
        self.magnitude_bits() > INFINITE_MAGNITUDE
    }

    /// The magnitude with the sign applied: ordered as the values are.
    fn signed_magnitude(self) -> (signed: i64)
        ensures
            signed == if self.is_negative() {
                -(self.magnitude() as int)
            } else {
                self.magnitude() as int
            },
    {
        let magnitude: i64 = self.magnitude_bits() as i64;
        if self.bits >= SIGN_BIT {
            -magnitude
        } else {
            magnitude
        }
    }

    /// `self < other` of IEEE-754.
    pub fn less(self, other: Binary64) -> (answer: bool)
        ensures
            answer == self.lt(other),
    {
        proof {
            lemma_units_order(self, other);
        }
        !self.nan() && !other.nan() && self.signed_magnitude() < other.signed_magnitude()
    }

    /// `self <= other` of IEEE-754.
    pub fn at_most(self, other: Binary64) -> (answer: bool)
        ensures
            answer == self.le(other),
    {
        proof {
            lemma_units_order(self, other);
        }
        !self.nan() && !other.nan() && self.signed_magnitude() <= other.signed_magnitude()
    }

    /// `self == other` of IEEE-754.
    pub fn equals(self, other: Binary64) -> (answer: bool)
        ensures
            answer == self.same_value(other),
    {
        proof {
            lemma_units_order(self, other);
        }
        !self.nan() && !other.nan() && self.signed_magnitude() == other.signed_magnitude()
    }

    /// The position of the value in the total order.
    pub fn rank(self) -> (rank: i64)
        ensures
            rank == self.total_rank(),
    {
        let magnitude: i64 = self.magnitude_bits() as i64;
        if self.bits >= SIGN_BIT {
            -1 - magnitude
        } else {
            magnitude
        }
    }
}

/// Values are ordered as their signed magnitudes are.
proof fn lemma_units_order(a: Binary64, b: Binary64)
    ensures
        ({
            let sa = if a.is_negative() { -(a.magnitude() as int) } else { a.magnitude() as int };
            let sb = if b.is_negative() { -(b.magnitude() as int) } else { b.magnitude() as int };
            (sa < sb <==> a.units() < b.units()) && (sa == sb <==> a.units() == b.units())
        }),
{
    lemma_size_order(a.magnitude(), b.magnitude());
    lemma_size_zero(a.magnitude());
    lemma_size_zero(b.magnitude());
}

/// The total order refines the order of the values.
pub proof fn lemma_rank_order(a: Binary64, b: Binary64)
    ensures
        a.total_rank() == b.total_rank() <==> a == b,
        a.total_rank() <= b.total_rank() && !a.is_nan() && !b.is_nan() ==> a.le(b),
        a.lt(b) ==> a.total_rank() < b.total_rank(),
{
    lemma_units_order(a, b);
}

/// The bits of a double: the first tells the sign, the next eleven are all set exactly if the
/// value is not finite, and the rest then tell a NaN from an infinity.
pub proof fn bits_tell_what_a_double_is(value: Binary64)
    ensures
        value.is_negative() <==> value.bits & 0x8000_0000_0000_0000 != 0,
        value.is_finite() <==> value.bits & 0x7ff0_0000_0000_0000 != 0x7ff0_0000_0000_0000,
        value.is_nan() <==> value.bits & 0x7ff0_0000_0000_0000 == 0x7ff0_0000_0000_0000
            && value.bits & 0xf_ffff_ffff_ffff != 0,
{
    let bits = value.bits;
    assert((bits & 0x8000_0000_0000_0000 != 0) == (bits >= 0x8000_0000_0000_0000)) by (bit_vector);
    assert((bits & 0x7ff0_0000_0000_0000 == 0x7ff0_0000_0000_0000) == (if bits
        >= 0x8000_0000_0000_0000 {
        bits - 0x8000_0000_0000_0000 >= 0x7ff0_0000_0000_0000
    } else {
        bits >= 0x7ff0_0000_0000_0000
    })) by (bit_vector);
    assert((bits & 0x7ff0_0000_0000_0000 == 0x7ff0_0000_0000_0000 && bits & 0xf_ffff_ffff_ffff != 0)
        == (if bits >= 0x8000_0000_0000_0000 {
        bits - 0x8000_0000_0000_0000 > 0x7ff0_0000_0000_0000
    } else {
        bits > 0x7ff0_0000_0000_0000
    })) by (bit_vector);
}

/// The least doubles are their bits in units, and a larger exponent doubles the size. The sign
/// turns a value around.
pub proof fn exponents_double(magnitude: nat, value: Binary64)
    ensures
        magnitude <= 0x10_0000_0000_0000 ==> size_in_units(magnitude) == magnitude,
        magnitude >= 0x10_0000_0000_0000 ==> size_in_units(magnitude + 0x10_0000_0000_0000) == 2
            * size_in_units(magnitude),
        value.bits < 0x8000_0000_0000_0000 ==> (Binary64 {
            bits: (value.bits + 0x8000_0000_0000_0000) as u64,
        }).units() == -value.units(),
        value.bits < 0x8000_0000_0000_0000 ==> value.units() == size_in_units(value.bits as nat),
{
    vstd::arithmetic::power2::lemma2_to64();
    let span = FRACTION_SPAN as nat;
    if magnitude >= span {
        let e = magnitude / span;
        assert((magnitude + span) / span == e + 1 && (magnitude + span) % span == magnitude % span);
        lemma_pow2_unfold(e);
        let m = span + magnitude % span;
        let p = pow2((e - 1) as nat);
        assert(m * (2 * p) == 2 * (m * p)) by (nonlinear_arith);
        assert(pow2(e) == 2 * p);
        if magnitude == span {
            assert(e == 1 && magnitude % span == 0);
            assert((span + 0) * p == span) by (nonlinear_arith)
                requires
                    p == 1,
            ;
        }
    }
}

/// Of two numbers exactly one is less than the other, or they have the same value; a NaN is
/// neither less, nor more, nor the same as anything. What is at most another is less or the
/// same, and the order carries over.
pub proof fn numbers_are_ordered(a: Binary64, b: Binary64, c: Binary64)
    ensures
        !a.is_nan() && !b.is_nan() ==> a.lt(b) || b.lt(a) || a.same_value(b),
        !(a.lt(b) && b.lt(a)) && !(a.lt(b) && a.same_value(b)),
        a.is_nan() ==> !a.lt(b) && !b.lt(a) && !a.le(b) && !b.le(a) && !a.same_value(b),
        a.le(b) <==> a.lt(b) || a.same_value(b),
        a.lt(b) && b.le(c) ==> a.lt(c),
        a.le(b) && b.lt(c) ==> a.lt(c),
        a.same_value(b) ==> (a == b || (a.units() == 0 && b.units() == 0)),
        a.lt(b) && !a.is_negative() ==> a.bits < b.bits,
{
    lemma_size_order(a.magnitude(), b.magnitude());
    lemma_size_zero(a.magnitude());
    lemma_size_zero(b.magnitude());
}

} // verus!
