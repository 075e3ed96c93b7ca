//! How long a slider can last when a map is converted to mania.
//!
//! The conversion counts milliseconds in `i32`. A bound on the duration of a slider, found
//! in whole numbers, tells whether the count stays in range.

use crate::binary64::{one_in_units, size_in_units, Binary64, FRACTION_SPAN, SIGN_BIT};
use crate::conversion::{whole, whole_of};
use vstd::arithmetic::div_mod::{
    lemma_basic_div, lemma_div_is_ordered, lemma_div_multiples_vanish,
    lemma_fundamental_div_mod_converse,
};
use vstd::arithmetic::power2::{
    lemma2_to64, lemma2_to64_rest, lemma_pow2_adds, lemma_pow2_pos, lemma_pow2_strictly_increases,
    pow2,
};
use vstd::prelude::*;

verus! {

/// `2^20`, how many parts one is counted in.
pub const PARTS: u64 = 0x10_0000;

/// `2^40`, more parts than any number has that takes part in a duration.
pub const PARTS_LIMIT: u64 = 0x100_0000_0000;

/// The beat length of a map without one, a second, in parts of a millisecond.
pub const DEFAULT_BEAT_PARTS: u64 = 1_048_576_000;

/// How many whole parts a value that is neither negative nor a NaN has.
pub open spec fn parts(value: Binary64) -> nat {
    whole(size_in_units(value.magnitude()) * (PARTS as nat))
}

/// Whether a value is neither negative nor a NaN and has fewer than [`PARTS_LIMIT`] parts.
pub open spec fn is_moderate(value: Binary64) -> bool {
    !value.is_nan() && !value.is_negative() && parts(value) < PARTS_LIMIT
}

/// Whether the doubles with these bits are moderate.
pub open spec fn all_moderate(bits: Seq<u64>) -> bool {
    forall|i: int| 0 <= i < bits.len() ==> is_moderate(Binary64 { bits: #[trigger] bits[i] })
}

/// The parts of the greatest of the values, but no fewer than `least`.
pub open spec fn greatest_parts(bits: Seq<u64>, least: nat) -> nat
    decreases bits.len(),
{
    if bits.len() == 0 {
        least
    } else {
        let rest = greatest_parts(bits.drop_last(), least);
        let last = parts(Binary64 { bits: bits.last() });
        if rest < last {
            last
        } else {
            rest
        }
    }
}

/// The parts of the least of the values, but no more than `most`.
pub open spec fn least_parts(bits: Seq<u64>, most: nat) -> nat
    decreases bits.len(),
{
    if bits.len() == 0 {
        most
    } else {
        let rest = least_parts(bits.drop_last(), most);
        let last = parts(Binary64 { bits: bits.last() });
        if last < rest {
            last
        } else {
            rest
        }
    }
}

/// The parts of a double whose exponent field is not zero are the integer part of the double
/// with an exponent field that is larger by 20.
proof fn lemma_scaled_size(magnitude: nat)
    requires
        magnitude >= FRACTION_SPAN,
    ensures
        size_in_units((magnitude + 20 * FRACTION_SPAN) as nat) == size_in_units(magnitude) * (
        PARTS as nat),
{
    let span = FRACTION_SPAN as nat;
    let exponent = magnitude / span;
    let fraction = magnitude % span;
    let scaled = (magnitude + 20 * FRACTION_SPAN) as nat;
    vstd::arithmetic::div_mod::lemma_fundamental_div_mod(magnitude as int, span as int);
    assert(exponent >= 1) by (nonlinear_arith)
        requires
            exponent == magnitude / span,
            magnitude >= span,
            span > 0,
    ;
    assert(span * exponent == exponent * span) by (nonlinear_arith);
    assert(scaled == (exponent + 20) * span + fraction) by (nonlinear_arith)
        requires
            scaled == magnitude + 20 * span,
            magnitude == exponent * span + fraction,
    ;
    lemma_fundamental_div_mod_converse(
        scaled as int,
        span as int,
        (exponent + 20) as int,
        fraction as int,
    );
    lemma_pow2_adds((exponent - 1) as nat, 20);
    lemma2_to64();
    assert(pow2(20) == PARTS);
    let p = pow2((exponent - 1) as nat);
    assert((span + fraction) * (p * (PARTS as nat)) == ((span + fraction) * p) * (PARTS as nat))
        by (nonlinear_arith);
}

/// The least doubles have no whole part.
proof fn lemma_no_parts(magnitude: nat)
    requires
        magnitude < FRACTION_SPAN,
    ensures
        whole(size_in_units(magnitude) * (PARTS as nat)) == 0,
{
    let span = FRACTION_SPAN as nat;
    let size = size_in_units(magnitude);
    assert(magnitude / span == 0 && magnitude % span == magnitude) by (nonlinear_arith)
        requires
            magnitude < span,
    ;
    lemma2_to64();
    lemma2_to64_rest();
    lemma_pow2_adds(52, 20);
    lemma_pow2_strictly_increases(72, 1074);
    assert(size * (PARTS as nat) < span * (PARTS as nat)) by (nonlinear_arith)
        requires
            size < span,
            PARTS > 0,
    ;
    assert(pow2(52) == span && pow2(20) == PARTS);
    lemma_basic_div((size * (PARTS as nat)) as int, one_in_units() as int);
}

/// The greatest doubles have more than [`PARTS_LIMIT`] parts.
proof fn lemma_many_parts(magnitude: nat)
    requires
        magnitude >= 1075 * FRACTION_SPAN,
    ensures
        whole(size_in_units(magnitude) * (PARTS as nat)) >= PARTS_LIMIT,
{
    let span = FRACTION_SPAN as nat;
    let one = one_in_units();
    let bottom = (1075 * FRACTION_SPAN) as nat;
    if bottom < magnitude {
        crate::binary64::lemma_size_strictly_increases(bottom, magnitude);
    }
    assert(bottom / span == 1075 && bottom % span == 0);
    let size = size_in_units(magnitude);
    assert(size >= span * one);
    lemma_pow2_pos(1074);
    let product = (size * (PARTS as nat)) as int;
    assert(product >= (span * (PARTS as nat)) * one) by (nonlinear_arith)
        requires
            size >= span * one,
            product == size * (PARTS as nat),
    ;
    let multiple = (span * (PARTS as nat)) as int;
    lemma_div_is_ordered(multiple * (one as int), product, one as int);
    assert(multiple * (one as int) == (one as int) * multiple) by (nonlinear_arith);
    lemma_div_multiples_vanish(multiple, one as int);
}

/// The parts of a value, if it is moderate.
pub fn moderate_parts(value: Binary64) -> (count: Option<u64>)
    ensures
        count is Some <==> is_moderate(value),
        count matches Some(count) ==> count == parts(value),
{
    if value.bits >= SIGN_BIT || value.nan() {
        return None;
    }
    let magnitude: u64 = value.bits;
    if magnitude < FRACTION_SPAN {
        proof {
            lemma_no_parts(magnitude as nat);
        }
        return Some(0);
    }
    if magnitude >= 1075 * FRACTION_SPAN {
        proof {
            lemma_many_parts(magnitude as nat);
        }
        return None;
    }
    proof {
        lemma_scaled_size(magnitude as nat);
    }
    let count: u64 = whole_of(magnitude + 20 * FRACTION_SPAN);
    if count < PARTS_LIMIT {
        Some(count)
    } else {
        None
    }
}

/// A slider: the bits of the time at which it starts, those of its length if it has one, and
/// how often it repeats.
pub type Slide = (u64, Option<u64>, usize);

/// The length of a slider; one that has none has the length zero.
pub open spec fn length_of(slide: Slide) -> Binary64 {
    match slide.1 {
        Some(bits) => Binary64 { bits },
        None => Binary64 { bits: 0 },
    }
}

/// A bound, in ms, on what a slider and one span more last: on the length times the beat
/// length times the number of spans, through a hundred times the velocity times the
/// multiplier.
///
/// It allows for a rounding error of one in `2^20`, and one ms for each rounding to whole
/// ones.
pub open spec fn duration_bound(
    length: nat,
    spans: nat,
    beat: nat,
    velocity: nat,
    multiplier: nat,
) -> nat {
    let quotient = (length + 1) * (beat + 1) * spans / (100 * velocity * multiplier);
    let duration = quotient + quotient / (PARTS as nat) + 2;
    duration + duration / spans + 1
}

/// Whether a slider, and one span more, ends in the range of `i32` and lasts no longer than
/// that, where beats, velocity and multiplier are given in parts.
pub open spec fn slide_fits(slide: Slide, beat: nat, velocity: nat, multiplier: nat) -> bool {
    let start = Binary64 { bits: slide.0 };
    let spans = (slide.2 + 1) as nat;
    let bound = duration_bound(parts(length_of(slide)), spans, beat, velocity, multiplier);
    &&& !start.is_nan()
    &&& is_moderate(length_of(slide))
    &&& slide.2 < PARTS
    &&& bound <= i32::MAX
    &&& start.truncated() + 1 + bound <= i32::MAX
}

/// Whether a slider, and one span more, ends in the range of `i32` and lasts no longer than
/// that.
pub fn fits(slide: Slide, beat: u64, velocity: u64, multiplier: u64) -> (answer: bool)
    requires
        beat < PARTS_LIMIT,
        0 < velocity < PARTS_LIMIT,
        0 < multiplier < PARTS_LIMIT,
    ensures
        answer == slide_fits(slide, beat as nat, velocity as nat, multiplier as nat),
{
    let (start_bits, length_bits, repeats): (u64, Option<u64>, usize) = slide;
    let start: Binary64 = Binary64::from_bits(start_bits);
    let length: Binary64 = match length_bits {
        Some(bits) => Binary64::from_bits(bits),
        None => Binary64::from_bits(0),
    };
    if start.nan() || repeats as u64 >= PARTS {
        return false;
    }
    let length: u64 = match moderate_parts(length) {
        Some(count) => count,
        None => {
            return false;
        },
    };
    let spans: u128 = repeats as u128 + 1;
    let a: u128 = length as u128 + 1;
    let b: u128 = beat as u128 + 1;
    proof {
        assert(a * b <= 0x1_0000_0000_0000_0000_0000) by (nonlinear_arith)
            requires
                0 <= a <= 0x100_0000_0000,
                0 <= b <= 0x100_0000_0000,
        ;
        assert(a * b * spans <= 0x10_0000_0000_0000_0000_0000_0000) by (nonlinear_arith)
            requires
                0 <= a * b <= 0x1_0000_0000_0000_0000_0000,
                0 <= spans <= 0x10_0000,
        ;
        assert(0 < 100 * velocity <= 100 * 0x100_0000_0000);
        assert(0 < (100 * velocity) * multiplier <= 100 * 0x1_0000_0000_0000_0000_0000)
            by (nonlinear_arith)
            requires
                0 < 100 * velocity <= 100 * 0x100_0000_0000,
                0 < multiplier <= 0x100_0000_0000,
        ;
    }
    let quotient: u128 = a * b * spans / (100 * velocity as u128 * multiplier as u128);
    proof {
        assert(quotient <= a * b * spans) by (nonlinear_arith)
            requires
                quotient == (a * b * spans) / (100 * velocity * multiplier),
                0 <= a * b * spans,
                100 * velocity * multiplier > 0,
        ;
    }
    let duration: u128 = quotient + quotient / PARTS as u128 + 2;
    let bound: u128 = duration + duration / spans + 1;
    assert(bound == duration_bound(
        parts(length_of(slide)),
        spans as nat,
        beat as nat,
        velocity as nat,
        multiplier as nat,
    ));
    if bound > i32::MAX as u128 {
        return false;
    }
    let from: i64 = start.to_i64();
    from <= i32::MAX as i64 - 1 - bound as i64
}

/// A value has `k` parts or more exactly if it is no less than `k` times `2^-20`.
pub proof fn parts_are_counted(value: Binary64, k: nat)
    ensures
        parts(value) >= k <==> size_in_units(value.magnitude()) * 0x10_0000 >= k * one_in_units(),
{
    let one = one_in_units();
    let scaled = size_in_units(value.magnitude()) * (PARTS as nat);
    let w = whole(scaled);
    lemma_pow2_pos(1074);
    vstd::arithmetic::div_mod::lemma_fundamental_div_mod(scaled as int, one as int);
    assert(one * w == w * one) by (nonlinear_arith);
    if w >= k {
        assert(w * one >= k * one) by (nonlinear_arith)
            requires
                w >= k,
        ;
    } else {
        assert(k * one >= w * one + one) by (nonlinear_arith)
            requires
                k >= w + 1,
                one > 0,
        ;
    }
}

/// No value has more parts than the greatest, nor fewer than the least; each is the one of a
/// value or the bound that was given.
pub proof fn the_greatest_and_the_least_bound_all(bits: Seq<u64>, bound: nat, i: int)
    ensures
        greatest_parts(bits, bound) >= bound,
        least_parts(bits, bound) <= bound,
        0 <= i < bits.len() ==> least_parts(bits, bound) <= parts(Binary64 { bits: bits[i] })
            <= greatest_parts(bits, bound),
        greatest_parts(bits, bound) == bound || exists|k: int|
            0 <= k < bits.len() && greatest_parts(bits, bound) == parts(
                Binary64 { bits: #[trigger] bits[k] },
            ),
        least_parts(bits, bound) == bound || exists|k: int|
            0 <= k < bits.len() && least_parts(bits, bound) == parts(
                Binary64 { bits: #[trigger] bits[k] },
            ),
    decreases bits.len(),
{
    if bits.len() > 0 {
        let rest = bits.drop_last();
        the_greatest_and_the_least_bound_all(rest, bound, i);
        let last = bits.len() - 1;
        assert(bits.last() == bits[last]);
        assert forall|k: int| 0 <= k < rest.len() implies #[trigger] rest[k] == bits[k] by {}
        if greatest_parts(bits, bound) != bound {
            if greatest_parts(bits, bound) != parts(Binary64 { bits: bits[last] }) {
                let k = choose|k: int|
                    0 <= k < rest.len() && greatest_parts(rest, bound) == parts(
                        Binary64 { bits: #[trigger] rest[k] },
                    );
                assert(bits[k] == rest[k]);
            }
        }
        if least_parts(bits, bound) != bound {
            if least_parts(bits, bound) != parts(Binary64 { bits: bits[last] }) {
                let k = choose|k: int|
                    0 <= k < rest.len() && least_parts(rest, bound) == parts(
                        Binary64 { bits: #[trigger] rest[k] },
                    );
                assert(bits[k] == rest[k]);
            }
        }
    }
}

/// The bound on the duration of a slider is more than its length times the beat length times
/// the number of spans, through a hundred times the velocity times the multiplier.
pub proof fn durations_are_bounded(
    length: nat,
    spans: nat,
    beat: nat,
    velocity: nat,
    multiplier: nat,
)
    requires
        spans > 0,
        velocity > 0,
        multiplier > 0,
    ensures
        duration_bound(length, spans, beat, velocity, multiplier) * (100 * velocity * multiplier)
            > (length + 1) * (beat + 1) * spans,
        duration_bound(length, spans, beat, velocity, multiplier) >= 3,
{
    let product = (length + 1) * (beat + 1) * spans;
    let divisor = 100 * velocity * multiplier;
    let quotient = product / divisor;
    let bound = duration_bound(length, spans, beat, velocity, multiplier);
    assert(divisor > 0) by (nonlinear_arith)
        requires
            divisor == 100 * velocity * multiplier,
            velocity > 0,
            multiplier > 0,
    ;
    vstd::arithmetic::div_mod::lemma_fundamental_div_mod(product as int, divisor as int);
    vstd::arithmetic::div_mod::lemma_div_pos_is_pos(
        (quotient + quotient / (PARTS as nat) + 2) as int,
        spans as int,
    );
    assert(bound >= quotient + 3);
    assert(bound * divisor > product) by (nonlinear_arith)
        requires
            bound >= quotient + 3,
            product == divisor * quotient + product % divisor,
            product % divisor < divisor,
            divisor > 0,
    ;
}

proof fn lemma_bound_is_ordered(
    length: nat,
    spans: nat,
    shorter: nat,
    longer: nat,
    slower: nat,
    faster: nat,
    multiplier: nat,
)
    requires
        spans > 0,
        shorter <= longer,
        0 < slower <= faster,
        multiplier > 0,
    ensures
        duration_bound(length, spans, shorter, faster, multiplier) <= duration_bound(
            length,
            spans,
            longer,
            slower,
            multiplier,
        ),
{
    let a = (length + 1) * (shorter + 1) * spans;
    let b = (length + 1) * (longer + 1) * spans;
    let c = 100 * faster * multiplier;
    let d = 100 * slower * multiplier;
    assert((length + 1) * (shorter + 1) <= (length + 1) * (longer + 1)) by (nonlinear_arith)
        requires
            shorter <= longer,
    ;
    let m = (length + 1) * (shorter + 1);
    let n = (length + 1) * (longer + 1);
    assert(m * spans <= n * spans) by (nonlinear_arith)
        requires
            m <= n,
    ;
    assert(0 < d <= c) by (nonlinear_arith)
        requires
            c == 100 * faster * multiplier,
            d == 100 * slower * multiplier,
            0 < slower <= faster,
            multiplier > 0,
    ;
    lemma_div_is_ordered(a as int, b as int, c as int);
    vstd::arithmetic::div_mod::lemma_div_is_ordered_by_denominator(b as int, d as int, c as int);
    let p = a / c;
    let q = b / d;
    assert(p <= q);
    lemma_div_is_ordered(p as int, q as int, PARTS as int);
    let e = p + p / (PARTS as nat) + 2;
    let f = q + q / (PARTS as nat) + 2;
    lemma_div_is_ordered(e as int, f as int, spans as int);
}

/// A slider that fits at some beat length and velocity fits at every shorter beat and every
/// higher velocity.
pub proof fn slower_sliders_fit_less(
    slide: Slide,
    shorter: nat,
    longer: nat,
    slower: nat,
    faster: nat,
    multiplier: nat,
)
    requires
        shorter <= longer,
        0 < slower <= faster,
        multiplier > 0,
        slide_fits(slide, longer, slower, multiplier),
    ensures
        slide_fits(slide, shorter, faster, multiplier),
{
    lemma_bound_is_ordered(
        parts(length_of(slide)),
        (slide.2 + 1) as nat,
        shorter,
        longer,
        slower,
        faster,
        multiplier,
    );
}

/// A slider fits exactly if it starts at a number, repeats less than `2^20` times, has a moderate
/// length, none being zero, and neither the bound on its duration nor its end is beyond the
/// range of `i32`.
pub proof fn fitting_sliders_end_in_range(slide: Slide, beat: nat, velocity: nat, multiplier: nat)
    ensures
        ({
            let length = match slide.1 {
                Some(bits) => parts(Binary64 { bits }),
                None => 0,
            };
            let start = Binary64 { bits: slide.0 };
            let bound = duration_bound(
                length,
                (slide.2 + 1) as nat,
                beat,
                velocity,
                multiplier,
            );
            &&& slide.1 matches Some(bits) ==> (slide_fits(slide, beat, velocity, multiplier)
                ==> is_moderate(Binary64 { bits }))
            &&& slide_fits(slide, beat, velocity, multiplier) ==> !start.is_nan() && slide.2
                < 0x10_0000 && bound <= 0x7fff_ffff && start.truncated() + 1 + bound <= 0x7fff_ffff
            &&& !start.is_nan() && slide.2 < 0x10_0000 && bound <= 0x7fff_ffff && start.truncated()
                + 1 + bound <= 0x7fff_ffff && (slide.1 is None || is_moderate(
                Binary64 { bits: slide.1->0 },
            )) ==> slide_fits(slide, beat, velocity, multiplier)
        }),
{
    crate::binary64::lemma_size_zero(0);
    lemma_pow2_pos(1074);
    let one = one_in_units();
    assert(0 * (PARTS as nat) == 0);
    assert(0int / (one as int) == 0) by (nonlinear_arith)
        requires
            one > 0,
    ;
    assert(parts(Binary64 { bits: 0 }) == 0);
}

} // verus!
