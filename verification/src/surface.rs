//! The accuracy surface: what it decides without arithmetic on doubles.

use crate::binary64::{lemma_size_order, one_in_units, size_in_units, Binary64, INFINITE_MAGNITUDE};
use crate::conversion::{capped, excess, fraction_of, lemma_infinite_size, whole, whole_of};
use crate::order::{is_stable_order, precedes, stable_order, SortKey};
use crate::windows::{ManiaJudgement, INFINITY};
use vstd::prelude::*;

verus! {

/// How timing error spreads as a player is pushed past their skill level.
#[derive(Clone, Copy, Debug, PartialEq, Eq, Structural)]
pub struct ErrorModel {
    /// The standard deviation, in ms, of a player whose skill matches the difficulty.
    pub sigma_ref: Binary64,
    /// How sharply error grows once difficulty exceeds skill.
    pub skill_exponent: Binary64,
    /// Added to the difficulty so that easy patterns are not free.
    pub difficulty_floor: Binary64,
    /// The share of notes hit from the wide component of the error distribution.
    pub lapse_weight: Binary64,
    /// How much wider that component is.
    pub lapse_ratio: Binary64,
    /// The chance, per note, of a miss unrelated to timing.
    pub slip_rate: Binary64,
}

impl ErrorModel {
    /// 18, 1.7, 0.6, 0.034, 4.4 and 0.
    pub open spec fn calibrated() -> ErrorModel {
        ErrorModel {
            sigma_ref: Binary64 { bits: 0x4032_0000_0000_0000 },
            skill_exponent: Binary64 { bits: 0x3ffb_3333_3333_3333 },
            difficulty_floor: Binary64 { bits: 0x3fe3_3333_3333_3333 },
            lapse_weight: Binary64 { bits: 0x3fa1_6872_b020_c49c },
            lapse_ratio: Binary64 { bits: 0x4011_9999_9999_999a },
            slip_rate: Binary64 { bits: 0 },
        }
    }
}

impl Default for ErrorModel {
    fn default() -> (model: ErrorModel)
        ensures
            model == ErrorModel::calibrated(),
    {
        ErrorModel {
            sigma_ref: Binary64::from_bits(0x4032_0000_0000_0000),
            skill_exponent: Binary64::from_bits(0x3ffb_3333_3333_3333),
            difficulty_floor: Binary64::from_bits(0x3fe3_3333_3333_3333),
            lapse_weight: Binary64::from_bits(0x3fa1_6872_b020_c49c),
            lapse_ratio: Binary64::from_bits(0x4011_9999_9999_999a),
            slip_rate: Binary64::from_bits(0),
        }
    }
}

/// Whether a value is more than zero.
pub open spec fn is_positive(value: Binary64) -> bool {
    !value.is_nan() && value.units() > 0
}

/// Whether a value is more than zero. A player whose skill is not misses everything; a
/// fitted skill that is not has nothing to be compared with.
pub fn positive(value: Binary64) -> (answer: bool)
    ensures
        answer == is_positive(value),
{
    proof {
        crate::binary64::lemma_size_zero(0);
    }
    Binary64::from_bits(0).less(value)
}

/// How the mass of a normal distribution beyond a bound is found.
#[derive(Clone, Copy, Debug, PartialEq, Eq, Structural)]
pub enum TailCase {
    /// All of it: the bound is no bound, or the spread is infinite.
    Everything,
    /// None of it: the bound is infinite, or there is no spread.
    Nothing,
    /// From the error function.
    Partial,
}

/// How the mass beyond `bound` of a normal distribution with spread `sigma` is found.
pub open spec fn tail_case_of(bound: Binary64, sigma: Binary64) -> TailCase {
    let infinite = |value: Binary64| value.magnitude() == INFINITE_MAGNITUDE;
    if bound.le(Binary64 { bits: 0 }) {
        TailCase::Everything
    } else if infinite(bound) {
        TailCase::Nothing
    } else if infinite(sigma) {
        TailCase::Everything
    } else if !is_positive(sigma) {
        TailCase::Nothing
    } else {
        TailCase::Partial
    }
}

/// How the mass beyond `bound` of a normal distribution with spread `sigma` is found.
pub fn tail_case(bound: Binary64, sigma: Binary64) -> (case: TailCase)
    ensures
        case == tail_case_of(bound, sigma),
{
    if bound.at_most(Binary64::from_bits(0)) {
        TailCase::Everything
    } else if bound.magnitude_bits() == INFINITE_MAGNITUDE {
        TailCase::Nothing
    } else if sigma.magnitude_bits() == INFINITE_MAGNITUDE {
        TailCase::Everything
    } else if !positive(sigma) {
        TailCase::Nothing
    } else {
        TailCase::Partial
    }
}

/// The probability of each judgement for a single hit, best judgement first.
#[derive(Clone, Copy, Debug, PartialEq, Eq)]
pub struct JudgementProbabilities {
    pub probabilities: [Binary64; 6],
}

impl JudgementProbabilities {
    /// The probability of a single judgement.
    pub fn get(&self, judgement: ManiaJudgement) -> (probability: Binary64)
        ensures
            probability == self.probabilities[judgement.position()],
    {
        self.probabilities[judgement.index()]
    }

    /// The probabilities, best judgement first.
    pub fn as_array(&self) -> (probabilities: [Binary64; 6])
        ensures
            probabilities == self.probabilities,
    {
        self.probabilities
    }
}

/// A unit that receives a judgement, with its local difficulty.
#[derive(Clone, Copy, Debug, PartialEq, Eq, Structural)]
pub struct JudgementUnit {
    /// Local difficulty in star-rating units.
    pub difficulty: Binary64,
    /// How many judgements this unit stands for.
    pub weight: Binary64,
}

impl JudgementUnit {
    /// A single judgement of the given local difficulty.
    pub fn new(difficulty: Binary64) -> (unit: JudgementUnit)
        ensures
            unit.difficulty == difficulty,
            unit.weight.units() == one_in_units(),
            unit.weight.is_finite(),
    {
        JudgementUnit { difficulty, weight: Binary64::from_u32(1) }
    }

    /// `count` judgements sharing the same local difficulty.
    pub fn repeated(difficulty: Binary64, count: Binary64) -> (unit: JudgementUnit)
        ensures
            unit == (JudgementUnit { difficulty, weight: count }),
    {
        JudgementUnit { difficulty, weight: count }
    }
}

/// The expected judgement counts over a set of judgement units, best judgement first.
#[derive(Clone, Copy, Debug, PartialEq, Eq)]
pub struct ExpectedCounts {
    pub counts: [Binary64; 6],
}

/// The size of a count, where less than nothing and a NaN are nothing.
pub open spec fn count_size(count: Binary64) -> nat {
    if count.is_nan() || count.is_negative() {
        0
    } else {
        size_in_units(count.magnitude())
    }
}

/// The whole notes of a count, as many as a `u32` can tell.
pub open spec fn whole_notes(count: Binary64) -> nat {
    capped(whole(count_size(count)), u32::MAX as nat)
}

/// What a count exceeds its whole notes by, in units.
pub open spec fn part_note(count: Binary64) -> nat {
    excess(count_size(count))
}

/// The whole notes of six counts.
pub open spec fn whole_total(counts: Seq<Binary64>) -> nat {
    whole_notes(counts[0]) + whole_notes(counts[1]) + whole_notes(counts[2]) + whole_notes(
        counts[3],
    ) + whole_notes(counts[4]) + whole_notes(counts[5])
}

/// The sum of six counts.
pub open spec fn hit_total(hits: Seq<u32>) -> nat {
    (hits[0] + hits[1] + hits[2] + hits[3] + hits[4] + hits[5]) as nat
}

/// Whether `order` lists the counts by what they exceed their whole notes by, largest
/// first, equal ones by position.
pub open spec fn by_part_note(counts: Seq<Binary64>, order: Seq<usize>) -> bool {
    &&& order.len() == 6
    &&& forall|i: int| 0 <= i < 6 ==> (#[trigger] order[i]) < 6
    &&& forall|k: usize| k < 6 ==> #[trigger] order.contains(k)
    &&& forall|i: int, j: int|
        0 <= i < j < 6 ==> {
            let a = #[trigger] order[i] as int;
            let b = #[trigger] order[j] as int;
            part_note(counts[a]) > part_note(counts[b]) || (part_note(counts[a]) == part_note(
                counts[b],
            ) && a < b)
        }
}

/// How many counts are rounded up so that `total` notes come out: as many as are
/// missing, at most one note each.
pub open spec fn rounded_up(counts: Seq<Binary64>, total: u32) -> nat {
    if total <= whole_total(counts) {
        0
    } else if total - whole_total(counts) <= 6 {
        (total - whole_total(counts)) as nat
    } else {
        6
    }
}

/// Whether `hits` are the counts in whole notes, those with the largest fractions
/// rounded up.
pub open spec fn is_rounding(counts: Seq<Binary64>, total: u32, hits: Seq<u32>) -> bool {
    exists|order: Seq<usize>| #[trigger]
        by_part_note(counts, order) && forall|k: int|
            0 <= k < 6 ==> hits[(#[trigger] order[k]) as int] == whole_notes(counts[order[k] as int])
                + if k < rounded_up(counts, total) {
                1int
            } else {
                0int
            }
}

impl ExpectedCounts {
    /// The expected count of a single judgement.
    pub fn get(&self, judgement: ManiaJudgement) -> (count: Binary64)
        ensures
            count == self.counts[judgement.position()],
    {
        self.counts[judgement.index()]
    }

    /// The counts, best judgement first.
    pub fn as_array(&self) -> (counts: [Binary64; 6])
        ensures
            counts == self.counts,
    {
        self.counts
    }

    /// Rounds to whole notes so that `total_units` come out.
    ///
    /// Every count is rounded down; the notes that are then missing go to the
    /// judgements with the largest fractions, at most one to each.
    pub fn round_to_hits(&self, total_units: u32) -> (hits: [u32; 6])
        requires
            whole_total(self.counts@) <= u32::MAX,
        ensures
            is_rounding(self.counts@, total_units, hits@),
            hit_total(hits@) == whole_total(self.counts@) + rounded_up(self.counts@, total_units),
    {
        let mut hits: [u32; 6] = [0; 6];
        let mut assigned: u32 = 0;
        let mut keys: Vec<SortKey> = Vec::new();
        let mut i: usize = 0;
        while i < 6
            invariant
                i <= 6,
                whole_total(self.counts@) <= u32::MAX,
                forall|k: int| 0 <= k < i ==> #[trigger] hits[k] == whole_notes(self.counts[k]),
                assigned == partial_total(self.counts@, i as int),
                keys.len() == i,
                forall|k: int|
                    0 <= k < i ==> (#[trigger] keys[k]).minor == 0 && keys[k].major <= 0
                        && size_in_units((-keys[k].major) as nat) == part_note(self.counts[k]),
            decreases 6 - i,
        {
            let count: Binary64 = self.counts[i];
            proof {
                lemma_partial_total(self.counts@, i as int);
                crate::binary64::lemma_size_zero(0);
                lemma_nothing();
            }
            let magnitude: u64 = if count.nan() || count.bits >= crate::binary64::SIGN_BIT {
                0
            } else {
                count.magnitude_bits()
            };
            assert(size_in_units(magnitude as nat) == count_size(count));
            let wide: u64 = whole_of(magnitude);
            let floor: u32 = if wide <= u32::MAX as u64 {
                wide as u32
            } else {
                u32::MAX
            };
            let fraction: u64 = if magnitude < INFINITE_MAGNITUDE {
                fraction_of(magnitude)
            } else {
                proof {
                    lemma_infinite_size();
                }
                0
            };
            hits[i] = floor;
            assigned = assigned + floor;
            keys.push(SortKey { major: -(fraction as i64), minor: 0 });
            i = i + 1;
        }
        let order: Vec<usize> = stable_order(&keys);
        proof {
            lemma_keys_sort_parts(self.counts@, keys@, order@);
            lemma_partial_total(self.counts@, 5);
            assert(hits[0] == whole_notes(self.counts[0]) && hits[1] == whole_notes(self.counts[1])
                && hits[2] == whole_notes(self.counts[2]) && hits[3] == whole_notes(self.counts[3])
                && hits[4] == whole_notes(self.counts[4]) && hits[5] == whole_notes(
                self.counts[5],
            ));
        }
        let missing: u32 = if total_units > assigned {
            total_units - assigned
        } else {
            0
        };
        let ghost floors = hits@;
        let mut k: usize = 0;
        while k < 6 && (k as u32) < missing
            invariant
                k <= 6,
                k <= missing,
                by_part_note(self.counts@, order@),
                is_stable_order(keys@, order@),
                keys.len() == 6,
                floors.len() == 6,
                missing > 0 ==> hit_total(floors) + missing <= u32::MAX,
                hit_total(hits@) == hit_total(floors) + k,
                forall|j: int|
                    0 <= j < 6 ==> hits@[(#[trigger] order[j]) as int] == floors[order[j] as int]
                        + if j < k {
                        1int
                    } else {
                        0int
                    },
            decreases 6 - k,
        {
            let idx: usize = order[k];
            let ghost before = hits@;
            assert(hits@[order[k as int] as int] == floors[order[k as int] as int]);
            assert(forall|j: int| 0 <= j < 6 && j != k ==> #[trigger] order[j] != idx);
            hits[idx] = hits[idx] + 1;
            k = k + 1;
        }
        proof {
            assert(k == rounded_up(self.counts@, total_units));
            assert forall|j: int| 0 <= j < 6 implies hits@[(#[trigger] order[j]) as int]
                == whole_notes(self.counts[order[j] as int]) + if j < rounded_up(
                self.counts@,
                total_units,
            ) {
                1int
            } else {
                0int
            } by {
                assert(floors[order[j] as int] == whole_notes(self.counts[order[j] as int]));
            }
        }
        hits
    }
}

spec fn partial_total(counts: Seq<Binary64>, n: int) -> nat
    decreases n,
{
    if n <= 0 {
        0
    } else {
        partial_total(counts, n - 1) + whole_notes(counts[n - 1])
    }
}

proof fn lemma_partial_total(counts: Seq<Binary64>, n: int)
    requires
        0 <= n < 6,
    ensures
        partial_total(counts, n + 1) <= whole_total(counts),
        partial_total(counts, 6) == whole_total(counts),
{
    reveal_with_fuel(partial_total, 7);
}

proof fn lemma_nothing()
    ensures
        whole(0) == 0,
        excess(0) == 0,
{
    vstd::arithmetic::power2::lemma_pow2_pos(1074);
    vstd::arithmetic::div_mod::lemma_small_mod(0, one_in_units());
    vstd::arithmetic::div_mod::lemma_basic_div(0, one_in_units() as int);
}

proof fn lemma_keys_sort_parts(counts: Seq<Binary64>, keys: Seq<SortKey>, order: Seq<usize>)
    requires
        counts.len() == 6,
        keys.len() == 6,
        is_stable_order(keys, order),
        forall|k: int|
            0 <= k < 6 ==> (#[trigger] keys[k]).minor == 0 && keys[k].major <= 0 && size_in_units(
                (-keys[k].major) as nat,
            ) == part_note(counts[k]),
    ensures
        by_part_note(counts, order),
{
    assert forall|i: int, j: int| 0 <= i < j < 6 implies {
        let a = #[trigger] order[i] as int;
        let b = #[trigger] order[j] as int;
        part_note(counts[a]) > part_note(counts[b]) || (part_note(counts[a]) == part_note(counts[b])
            && a < b)
    } by {
        let a = order[i] as int;
        let b = order[j] as int;
        assert(precedes(keys, a, b));
        assert(keys[a].minor == 0 && keys[b].minor == 0);
        lemma_size_order((-keys[a].major) as nat, (-keys[b].major) as nat);
    }
}

/// The sum of the sizes of six counts, in units.
pub open spec fn size_total(counts: Seq<Binary64>) -> nat {
    count_size(counts[0]) + count_size(counts[1]) + count_size(counts[2]) + count_size(counts[3])
        + count_size(counts[4]) + count_size(counts[5])
}

/// Counts that add up to `total` notes, or to less than one note more or less, are rounded
/// to exactly `total` notes.
pub proof fn rounding_preserves_the_total(counts: Seq<Binary64>, total: u32)
    requires
        counts.len() == 6,
        (total - 1) * one_in_units() < size_total(counts) < (total + 1) * one_in_units(),
    ensures
        whole_total(counts) <= total,
        whole_total(counts) + rounded_up(counts, total) == total,
{
    let one = one_in_units();
    vstd::arithmetic::power2::lemma_pow2_pos(1074);
    assert forall|i: int| 0 <= i < 6 implies #[trigger] count_size(counts[i]) == whole_notes(
        counts[i],
    ) * one + part_note(counts[i]) && part_note(counts[i]) < one by {
        let size = count_size(counts[i]);
        assert(size <= size_total(counts)) by {
            assert(i == 0 || i == 1 || i == 2 || i == 3 || i == 4 || i == 5);
        }
        vstd::arithmetic::div_mod::lemma_fundamental_div_mod(size as int, one as int);
        vstd::arithmetic::div_mod::lemma_mod_division_less_than_divisor(size as int, one as int);
        let q = whole(size);
        assert(one * q == q * one) by (nonlinear_arith);
        assert(q <= total) by (nonlinear_arith)
            requires
                size == q * one + excess(size),
                excess(size) >= 0,
                size < (total + 1) * one,
                one > 0,
        ;
    }
    let w = whole_total(counts);
    let parts = part_note(counts[0]) + part_note(counts[1]) + part_note(counts[2]) + part_note(
        counts[3],
    ) + part_note(counts[4]) + part_note(counts[5]);
    lemma_six_products(counts, one);
    assert(count_size(counts[0]) + count_size(counts[1]) + count_size(counts[2]) + count_size(
        counts[3],
    ) + count_size(counts[4]) + count_size(counts[5]) == w * one + parts);
    assert(w <= total && total - w <= 6) by (nonlinear_arith)
        requires
            (total - 1) * one < w * one + parts < (total + 1) * one,
            0 <= parts < 6 * one,
            one > 0,
    ;
}

proof fn lemma_six_products(counts: Seq<Binary64>, one: nat)
    ensures
        whole_total(counts) * one == whole_notes(counts[0]) * one + whole_notes(counts[1]) * one
            + whole_notes(counts[2]) * one + whole_notes(counts[3]) * one + whole_notes(counts[4])
            * one + whole_notes(counts[5]) * one,
{
    let a = whole_notes(counts[0]);
    let b = whole_notes(counts[1]);
    let c = whole_notes(counts[2]);
    let d = whole_notes(counts[3]);
    let e = whole_notes(counts[4]);
    let f = whole_notes(counts[5]);
    assert((a + b + c + d + e + f) * one == a * one + b * one + c * one + d * one + e * one + f
        * one) by (nonlinear_arith);
}

/// A rounded count is off by less than one note: it is the count rounded down, or the
/// note above.
pub proof fn rounding_moves_less_than_a_note(
    counts: Seq<Binary64>,
    total: u32,
    hits: Seq<u32>,
    i: int,
)
    requires
        is_rounding(counts, total, hits),
        0 <= i < 6,
    ensures
        whole_notes(counts[i]) <= hits[i] <= whole_notes(counts[i]) + 1,
{
    let order = choose|order: Seq<usize>| #[trigger]
        by_part_note(counts, order) && forall|k: int|
            0 <= k < 6 ==> hits[(#[trigger] order[k]) as int] == whole_notes(counts[order[k] as int])
                + if k < rounded_up(counts, total) {
                1int
            } else {
                0int
            };
    assert(order.contains(i as usize));
    let k = choose|k: int| 0 <= k < order.len() && order[k] == i as usize;
    assert(hits[order[k] as int] == whole_notes(counts[order[k] as int]) + if k < rounded_up(
        counts,
        total,
    ) {
        1int
    } else {
        0int
    });
}

/// Below this skill a fit is a floor rather than a measurement: the bits of 1.
pub const SKILL_IDENTIFIABLE_MIN: u64 = 0x3ff0_0000_0000_0000;

/// Above roughly this multiple of a map's difficulty every note is a near-certain
/// perfect hit: the bits of 3.7.
pub const SKILL_SATURATION_RATIO: u64 = 0x400d_9999_9999_999a;

/// A score whose timing statistic reaches this many is not one that the surface
/// produces.
pub const PLAUSIBLE_TIMING: u32 = 30;

/// How well a score's judgement vector matches what the surface predicts.
#[derive(Clone, Copy, Debug, PartialEq, Eq, Structural)]
pub struct FitQuality {
    /// The skill the fit settled on.
    pub skill: Binary64,
    /// The G-test statistic over all judgements.
    pub g_statistic: Binary64,
    /// The G-test statistic over the timing judgements, misses left out.
    pub g_timing: Binary64,
    /// Misses beyond what the surface predicted.
    pub excess_misses: Binary64,
    /// `g_statistic` per judgement.
    pub g_per_judgement: Binary64,
}

impl FitQuality {
    /// What a fit of nothing is worth: the skill, and statistics that tell of no match.
    pub fn of_nothing(skill: Binary64) -> (quality: FitQuality)
        ensures
            quality == (FitQuality {
                skill,
                g_statistic: Binary64 { bits: INFINITY },
                g_timing: Binary64 { bits: INFINITY },
                excess_misses: Binary64 { bits: 0 },
                g_per_judgement: Binary64 { bits: INFINITY },
            }),
    {
        let infinity: Binary64 = Binary64::from_bits(INFINITY);
        FitQuality {
            skill,
            g_statistic: infinity,
            g_timing: infinity,
            excess_misses: Binary64::from_bits(0),
            g_per_judgement: infinity,
        }
    }

    /// Whether the timing statistic is below [`PLAUSIBLE_TIMING`].
    pub open spec fn fits_the_surface(self) -> bool {
        !self.g_timing.is_nan() && self.g_timing.units() < PLAUSIBLE_TIMING * one_in_units()
    }

    /// Whether the skill is above [`SKILL_IDENTIFIABLE_MIN`].
    pub open spec fn is_measured(self) -> bool {
        (Binary64 { bits: SKILL_IDENTIFIABLE_MIN }).lt(self.skill)
    }

    /// Whether the score's timing shape is broadly consistent with the surface.
    pub fn is_plausible(&self) -> (answer: bool)
        ensures
            answer == self.fits_the_surface(),
    {
        self.g_timing.less(Binary64::from_u32(PLAUSIBLE_TIMING))
    }

    /// Whether the skill is a measurement rather than a floor.
    pub fn is_identifiable(&self) -> (answer: bool)
        ensures
            answer == self.is_measured(),
    {
        Binary64::from_bits(SKILL_IDENTIFIABLE_MIN).less(self.skill)
    }
}

/// How often a judgement was given.
#[derive(Clone, Copy, Debug, PartialEq, Eq, Structural)]
pub struct Observation {
    pub judgement: ManiaJudgement,
    pub count: u32,
}

/// The judgements among the first `n` that were given at all, best first.
pub open spec fn observed_of(counts: Seq<u32>, n: int) -> Seq<(int, u32)>
    decreases n,
{
    if n <= 0 {
        Seq::empty()
    } else if counts[n - 1] == 0 {
        observed_of(counts, n - 1)
    } else {
        observed_of(counts, n - 1).push((n - 1, counts[n - 1]))
    }
}

/// What an observation says, with the judgement as its position.
pub open spec fn observation_view(observations: Seq<Observation>) -> Seq<(int, u32)> {
    observations.map_values(|o: Observation| (o.judgement.position(), o.count))
}

/// The judgements that were given at all, best first.
pub fn observed(counts: &[u32; 6]) -> (out: Vec<Observation>)
    ensures
        observation_view(out@) == observed_of(counts@, 6),
{
    observed_among(counts, 6)
}

/// The judgements that were given at all, best first, misses left out: a miss says
/// nothing of timing.
pub fn observed_timing(counts: &[u32; 6]) -> (out: Vec<Observation>)
    ensures
        observation_view(out@) == observed_of(counts@, 5),
{
    observed_among(counts, 5)
}

fn observed_among(counts: &[u32; 6], n: usize) -> (out: Vec<Observation>)
    requires
        n <= 6,
    ensures
        observation_view(out@) == observed_of(counts@, n as int),
{
    let judgements: [ManiaJudgement; 6] = ManiaJudgement::all();
    let mut out: Vec<Observation> = Vec::new();
    let mut i: usize = 0;
    assert(observation_view(out@) =~= Seq::<(int, u32)>::empty());
    while i < n
        invariant
            i <= n <= 6,
            forall|k: int| 0 <= k < 6 ==> (#[trigger] judgements[k]).position() == k,
            observation_view(out@) == observed_of(counts@, i as int),
        decreases n - i,
    {
        if counts[i] != 0 {
            let ghost before = out@;
            out.push(Observation { judgement: judgements[i], count: counts[i] });
            assert(observation_view(out@) =~= observation_view(before).push(
                (i as int, counts[i as int]),
            ));
        }
        i = i + 1;
    }
    out
}

/// How many judgements were given.
pub fn observed_total(counts: &[u32; 6]) -> (total: u64)
    ensures
        total == hit_total(counts@),
{
    counts[0] as u64 + counts[1] as u64 + counts[2] as u64 + counts[3] as u64 + counts[4] as u64
        + counts[5] as u64
}

/// The sum of the counts of observations.
pub open spec fn observed_sum(observations: Seq<Observation>) -> nat
    decreases observations.len(),
{
    if observations.len() == 0 {
        0
    } else {
        observed_sum(observations.drop_last()) + observations.last().count as nat
    }
}

/// Whether one of the observations is of the judgement, as often as `count` says; or none is,
/// if that is zero.
pub open spec fn observes(
    observations: Seq<Observation>,
    judgement: ManiaJudgement,
    count: u32,
) -> bool {
    if count == 0 {
        forall|k: int|
            0 <= k < observations.len() ==> (#[trigger] observations[k]).judgement != judgement
    } else {
        exists|k: int|
            0 <= k < observations.len() && #[trigger] observations[k] == (Observation {
                judgement,
                count,
            })
    }
}

proof fn lemma_observed(counts: Seq<u32>, observations: Seq<Observation>, n: int)
    requires
        0 <= n <= 6,
        counts.len() == 6,
        observation_view(observations) == observed_of(counts, n),
    ensures
        forall|k: int|
            0 <= k < observations.len() ==> 0 <= (#[trigger] observations[k]).judgement.position()
                < n && observations[k].count == counts[observations[k].judgement.position()]
                && observations[k].count != 0,
        forall|a: int, b: int|
            0 <= a < b < observations.len() ==> (#[trigger] observations[a]).judgement.position() < (
            #[trigger] observations[b]).judgement.position(),
        forall|judgement: ManiaJudgement|
            judgement.position() < n ==> #[trigger] observes(
                observations,
                judgement,
                counts[judgement.position()],
            ),
        observed_sum(observations) == sum_of_first(counts, n),
    decreases n,
{
    let view = observation_view(observations);
    assert(view.len() == observations.len());
    if n > 0 {
        if counts[n - 1] == 0 {
            lemma_observed(counts, observations, n - 1);
            assert forall|judgement: ManiaJudgement| judgement.position() < n implies #[trigger]
                observes(observations, judgement, counts[judgement.position()]) by {
                if judgement.position() < n - 1 {
                    assert(observes(observations, judgement, counts[judgement.position()]));
                }
            }
        } else {
            let rest = observations.drop_last();
            assert(observation_view(rest) =~= view.drop_last());
            assert(view.drop_last() =~= observed_of(counts, n - 1));
            lemma_observed(counts, rest, n - 1);
            let last = observations.last();
            assert(view.last() == (last.judgement.position(), last.count));
            assert forall|k: int| 0 <= k < observations.len() implies 0 <= (
            #[trigger] observations[k]).judgement.position() < n && observations[k].count
                == counts[observations[k].judgement.position()] && observations[k].count != 0 by {
                if k < rest.len() {
                    assert(rest[k] == observations[k]);
                }
            }
            assert forall|a: int, b: int| 0 <= a < b < observations.len() implies (
            #[trigger] observations[a]).judgement.position() < (
            #[trigger] observations[b]).judgement.position() by {
                assert(rest[a] == observations[a]);
                if b < rest.len() {
                    assert(rest[b] == observations[b]);
                }
            }
            assert forall|judgement: ManiaJudgement| judgement.position() < n implies #[trigger]
                observes(observations, judgement, counts[judgement.position()]) by {
                let count = counts[judgement.position()];
                if judgement.position() < n - 1 {
                    assert(observes(rest, judgement, count));
                    if count == 0 {
                        assert forall|k: int| 0 <= k < observations.len() implies (
                        #[trigger] observations[k]).judgement != judgement by {
                            if k < rest.len() {
                                assert(rest[k] == observations[k]);
                            }
                        }
                    } else {
                        let k = choose|k: int|
                            0 <= k < rest.len() && #[trigger] rest[k] == (Observation {
                                judgement,
                                count,
                            });
                        assert(observations[k] == rest[k]);
                    }
                } else {
                    assert(last.judgement == judgement);
                    assert(observations[observations.len() - 1] == last);
                }
            }
        }
    }
}

spec fn sum_of_first(counts: Seq<u32>, n: int) -> nat
    decreases n,
{
    if n <= 0 {
        0
    } else {
        sum_of_first(counts, n - 1) + counts[n - 1] as nat
    }
}

/// Every judgement that was given is observed, once and with its count, and no other is: the
/// observed counts are all the judgements of the score.
pub proof fn every_judgement_given_is_observed(counts: Seq<u32>, observations: Seq<Observation>)
    requires
        counts.len() == 6,
        observation_view(observations) == observed_of(counts, 6),
    ensures
        observes(observations, ManiaJudgement::Perfect, counts[0]),
        observes(observations, ManiaJudgement::Great, counts[1]),
        observes(observations, ManiaJudgement::Good, counts[2]),
        observes(observations, ManiaJudgement::Okay, counts[3]),
        observes(observations, ManiaJudgement::Meh, counts[4]),
        observes(observations, ManiaJudgement::Miss, counts[5]),
        forall|a: int, b: int|
            0 <= a < b < observations.len() ==> (#[trigger] observations[a]).judgement != (
            #[trigger] observations[b]).judgement,
        observed_sum(observations) == counts[0] + counts[1] + counts[2] + counts[3] + counts[4]
            + counts[5],
        hit_total(counts) == counts[0] + counts[1] + counts[2] + counts[3] + counts[4] + counts[5],
{
    lemma_observed(counts, observations, 6);
    reveal_with_fuel(sum_of_first, 7);
    assert(observes(observations, ManiaJudgement::Perfect, counts[ManiaJudgement::Perfect.position()]));
    assert(observes(observations, ManiaJudgement::Great, counts[ManiaJudgement::Great.position()]));
    assert(observes(observations, ManiaJudgement::Good, counts[ManiaJudgement::Good.position()]));
    assert(observes(observations, ManiaJudgement::Okay, counts[ManiaJudgement::Okay.position()]));
    assert(observes(observations, ManiaJudgement::Meh, counts[ManiaJudgement::Meh.position()]));
    assert(observes(observations, ManiaJudgement::Miss, counts[ManiaJudgement::Miss.position()]));
}

/// Every judgement of timing that was given is observed, once and with its count; misses are
/// left out.
pub proof fn every_timing_judgement_given_is_observed(
    counts: Seq<u32>,
    observations: Seq<Observation>,
)
    requires
        counts.len() == 6,
        observation_view(observations) == observed_of(counts, 5),
    ensures
        observes(observations, ManiaJudgement::Perfect, counts[0]),
        observes(observations, ManiaJudgement::Great, counts[1]),
        observes(observations, ManiaJudgement::Good, counts[2]),
        observes(observations, ManiaJudgement::Okay, counts[3]),
        observes(observations, ManiaJudgement::Meh, counts[4]),
        observes(observations, ManiaJudgement::Miss, 0),
        forall|a: int, b: int|
            0 <= a < b < observations.len() ==> (#[trigger] observations[a]).judgement != (
            #[trigger] observations[b]).judgement,
        observed_sum(observations) == counts[0] + counts[1] + counts[2] + counts[3] + counts[4],
{
    lemma_observed(counts, observations, 5);
    reveal_with_fuel(sum_of_first, 6);
    assert(observes(observations, ManiaJudgement::Perfect, counts[ManiaJudgement::Perfect.position()]));
    assert(observes(observations, ManiaJudgement::Great, counts[ManiaJudgement::Great.position()]));
    assert(observes(observations, ManiaJudgement::Good, counts[ManiaJudgement::Good.position()]));
    assert(observes(observations, ManiaJudgement::Okay, counts[ManiaJudgement::Okay.position()]));
    assert(observes(observations, ManiaJudgement::Meh, counts[ManiaJudgement::Meh.position()]));
}

/// Beyond a bound that is zero or less lies everything, and beyond an infinite one nothing.
/// Beyond any other bound lies everything if the spread is infinite, nothing if there is no
/// spread, and otherwise a part.
pub proof fn tails_are_found_by_bound_and_spread(bound: Binary64, sigma: Binary64)
    ensures
        !bound.is_nan() && bound.units() <= 0 ==> tail_case_of(bound, sigma)
            == TailCase::Everything,
        bound.bits == 0x7ff0_0000_0000_0000 ==> tail_case_of(bound, sigma) == TailCase::Nothing,
        bound.is_nan() || (bound.is_finite() && bound.units() > 0) ==> {
            &&& sigma.bits == 0x7ff0_0000_0000_0000 || sigma.bits == 0xfff0_0000_0000_0000
                ==> tail_case_of(bound, sigma) == TailCase::Everything
            &&& sigma.is_nan() || (sigma.is_finite() && sigma.units() <= 0) ==> tail_case_of(
                bound,
                sigma,
            ) == TailCase::Nothing
            &&& sigma.is_finite() && sigma.units() > 0 ==> tail_case_of(bound, sigma)
                == TailCase::Partial
        },
{
    crate::binary64::lemma_size_zero(0);
    lemma_size_order(0, INFINITE_MAGNITUDE as nat);
    crate::binary64::lemma_size_zero(bound.magnitude());
}

/// A count that is `k` or more, and less than `k + 1`, has `k` whole notes and the rest of it as
/// a part; what is below zero or no number is nothing.
pub proof fn counts_are_split_into_notes(count: Binary64, k: u32)
    ensures
        count.is_nan() || count.units() < 0 ==> whole_notes(count) == 0 && part_note(count) == 0,
        !count.is_nan() && k * one_in_units() <= count.units() < (k + 1) * one_in_units()
            ==> whole_notes(count) == k && part_note(count) == count.units() - k * one_in_units(),
{
    let one = one_in_units();
    vstd::arithmetic::power2::lemma_pow2_pos(1074);
    crate::binary64::lemma_size_zero(count.magnitude());
    assert(0int / one as int == 0 && 0int % one as int == 0) by (nonlinear_arith)
        requires
            one > 0,
    ;
    if !count.is_nan() && k * one <= count.units() < (k + 1) * one {
        let size = count_size(count);
        assert(k * one >= 0) by (nonlinear_arith);
        assert((k + 1) * one == k * one + one) by (nonlinear_arith);
        assert(size == count.units());
        vstd::arithmetic::div_mod::lemma_fundamental_div_mod_converse(
            size as int,
            one as int,
            k as int,
            size - k * one,
        );
    }
}

/// The counts that are rounded up are those with the largest parts: none that is rounded down
/// has a larger part than one that is rounded up, and of equal parts the better judgement's is
/// rounded up first.
pub proof fn the_largest_parts_are_rounded_up(
    counts: Seq<Binary64>,
    total: u32,
    hits: Seq<u32>,
    a: int,
    b: int,
)
    requires
        is_rounding(counts, total, hits),
        0 <= a < 6,
        0 <= b < 6,
        hits[a] == whole_notes(counts[a]) + 1,
        hits[b] == whole_notes(counts[b]),
    ensures
        part_note(counts[b]) <= part_note(counts[a]),
        part_note(counts[b]) == part_note(counts[a]) ==> a < b,
{
    let order = choose|order: Seq<usize>| #[trigger]
        by_part_note(counts, order) && forall|k: int|
            0 <= k < 6 ==> hits[(#[trigger] order[k]) as int] == whole_notes(counts[order[k] as int])
                + if k < rounded_up(counts, total) {
                1int
            } else {
                0int
            };
    assert(order.contains(a as usize) && order.contains(b as usize));
    let i = choose|i: int| 0 <= i < order.len() && order[i] == a as usize;
    let j = choose|j: int| 0 <= j < order.len() && order[j] == b as usize;
    assert(hits[order[i] as int] == whole_notes(counts[order[i] as int]) + if i < rounded_up(
        counts,
        total,
    ) {
        1int
    } else {
        0int
    });
    assert(hits[order[j] as int] == whole_notes(counts[order[j] as int]) + if j < rounded_up(
        counts,
        total,
    ) {
        1int
    } else {
        0int
    });
    assert(i < j);
}

/// As many counts are rounded up as notes are missing, if no more than six are.
pub proof fn missing_notes_are_made_up(counts: Seq<Binary64>, total: u32)
    ensures
        whole_total(counts) <= total <= whole_total(counts) + 6 ==> whole_total(counts)
            + rounded_up(counts, total) == total,
        total < whole_total(counts) ==> rounded_up(counts, total) == 0,
        total > whole_total(counts) + 6 ==> rounded_up(counts, total) == 6,
{
}

/// A value is positive exactly if it is more than zero.
pub proof fn positive_values_are_above_zero(value: Binary64)
    ensures
        is_positive(value) <==> (Binary64 { bits: 0 }).lt(value),
{
    crate::binary64::lemma_size_zero(0);
}

/// Whether a score fits the surface depends on its timing statistic alone, and it does exactly
/// below 30; whether its skill is measured depends on the skill alone, and it is exactly above
/// 1.
pub proof fn fits_are_judged_by_timing_and_skill(quality: FitQuality, other: FitQuality)
    ensures
        quality.fits_the_surface() <==> !quality.g_timing.is_nan() && quality.g_timing.units() < 30
            * one_in_units(),
        quality.g_timing == other.g_timing ==> quality.fits_the_surface()
            == other.fits_the_surface(),
        quality.is_measured() <==> (Binary64 { bits: 0x3ff0_0000_0000_0000 }).lt(quality.skill),
        quality.skill == other.skill ==> quality.is_measured() == other.is_measured(),
{
}

} // verus!
