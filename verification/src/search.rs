//! The searches that invert the accuracy surface.
//!
//! Each is a sequence of decisions between evaluations of the surface. The decisions
//! are here; whoever runs a search evaluates the surface and hands the values in.

use crate::binary64::{lemma_size_order, Binary64};
use vstd::prelude::*;

verus! {

/// The least skill searched: the bits of 0.001.
pub const SKILL_MIN: u64 = 0x3f50_624d_d2f1_a9fc;

/// The greatest skill searched: the bits of 10000.
pub const SKILL_MAX: u64 = 0x40c3_8800_0000_0000;

/// How many steps the coarse scan takes across the skill bracket.
pub const SCAN_POINTS: usize = 256;

/// How many golden-section steps refine the scanned peak.
pub const GOLDEN_STEPS: u32 = 100;

/// How many bisection steps the accuracy inversion takes.
pub const BISECT_STEPS: u32 = 60;

/// The bits of minus infinity.
pub const NEGATIVE_INFINITY: u64 = 0xfff0_0000_0000_0000;

/// The peak among the first `n` values and the bar that a better one has to clear.
///
/// `raised` holds, for each value, the value plus the margin of improvement.
pub open spec fn peak_of(values: Seq<Binary64>, raised: Seq<Binary64>, n: int) -> (int, Binary64)
    decreases n,
{
    if n <= 0 {
        (0, Binary64 { bits: NEGATIVE_INFINITY })
    } else {
        let (index, bar) = peak_of(values, raised, n - 1);
        if bar.lt(values[n - 1]) {
            (n - 1, raised[n - 1])
        } else {
            (index, bar)
        }
    }
}

/// The place of the peak of a scan. A later value has to clear the margin to be a new
/// peak, so ties go to the lowest place.
pub fn peak_index(values: &Vec<Binary64>, raised: &Vec<Binary64>) -> (index: usize)
    requires
        values.len() == raised.len(),
    ensures
        index == peak_of(values@, raised@, values.len() as int).0,
        values.len() > 0 ==> index < values.len(),
{
    let mut index: usize = 0;
    let mut bar: Binary64 = Binary64::from_bits(NEGATIVE_INFINITY);
    let mut i: usize = 0;
    while i < values.len()
        invariant
            i <= values.len(),
            values.len() == raised.len(),
            (index as int, bar) == peak_of(values@, raised@, i as int),
            index < values.len() || i == 0,
            index == 0 || index < values.len(),
        decreases values.len() - i,
    {
        if bar.less(values[i]) {
            index = i;
            bar = raised[i];
        }
        i = i + 1;
    }
    index
}

proof fn lemma_peak(values: Seq<Binary64>, raised: Seq<Binary64>, n: int)
    requires
        0 <= n <= values.len(),
        values.len() == raised.len(),
        forall|i: int| 0 <= i < values.len() ==> (#[trigger] values[i]).le(raised[i]),
    ensures
        ({
            let (index, bar) = peak_of(values, raised, n);
            &&& !bar.is_nan()
            &&& forall|i: int| 0 <= i < n ==> (#[trigger] values[i]).le(bar)
            &&& forall|i: int| 0 <= i < index ==> (#[trigger] values[i]).lt(values[index])
            &&& n > 0 ==> 0 <= index < n
        }),
    decreases n,
{
    if n > 0 {
        lemma_peak(values, raised, n - 1);
        let (index, bar) = peak_of(values, raised, n - 1);
        assert(values[n - 1].le(raised[n - 1]));
    }
}

/// The peak of a scan is higher than every value before it, and no value clears the
/// margin above it: of equal peaks the lowest is found.
pub proof fn peak_is_the_lowest_highest(values: Seq<Binary64>, raised: Seq<Binary64>)
    requires
        values.len() > 0,
        values.len() == raised.len(),
        forall|i: int| 0 <= i < values.len() ==> (#[trigger] values[i]).le(raised[i]),
    ensures
        ({
            let index = peak_of(values, raised, values.len() as int).0;
            &&& 0 <= index < values.len()
            &&& forall|i: int| 0 <= i < index ==> (#[trigger] values[i]).lt(values[index])
            &&& forall|i: int| 0 <= i < values.len() ==> (#[trigger] values[i]).le(raised[index])
        }),
{
    let n = values.len() as int;
    let (index, bar) = peak_of(values, raised, n);
    lemma_peak(values, raised, n);
    lemma_bar(values, raised, n);
    if bar != raised[index] {
        assert forall|i: int| 0 <= i < n implies (#[trigger] values[i]).le(raised[index]) by {
            assert(values[0].le(raised[0]));
            lemma_size_order(raised[0].magnitude(), bar.magnitude());
        }
    }
}

proof fn lemma_bar(values: Seq<Binary64>, raised: Seq<Binary64>, n: int)
    requires
        0 <= n <= values.len(),
    ensures
        ({
            let (index, bar) = peak_of(values, raised, n);
            bar == raised[index] || (index == 0 && bar.bits == NEGATIVE_INFINITY)
        }),
    decreases n,
{
    if n > 0 {
        lemma_bar(values, raised, n - 1);
    }
}

/// The scan points on either side of the peak.
pub open spec fn bracket_around(peak: int) -> (int, int) {
    (
        if peak == 0 {
            0
        } else {
            peak - 1
        },
        if peak == SCAN_POINTS {
            peak
        } else {
            peak + 1
        },
    )
}

/// The scan points on either side of the peak.
pub fn peak_bracket(peak: usize) -> (bracket: (usize, usize))
    requires
        peak <= SCAN_POINTS,
    ensures
        (bracket.0 as int, bracket.1 as int) == bracket_around(peak as int),
        bracket.0 <= peak <= bracket.1 <= SCAN_POINTS,
        bracket.0 < bracket.1,
{
    let low: usize = if peak == 0 {
        0
    } else {
        peak - 1
    };
    let high: usize = if peak == SCAN_POINTS {
        peak
    } else {
        peak + 1
    };
    (low, high)
}

/// Which inner point of a golden-section bracket has to be evaluated next.
#[derive(Clone, Copy, Debug, PartialEq, Eq, Structural)]
pub enum Probe {
    Lower,
    Upper,
}

/// A golden-section search for a maximum: a bracket, two points in it and their values.
#[derive(Clone, Copy, Debug, PartialEq, Eq, Structural)]
pub struct GoldenSection {
    pub low: Binary64,
    pub high: Binary64,
    pub c: Binary64,
    pub d: Binary64,
    pub fc: Binary64,
    pub fd: Binary64,
    /// How many steps have been taken.
    pub steps: u32,
}

impl GoldenSection {
    /// A search that has not taken a step.
    pub fn new(
        low: Binary64,
        high: Binary64,
        c: Binary64,
        d: Binary64,
        fc: Binary64,
        fd: Binary64,
    ) -> (section: GoldenSection)
        ensures
            section == (GoldenSection { low, high, c, d, fc, fd, steps: 0 }),
    {
        GoldenSection { low, high, c, d, fc, fd, steps: 0 }
    }

    /// Whether the four points are in order.
    pub open spec fn in_order(self) -> bool {
        self.low.le(self.c) && self.c.le(self.d) && self.d.le(self.high)
    }

    /// The bracket narrowed to the side of the higher of the two points, and which inner
    /// point is missing then.
    pub open spec fn narrowed(self) -> (GoldenSection, Probe) {
        let steps = (self.steps + 1) as u32;
        if self.fd.lt(self.fc) {
            (
                GoldenSection { high: self.d, d: self.c, fd: self.fc, steps, ..self },
                Probe::Lower,
            )
        } else {
            (
                GoldenSection { low: self.c, c: self.d, fc: self.fd, steps, ..self },
                Probe::Upper,
            )
        }
    }

    /// The section with an evaluated inner point in its place.
    pub open spec fn placed(self, probe: Probe, point: Binary64, value: Binary64) -> GoldenSection {
        match probe {
            Probe::Lower => GoldenSection { c: point, fc: value, ..self },
            Probe::Upper => GoldenSection { d: point, fd: value, ..self },
        }
    }

    /// Takes a step, if one is due: narrows the bracket to the side of the higher of the
    /// two points and says which inner point is missing then.
    pub fn narrow(&mut self) -> (probe: Option<Probe>)
        ensures
            probe matches Some(probe) ==> (*final(self), probe) == old(self).narrowed(),
            probe is Some <==> old(self).steps < GOLDEN_STEPS,
            probe is None ==> *final(self) == *old(self),
            probe is Some && old(self).fd.lt(old(self).fc) ==> probe == Some(Probe::Lower)
                && *final(self) == (GoldenSection {
                high: old(self).d,
                d: old(self).c,
                fd: old(self).fc,
                steps: (old(self).steps + 1) as u32,
                ..*old(self)
            }),
            probe is Some && !old(self).fd.lt(old(self).fc) ==> probe == Some(Probe::Upper)
                && *final(self) == (GoldenSection {
                low: old(self).c,
                c: old(self).d,
                fc: old(self).fd,
                steps: (old(self).steps + 1) as u32,
                ..*old(self)
            }),
            old(self).in_order() ==> final(self).low.le(final(self).high) && old(self).low.le(
                final(self).low,
            ) && final(self).high.le(old(self).high),
    {
        if self.steps >= GOLDEN_STEPS {
            return None;
        }
        self.steps = self.steps + 1;
        if self.fd.less(self.fc) {
            self.high = self.d;
            self.d = self.c;
            self.fd = self.fc;
            Some(Probe::Lower)
        } else {
            self.low = self.c;
            self.c = self.d;
            self.fc = self.fd;
            Some(Probe::Upper)
        }
    }

    /// Puts an evaluated inner point in its place.
    pub fn place(&mut self, probe: Probe, point: Binary64, value: Binary64)
        ensures
            *final(self) == old(self).placed(probe, point, value),
    {
        match probe {
            Probe::Lower => {
                self.c = point;
                self.fc = value;
            },
            Probe::Upper => {
                self.d = point;
                self.fd = value;
            },
        }
    }
}

/// How the search for the skill behind an accuracy begins.
#[derive(Clone, Copy, Debug, PartialEq, Eq, Structural)]
pub enum AccuracyStart {
    /// The least skill reaches the accuracy.
    Least,
    /// Not even the greatest skill exceeds the accuracy.
    Greatest,
    /// The skill lies in between.
    Between,
}

/// How the search for the skill behind the accuracy `target` begins, where the least and
/// the greatest skill have the accuracies `at_min` and `at_max`.
pub open spec fn start_of(at_min: Binary64, at_max: Binary64, target: Binary64) -> AccuracyStart {
    if target.le(at_min) {
        AccuracyStart::Least
    } else if at_max.le(target) {
        AccuracyStart::Greatest
    } else {
        AccuracyStart::Between
    }
}

/// How the search for the skill behind the accuracy `target` begins.
pub fn accuracy_start(at_min: Binary64, at_max: Binary64, target: Binary64) -> (start: AccuracyStart)
    ensures
        start == start_of(at_min, at_max, target),
{
    if target.at_most(at_min) {
        AccuracyStart::Least
    } else if at_max.at_most(target) {
        AccuracyStart::Greatest
    } else {
        AccuracyStart::Between
    }
}

impl AccuracyStart {
    /// The skill that the search ends with at once, if it does.
    pub open spec fn end(self) -> Option<Binary64> {
        match self {
            AccuracyStart::Least => Some(Binary64 { bits: SKILL_MIN }),
            AccuracyStart::Greatest => Some(Binary64 { bits: SKILL_MAX }),
            AccuracyStart::Between => None,
        }
    }

    /// The skill that the search ends with at once, if it does.
    pub fn skill(self) -> (skill: Option<Binary64>)
        ensures
            skill == self.end(),
    {
        match self {
            AccuracyStart::Least => Some(Binary64::from_bits(SKILL_MIN)),
            AccuracyStart::Greatest => Some(Binary64::from_bits(SKILL_MAX)),
            AccuracyStart::Between => None,
        }
    }
}

/// A bisection for the skill that gives an accuracy.
#[derive(Clone, Copy, Debug, PartialEq, Eq, Structural)]
pub struct Bisection {
    pub low: Binary64,
    pub high: Binary64,
    /// How many steps have been taken.
    pub steps: u32,
}

impl Bisection {
    /// The whole range of skills.
    pub fn new() -> (bisection: Bisection)
        ensures
            bisection == (Bisection {
                low: Binary64 { bits: SKILL_MIN },
                high: Binary64 { bits: SKILL_MAX },
                steps: 0,
            }),
    {
        Bisection {
            low: Binary64::from_bits(SKILL_MIN),
            high: Binary64::from_bits(SKILL_MAX),
            steps: 0,
        }
    }

    /// Whether another step is due.
    pub fn is_due(&self) -> (answer: bool)
        ensures
            answer == (self.steps < BISECT_STEPS),
    {
        self.steps < BISECT_STEPS
    }

    /// The half that holds the target, where the skill `middle` has the accuracy `reached`.
    pub open spec fn half(self, middle: Binary64, reached: Binary64, target: Binary64) -> Bisection {
        let steps = (self.steps + 1) as u32;
        if reached.lt(target) {
            Bisection { low: middle, high: self.high, steps }
        } else {
            Bisection { low: self.low, high: middle, steps }
        }
    }

    /// The bracket after steps with the given middles, where `at` gives the accuracy of each
    /// skill.
    pub open spec fn after(
        self,
        middles: Seq<Binary64>,
        at: spec_fn(Binary64) -> Binary64,
        target: Binary64,
    ) -> Bisection
        decreases middles.len(),
    {
        if middles.len() == 0 {
            self
        } else {
            self.after(middles.drop_last(), at, target).half(
                middles.last(),
                at(middles.last()),
                target,
            )
        }
    }

    /// Whether the target lies above the accuracy of the low end, and not above that of the
    /// high end.
    pub open spec fn encloses(self, at: spec_fn(Binary64) -> Binary64, target: Binary64) -> bool {
        at(self.low).lt(target) && target.le(at(self.high))
    }

    /// Keeps the half that holds the target, where the skill `middle` has the accuracy
    /// `reached`.
    pub fn halve(&mut self, middle: Binary64, reached: Binary64, target: Binary64)
        requires
            old(self).steps < BISECT_STEPS,
        ensures
            *final(self) == old(self).half(middle, reached, target),
            old(self).low.le(middle) && middle.le(old(self).high) ==> final(self).low.le(
                final(self).high,
            ),
    {
        self.steps = self.steps + 1;
        if reached.less(target) {
            self.low = middle;
        } else {
            self.high = middle;
        }
    }
}

/// A search that is not over at once begins with a bracket that encloses the accuracy asked
/// for; one that is over at once ends with the end of the range that the accuracy lies beyond.
pub proof fn searches_begin_around_the_target(
    at: spec_fn(Binary64) -> Binary64,
    target: Binary64,
    bisection: Bisection,
)
    requires
        bisection == (Bisection {
            low: Binary64 { bits: SKILL_MIN },
            high: Binary64 { bits: SKILL_MAX },
            steps: 0,
        }),
        !target.is_nan(),
        !at(bisection.low).is_nan(),
        !at(bisection.high).is_nan(),
    ensures
        start_of(at(bisection.low), at(bisection.high), target) == AccuracyStart::Between
            <==> at(bisection.low).lt(target) && target.lt(at(bisection.high)),
        start_of(at(bisection.low), at(bisection.high), target) == AccuracyStart::Between
            ==> bisection.encloses(at, target),
        start_of(at(bisection.low), at(bisection.high), target) == AccuracyStart::Least
            <==> target.le(at(bisection.low)),
{
}

/// However many steps a search takes, and wherever it splits its bracket, the accuracy asked
/// for stays above that of the low end and at or below that of the high end.
pub proof fn searches_keep_the_target_enclosed(
    start: Bisection,
    middles: Seq<Binary64>,
    at: spec_fn(Binary64) -> Binary64,
    target: Binary64,
)
    requires
        start.encloses(at, target),
        forall|i: int| 0 <= i < middles.len() ==> !at(#[trigger] middles[i]).is_nan(),
    ensures
        start.after(middles, at, target).encloses(at, target),
    decreases middles.len(),
{
    if middles.len() > 0 {
        let fewer = middles.drop_last();
        assert forall|i: int| 0 <= i < fewer.len() implies !at(#[trigger] fewer[i]).is_nan() by {
            assert(fewer[i] == middles[i]);
        }
        searches_keep_the_target_enclosed(start, fewer, at, target);
        assert(!at(middles[middles.len() - 1]).is_nan());
    }
}

/// Whether there is anything to fit a skill to: judgement units, and judgements given.
pub open spec fn is_evidence(units: usize, counts: Seq<u32>) -> bool {
    units > 0 && exists|i: int| 0 <= i < 6 && #[trigger] counts[i] != 0
}

/// Whether there is anything to fit a skill to: judgement units, and judgements given.
pub fn has_evidence(units: usize, counts: &[u32; 6]) -> (answer: bool)
    ensures
        answer == is_evidence(units, counts@),
{
    if units == 0 {
        return false;
    }
    let mut i: usize = 0;
    while i < 6
        invariant
            i <= 6,
            units > 0,
            forall|k: int| 0 <= k < i ==> #[trigger] counts[k] == 0,
        decreases 6 - i,
    {
        if counts[i] != 0 {
            return true;
        }
        i = i + 1;
    }
    false
}

/// The skill of a score that there is nothing to fit to: the least.
pub fn unfitted_skill(units: usize, counts: &[u32; 6]) -> (skill: Option<Binary64>)
    ensures
        skill is None <==> is_evidence(units, counts@),
        skill matches Some(skill) ==> skill.bits == SKILL_MIN,
{
    if has_evidence(units, counts) {
        None
    } else {
        Some(Binary64::from_bits(SKILL_MIN))
    }
}

/// The skill behind an accuracy where no judgement units give one: the least.
pub fn unasked_skill(units: usize) -> (skill: Option<Binary64>)
    ensures
        skill == if units == 0 {
            Some(Binary64 { bits: SKILL_MIN })
        } else {
            None
        },
{
    if units == 0 {
        Some(Binary64::from_bits(SKILL_MIN))
    } else {
        None
    }
}

/// The bracket of a scanned peak reaches one scan point to either side, within the scan of 257
/// points.
pub proof fn brackets_reach_one_point_on_either_side(peak: int, j: int)
    requires
        0 <= peak <= 256,
    ensures
        bracket_around(peak).0 <= j <= bracket_around(peak).1 <==> 0 <= j <= 256 && peak - 1 <= j
            <= peak + 1,
{
}

/// A step of a golden-section search keeps the higher of the two inner points, with its value,
/// inside the new bracket. The bracket loses the part beyond the lower point, and the inner
/// point that is missing is on the other side of the one that is kept; once that is in its
/// place, the kept one is still there.
pub proof fn narrowing_keeps_the_higher_point(
    section: GoldenSection,
    point: Binary64,
    value: Binary64,
)
    requires
        section.steps < u32::MAX,
    ensures
        ({
            let (next, probe) = section.narrowed();
            &&& next.steps == section.steps + 1
            &&& section.fd.lt(section.fc) ==> {
                &&& next.d == section.c && next.fd == section.fc
                &&& next.low == section.low && next.high == section.d
                &&& next.placed(probe, point, value).d == section.c
                &&& next.placed(probe, point, value).fd == section.fc
                &&& next.placed(probe, point, value).c == point
                &&& next.placed(probe, point, value).fc == value
            }
            &&& section.fc.lt(section.fd) ==> {
                &&& next.c == section.d && next.fc == section.fd
                &&& next.low == section.c && next.high == section.high
                &&& next.placed(probe, point, value).c == section.d
                &&& next.placed(probe, point, value).fc == section.fd
                &&& next.placed(probe, point, value).d == point
                &&& next.placed(probe, point, value).fd == value
            }
            &&& !section.fd.lt(section.fc) ==> probe == Probe::Upper && next.c == section.d
                && next.fc == section.fd && next.low == section.c && next.high == section.high
            &&& section.in_order() && probe == Probe::Lower ==> next.low.le(next.d) && next.d.le(
                next.high,
            )
            &&& section.in_order() && probe == Probe::Upper ==> next.low.le(next.c) && next.c.le(
                next.high,
            )
        }),
{
}

/// A search is over at once exactly if the accuracy asked for is no more than that of the least
/// skill, 0.001, which it then ends with, or else no less than that of the greatest, 10000.
pub proof fn searches_end_at_once_beyond_the_range(
    at_min: Binary64,
    at_max: Binary64,
    target: Binary64,
)
    ensures
        ({
            let end = start_of(at_min, at_max, target).end();
            &&& target.le(at_min) ==> end == Some(Binary64 { bits: 0x3f50_624d_d2f1_a9fc })
            &&& !target.le(at_min) && at_max.le(target) ==> end == Some(
                Binary64 { bits: 0x40c3_8800_0000_0000 },
            )
            &&& end is None <==> !target.le(at_min) && !at_max.le(target)
        }),
{
}

/// A step of a bisection keeps one end and moves the other to the middle: the low end if the
/// middle falls short of the target, else the high end.
pub proof fn bisections_move_one_end(
    bisection: Bisection,
    middle: Binary64,
    reached: Binary64,
    target: Binary64,
)
    requires
        bisection.steps < u32::MAX,
    ensures
        ({
            let next = bisection.half(middle, reached, target);
            &&& next.steps == bisection.steps + 1
            &&& reached.lt(target) ==> next.low == middle && next.high == bisection.high
            &&& !reached.lt(target) ==> next.low == bisection.low && next.high == middle
        }),
{
}

/// A single judgement, whichever it is, and a single unit are enough to fit a skill to; without
/// any judgement or any unit there is nothing.
pub proof fn one_judgement_is_evidence(units: usize, counts: Seq<u32>)
    requires
        counts.len() == 6,
    ensures
        is_evidence(units, counts) <==> units >= 1 && counts[0] + counts[1] + counts[2] + counts[3]
            + counts[4] + counts[5] >= 1,
{
    assert(counts[0] >= 0 && counts[1] >= 0 && counts[2] >= 0 && counts[3] >= 0 && counts[4] >= 0
        && counts[5] >= 0);
}

/// A scan starts below every value. Each value that is above the bar is the new peak, and raises
/// the bar to its own; any other, a NaN among them, changes nothing.
pub proof fn only_higher_values_are_new_peaks(
    values: Seq<Binary64>,
    raised: Seq<Binary64>,
    n: int,
)
    requires
        0 <= n < values.len(),
        raised.len() == values.len(),
    ensures
        peak_of(values, raised, 0).1.bits == 0xfff0_0000_0000_0000,
        peak_of(values, raised, 0).0 == 0,
        values[n].is_nan() || values[n].le(peak_of(values, raised, n).1) ==> peak_of(
            values,
            raised,
            n + 1,
        ) == peak_of(values, raised, n),
        peak_of(values, raised, n).1.lt(values[n]) ==> peak_of(values, raised, n + 1) == (
            n,
            raised[n],
        ),
{
}

} // verus!
