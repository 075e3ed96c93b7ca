//! Judgements and their windows.

use crate::binary64::{lemma_size_zero, one_in_units, Binary64};
use crate::conversion::conversions_reach;
use vstd::arithmetic::power2::{lemma2_to64_rest, lemma_pow2_adds, lemma_pow2_unfold, pow2};
use vstd::prelude::*;

verus! {

/// How a hit is judged, best first.
#[derive(Clone, Copy, Debug, PartialEq, Eq, Structural)]
pub enum ManiaJudgement {
    Perfect,
    Great,
    Good,
    Okay,
    Meh,
    Miss,
}

impl ManiaJudgement {
    /// The position of the judgement, best first.
    pub open spec fn position(self) -> int {
        match self {
            ManiaJudgement::Perfect => 0,
            ManiaJudgement::Great => 1,
            ManiaJudgement::Good => 2,
            ManiaJudgement::Okay => 3,
            ManiaJudgement::Meh => 4,
            ManiaJudgement::Miss => 5,
        }
    }

    /// The position of the judgement, best first.
    pub fn index(self) -> (index: usize)
        ensures
            index == self.position(),
            index < 6,
    {
        match self {
            ManiaJudgement::Perfect => 0,
            ManiaJudgement::Great => 1,
            ManiaJudgement::Good => 2,
            ManiaJudgement::Okay => 3,
            ManiaJudgement::Meh => 4,
            ManiaJudgement::Miss => 5,
        }
    }

    /// All judgements, best first.
    pub fn all() -> (judgements: [ManiaJudgement; 6])
        ensures
            forall|i: int| 0 <= i < 6 ==> (#[trigger] judgements[i]).position() == i,
    {
        [
            ManiaJudgement::Perfect,
            ManiaJudgement::Great,
            ManiaJudgement::Good,
            ManiaJudgement::Okay,
            ManiaJudgement::Meh,
            ManiaJudgement::Miss,
        ]
    }
}

/// The bits of plus infinity.
pub const INFINITY: u64 = 0x7ff0_0000_0000_0000;

/// How far off, in ms, a hit may be for each judgement.
#[derive(Clone, Copy, Debug, PartialEq, Eq, Structural)]
pub struct ManiaHitWindows {
    pub perfect: Binary64,
    pub great: Binary64,
    pub good: Binary64,
    pub ok: Binary64,
    pub meh: Binary64,
    pub miss: Binary64,
}

/// The wider of two windows; the first where neither is wider.
pub open spec fn wider(a: Binary64, b: Binary64) -> Binary64 {
    if a.lt(b) {
        b
    } else {
        a
    }
}

impl ManiaHitWindows {
    /// The windows of a map that nothing is known of: all zero.
    pub open spec fn unset() -> ManiaHitWindows {
        let zero = Binary64 { bits: 0 };
        ManiaHitWindows { perfect: zero, great: zero, good: zero, ok: zero, meh: zero, miss: zero }
    }

    /// The windows, best judgement first.
    pub open spec fn listed(self) -> Seq<Binary64> {
        seq![self.perfect, self.great, self.good, self.ok, self.meh, self.miss]
    }

    /// Whether every window is zero.
    pub open spec fn is_unset(self) -> bool {
        forall|i: int|
            0 <= i < 6 ==> (#[trigger] self.listed()[i]).same_value(Binary64 { bits: 0 })
    }

    /// Whether every window is zero.
    pub fn unset_windows(&self) -> (answer: bool)
        ensures
            answer == self.is_unset(),
    {
        let zero: Binary64 = Binary64::from_bits(0);
        proof {
            let listed = self.listed();
            assert(listed[0] == self.perfect && listed[1] == self.great && listed[2] == self.good
                && listed[3] == self.ok && listed[4] == self.meh && listed[5] == self.miss);
        }
        self.perfect.equals(zero) && self.great.equals(zero) && self.good.equals(zero)
            && self.ok.equals(zero) && self.meh.equals(zero) && self.miss.equals(zero)
    }

    /// The errors that a judgement covers: above the first bound, up to the second. A
    /// miss has no upper bound.
    pub open spec fn band_of(self, judgement: ManiaJudgement) -> (Binary64, Binary64) {
        match judgement {
            ManiaJudgement::Perfect => (Binary64 { bits: 0 }, self.perfect),
            ManiaJudgement::Great => (self.perfect, self.great),
            ManiaJudgement::Good => (self.great, self.good),
            ManiaJudgement::Okay => (self.good, self.ok),
            ManiaJudgement::Meh => (self.ok, self.meh),
            ManiaJudgement::Miss => (self.meh, Binary64 { bits: INFINITY }),
        }
    }

    /// The errors that a judgement covers: above the first bound, up to the second. A
    /// miss has no upper bound.
    pub fn band(&self, judgement: ManiaJudgement) -> (band: (Binary64, Binary64))
        ensures
            band == self.band_of(judgement),
    {
        match judgement {
            ManiaJudgement::Perfect => (Binary64::from_bits(0), self.perfect),
            ManiaJudgement::Great => (self.perfect, self.great),
            ManiaJudgement::Good => (self.great, self.good),
            ManiaJudgement::Okay => (self.good, self.ok),
            ManiaJudgement::Meh => (self.ok, self.meh),
            ManiaJudgement::Miss => (self.meh, Binary64::from_bits(INFINITY)),
        }
    }

    /// The wider window for each judgement.
    pub open spec fn widest(self, other: ManiaHitWindows) -> ManiaHitWindows {
        ManiaHitWindows {
            perfect: wider(self.perfect, other.perfect),
            great: wider(self.great, other.great),
            good: wider(self.good, other.good),
            ok: wider(self.ok, other.ok),
            meh: wider(self.meh, other.meh),
            miss: wider(self.miss, other.miss),
        }
    }

    /// The wider window for each judgement.
    pub fn widest_of(&self, other: &ManiaHitWindows) -> (windows: ManiaHitWindows)
        ensures
            windows == self.widest(*other),
    {
        ManiaHitWindows {
            perfect: wider_of(self.perfect, other.perfect),
            great: wider_of(self.great, other.great),
            good: wider_of(self.good, other.good),
            ok: wider_of(self.ok, other.ok),
            meh: wider_of(self.meh, other.meh),
            miss: wider_of(self.miss, other.miss),
        }
    }
}

impl Default for ManiaHitWindows {
    fn default() -> (windows: ManiaHitWindows)
        ensures
            windows == ManiaHitWindows::unset(),
    {
        let zero: Binary64 = Binary64::from_bits(0);
        ManiaHitWindows { perfect: zero, great: zero, good: zero, ok: zero, meh: zero, miss: zero }
    }
}

fn wider_of(a: Binary64, b: Binary64) -> (window: Binary64)
    ensures
        window == wider(a, b),
{
    if a.less(b) {
        b
    } else {
        a
    }
}

/// The classic windows at overall difficulty 8: 16.5, 40.5, 73.5, 103.5, 127.5 and 164.5.
pub open spec fn reference() -> ManiaHitWindows {
    ManiaHitWindows {
        perfect: Binary64 { bits: 0x4030_8000_0000_0000 },
        great: Binary64 { bits: 0x4044_4000_0000_0000 },
        good: Binary64 { bits: 0x4052_6000_0000_0000 },
        ok: Binary64 { bits: 0x4059_e000_0000_0000 },
        meh: Binary64 { bits: 0x405f_e000_0000_0000 },
        miss: Binary64 { bits: 0x4064_9000_0000_0000 },
    }
}

/// What a score is priced against.
#[derive(Clone, Copy, Debug, PartialEq, Eq, Structural)]
pub enum PricingReference {
    /// The map's own windows, so that only mods are priced.
    Own,
    /// The classic windows at overall difficulty 8.
    Fixed,
    /// The wider of the two for each judgement.
    OneSided,
}

/// The reference that the two switches select: the fixed one goes first.
pub open spec fn selected_reference(fixed: bool, one_sided: bool) -> PricingReference {
    if fixed {
        PricingReference::Fixed
    } else if one_sided {
        PricingReference::OneSided
    } else {
        PricingReference::Own
    }
}

/// The reference that the two switches select: the fixed one goes first.
pub fn pricing_reference(fixed: bool, one_sided: bool) -> (choice: PricingReference)
    ensures
        choice == selected_reference(fixed, one_sided),
{
    if fixed {
        PricingReference::Fixed
    } else if one_sided {
        PricingReference::OneSided
    } else {
        PricingReference::Own
    }
}

/// The windows that a score on a map with `map_windows` is priced against.
pub open spec fn reference_of(choice: PricingReference, map_windows: ManiaHitWindows) -> ManiaHitWindows {
    match choice {
        PricingReference::Own => map_windows,
        PricingReference::Fixed => reference(),
        PricingReference::OneSided => reference().widest(map_windows),
    }
}

/// The windows that a score on a map with `map_windows` is priced against.
pub fn reference_windows(choice: PricingReference, map_windows: ManiaHitWindows) -> (windows:
    ManiaHitWindows)
    ensures
        windows == reference_of(choice, map_windows),
{
    let fixed: ManiaHitWindows = ManiaHitWindows {
        perfect: Binary64::from_bits(0x4030_8000_0000_0000),
        great: Binary64::from_bits(0x4044_4000_0000_0000),
        good: Binary64::from_bits(0x4052_6000_0000_0000),
        ok: Binary64::from_bits(0x4059_e000_0000_0000),
        meh: Binary64::from_bits(0x405f_e000_0000_0000),
        miss: Binary64::from_bits(0x4064_9000_0000_0000),
    };
    match choice {
        PricingReference::Own => map_windows,
        PricingReference::Fixed => fixed,
        PricingReference::OneSided => fixed.widest_of(&map_windows),
    }
}

/// What the great hit window is before mods and clock rate.
#[derive(Clone, Copy, Debug, PartialEq, Eq, Structural)]
pub enum GreatWindowBase {
    /// 34 ms and 3 more for each point below overall difficulty 10.
    ByDifficulty,
    /// A fixed number of ms.
    Fixed { ms: u32 },
}

/// What the great hit window of a map is before mods and clock rate. A converted map has
/// 34 ms if its overall difficulty rounds to more than 4, else 47.
pub open spec fn great_base_of(is_convert: bool, od: Binary64) -> GreatWindowBase {
    if !is_convert {
        GreatWindowBase::ByDifficulty
    } else if od.nearest_within(5) > 4 {
        GreatWindowBase::Fixed { ms: 34 }
    } else {
        GreatWindowBase::Fixed { ms: 47 }
    }
}

/// What the great hit window of a map is before mods and clock rate.
pub fn great_window_base(is_convert: bool, od: Binary64) -> (base: GreatWindowBase)
    ensures
        base == great_base_of(is_convert, od),
{
    if !is_convert {
        GreatWindowBase::ByDifficulty
    } else if od.round_within(5) > 4 {
        GreatWindowBase::Fixed { ms: 34 }
    } else {
        GreatWindowBase::Fixed { ms: 47 }
    }
}

/// What mods do to hit windows.
#[derive(Clone, Copy, Debug, PartialEq, Eq, Structural)]
pub enum WindowChange {
    Unchanged,
    Narrowed,
    Widened,
}

/// What mods do to hit windows: hard rock narrows them, else easy widens them.
pub open spec fn change_by(hard_rock: bool, easy: bool) -> WindowChange {
    if hard_rock {
        WindowChange::Narrowed
    } else if easy {
        WindowChange::Widened
    } else {
        WindowChange::Unchanged
    }
}

/// What mods do to hit windows: hard rock narrows them, else easy widens them.
pub fn window_change(hard_rock: bool, easy: bool) -> (change: WindowChange)
    ensures
        change == change_by(hard_rock, easy),
{
    if hard_rock {
        WindowChange::Narrowed
    } else if easy {
        WindowChange::Widened
    } else {
        WindowChange::Unchanged
    }
}

/// Whether there are windows to price: the score holds judgements, and the map has notes
/// and a star rating that is not zero or less.
pub open spec fn is_priceable(total_hits: u32, n_objects: usize, stars: Binary64) -> bool {
    total_hits != 0 && n_objects != 0 && !stars.le(Binary64 { bits: 0 })
}

/// Whether there are windows to price: the score holds judgements, and the map has notes
/// and a star rating above zero.
pub fn has_windows_to_price(total_hits: u32, n_objects: usize, stars: Binary64) -> (answer: bool)
    ensures
        answer == is_priceable(total_hits, n_objects, stars),
{
    total_hits != 0 && n_objects != 0 && !stars.at_most(Binary64::from_bits(0))
}

/// Whether two skills can be compared: neither is zero or less.
pub open spec fn are_comparable(played: Binary64, reference: Binary64) -> bool {
    !played.le(Binary64 { bits: 0 }) && !reference.le(Binary64 { bits: 0 })
}

/// Whether the skills fitted through the played and the reference windows can be compared:
/// neither is zero or less.
pub fn comparable_skills(played: Binary64, reference: Binary64) -> (answer: bool)
    ensures
        answer == are_comparable(played, reference),
{
    let zero: Binary64 = Binary64::from_bits(0);
    !played.at_most(zero) && !reference.at_most(zero)
}

/// The bands of the judgements follow one another without gap or overlap, from zero to
/// infinity.
pub proof fn bands_cover_all_errors(windows: ManiaHitWindows, a: ManiaJudgement, b: ManiaJudgement)
    ensures
        a.position() + 1 == b.position() ==> windows.band_of(a).1 == windows.band_of(b).0,
        a.position() == 0 ==> windows.band_of(a).0.bits == 0,
        a.position() == 5 ==> windows.band_of(a).1.bits == INFINITY,
        a.position() == b.position() ==> a == b,
{
}

/// Against the map's own windows a score played through them is priced as it was played:
/// both fits see the same windows.
pub proof fn own_windows_price_nothing(map_windows: ManiaHitWindows)
    ensures
        reference_of(PricingReference::Own, map_windows) == map_windows,
{
}

/// Judgements are positioned from the best to the worst, without a gap.
pub proof fn judgements_are_positioned(a: ManiaJudgement, b: ManiaJudgement)
    ensures
        0 <= a.position() < 6,
        a.position() == b.position() ==> a == b,
        ManiaJudgement::Perfect.position() < ManiaJudgement::Great.position(),
        ManiaJudgement::Great.position() < ManiaJudgement::Good.position(),
        ManiaJudgement::Good.position() < ManiaJudgement::Okay.position(),
        ManiaJudgement::Okay.position() < ManiaJudgement::Meh.position(),
        ManiaJudgement::Meh.position() < ManiaJudgement::Miss.position(),
{
}

/// A list of windows has the window of each judgement at the position of the judgement, and a
/// judgement covers the errors up to its window from the window of the next better one on; a
/// perfect hit from zero on, and a miss without end.
pub proof fn windows_are_listed_by_judgement(windows: ManiaHitWindows, judgement: ManiaJudgement)
    ensures
        windows.listed().len() == 6,
        windows.listed()[ManiaJudgement::Perfect.position()] == windows.perfect,
        windows.listed()[ManiaJudgement::Great.position()] == windows.great,
        windows.listed()[ManiaJudgement::Good.position()] == windows.good,
        windows.listed()[ManiaJudgement::Okay.position()] == windows.ok,
        windows.listed()[ManiaJudgement::Meh.position()] == windows.meh,
        windows.listed()[ManiaJudgement::Miss.position()] == windows.miss,
        judgement != ManiaJudgement::Miss ==> windows.band_of(judgement).1
            == windows.listed()[judgement.position()],
        judgement == ManiaJudgement::Miss ==> windows.band_of(judgement).1.bits
            == 0x7ff0_0000_0000_0000,
        judgement != ManiaJudgement::Perfect ==> windows.band_of(judgement).0
            == windows.listed()[judgement.position() - 1],
        judgement == ManiaJudgement::Perfect ==> windows.band_of(judgement).0.units() == 0
            && !windows.band_of(judgement).0.is_nan(),
{
    lemma_size_zero(0);
}

/// Windows are unset exactly if none of them is anything but zero.
pub proof fn unset_windows_are_zero(windows: ManiaHitWindows)
    ensures
        windows.is_unset() <==> windows.perfect.same_value(Binary64 { bits: 0 })
            && windows.great.same_value(Binary64 { bits: 0 }) && windows.good.same_value(
            Binary64 { bits: 0 },
        ) && windows.ok.same_value(Binary64 { bits: 0 }) && windows.meh.same_value(
            Binary64 { bits: 0 },
        ) && windows.miss.same_value(Binary64 { bits: 0 }),
        ManiaHitWindows::unset().is_unset(),
{
    let listed = windows.listed();
    assert(listed[0] == windows.perfect && listed[1] == windows.great && listed[2] == windows.good
        && listed[3] == windows.ok && listed[4] == windows.meh && listed[5] == windows.miss);
    let zeros = ManiaHitWindows::unset().listed();
    assert forall|i: int| 0 <= i < 6 implies (#[trigger] zeros[i]).same_value(
        Binary64 { bits: 0 },
    ) by {
        assert(zeros[i] == Binary64 { bits: 0 });
    }
}

/// The wider windows of two are for each judgement one of the two windows, and neither is
/// wider; where neither of the two is wider, the first is taken.
pub proof fn the_widest_windows_are_no_narrower(a: ManiaHitWindows, b: ManiaHitWindows, i: int)
    requires
        0 <= i < 6,
    ensures
        ({
            let window = a.widest(b).listed()[i];
            &&& window == a.listed()[i] || window == b.listed()[i]
            &&& !window.lt(a.listed()[i])
            &&& !window.lt(b.listed()[i])
            &&& !a.listed()[i].lt(b.listed()[i]) ==> window == a.listed()[i]
        }),
{
}

/// A score is priced against the map's own windows, the classic ones, or the wider of both for
/// each judgement; the switch for the classic ones goes before the other.
pub proof fn references_follow_the_switches(
    fixed: bool,
    one_sided: bool,
    map_windows: ManiaHitWindows,
    i: int,
)
    requires
        0 <= i < 6,
    ensures
        ({
            let window = reference_of(selected_reference(fixed, one_sided), map_windows).listed()[i];
            let own = map_windows.listed()[i];
            let classic = reference().listed()[i];
            &&& !fixed && !one_sided ==> window == own
            &&& fixed ==> window == classic
            &&& !fixed && one_sided ==> (window == own || window == classic) && !window.lt(own)
                && !window.lt(classic)
        }),
{
    the_widest_windows_are_no_narrower(reference(), map_windows, i);
}

/// Hard rock narrows the windows, whatever else is on; easy widens them without it; and
/// nothing else changes them.
pub proof fn window_changes_follow_the_mods(hard_rock: bool, easy: bool)
    ensures
        change_by(hard_rock, easy) == WindowChange::Narrowed <==> hard_rock,
        change_by(hard_rock, easy) == WindowChange::Widened <==> easy && !hard_rock,
        change_by(hard_rock, easy) == WindowChange::Unchanged <==> !easy && !hard_rock,
{
}

/// The great window of a map depends on its overall difficulty. Only that of a converted map
/// does not: it is 34 ms from an overall difficulty of 4.5 on, and 47 ms below.
pub proof fn converted_maps_have_two_great_windows(is_convert: bool, od: Binary64)
    ensures
        !is_convert <==> great_base_of(is_convert, od) == GreatWindowBase::ByDifficulty,
        is_convert && !od.is_nan() && 2 * od.units() >= 9 * one_in_units() ==> great_base_of(
            is_convert,
            od,
        ) == (GreatWindowBase::Fixed { ms: 34 }),
        is_convert && (od.is_nan() || 2 * od.units() < 9 * one_in_units()) ==> great_base_of(
            is_convert,
            od,
        ) == (GreatWindowBase::Fixed { ms: 47 }),
{
    conversions_reach(od, 5, 5);
}

/// A score can be priced if it holds judgements on a map with notes and with stars, however
/// many of each, and not otherwise; two skills can be compared, in either order, if neither
/// is zero or less.
pub proof fn pricing_needs_something_of_each(
    total_hits: u32,
    n_objects: usize,
    stars: Binary64,
    skill: Binary64,
)
    ensures
        total_hits == 0 || n_objects == 0 ==> !is_priceable(total_hits, n_objects, stars),
        !stars.is_nan() && stars.units() <= 0 ==> !is_priceable(total_hits, n_objects, stars),
        total_hits > 0 && n_objects > 0 && (stars.is_nan() || stars.units() > 0) ==> is_priceable(
            total_hits,
            n_objects,
            stars,
        ),
        are_comparable(stars, skill) == are_comparable(skill, stars),
        !stars.is_nan() && stars.units() <= 0 ==> !are_comparable(stars, skill),
        (stars.is_nan() || stars.units() > 0) && (skill.is_nan() || skill.units() > 0)
            ==> are_comparable(stars, skill),
{
    lemma_size_zero(0);
}

proof fn lemma_halves(bits: u64, exponent: nat, power: nat, halves: nat)
    requires
        bits < 0x7ff0_0000_0000_0000,
        bits as nat / 0x10_0000_0000_0000 == exponent,
        0 < exponent <= 1074,
        0x10_0000_0000_0000 + bits as nat % 0x10_0000_0000_0000 == halves * power,
        power == pow2((1074 - exponent) as nat),
    ensures
        !(Binary64 { bits }).is_nan(),
        2 * (Binary64 { bits }).units() == halves * one_in_units(),
{
    let low = pow2((exponent - 1) as nat);
    lemma_pow2_unfold(exponent);
    lemma_pow2_adds((1074 - exponent) as nat, exponent);
    assert(power * pow2(exponent) == one_in_units());
    assert(2 * ((halves * power) * low) == halves * (power * (2 * low))) by (nonlinear_arith);
}

/// The classic windows at overall difficulty 8 are 16.5, 40.5, 73.5, 103.5, 127.5 and 164.5 ms.
pub proof fn the_classic_windows(i: int)
    requires
        0 <= i < 6,
    ensures
        !reference().listed()[i].is_nan(),
        2 * reference().listed()[i].units() == (if i == 0 {
            33
        } else if i == 1 {
            81
        } else if i == 2 {
            147
        } else if i == 3 {
            207
        } else if i == 4 {
            255
        } else {
            329int
        }) * one_in_units(),
{
    lemma2_to64_rest();
    lemma_halves(0x4030_8000_0000_0000, 1027, 0x8000_0000_0000, 33);
    lemma_halves(0x4044_4000_0000_0000, 1028, 0x4000_0000_0000, 81);
    lemma_halves(0x4052_6000_0000_0000, 1029, 0x2000_0000_0000, 147);
    lemma_halves(0x4059_e000_0000_0000, 1029, 0x2000_0000_0000, 207);
    lemma_halves(0x405f_e000_0000_0000, 1029, 0x2000_0000_0000, 255);
    lemma_halves(0x4064_9000_0000_0000, 1030, 0x1000_0000_0000, 329);
    let listed = reference().listed();
    assert(listed[0].bits == 0x4030_8000_0000_0000 && listed[1].bits == 0x4044_4000_0000_0000
        && listed[2].bits == 0x4052_6000_0000_0000 && listed[3].bits == 0x4059_e000_0000_0000
        && listed[4].bits == 0x405f_e000_0000_0000 && listed[5].bits == 0x4064_9000_0000_0000);
}

} // verus!
