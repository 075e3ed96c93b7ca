//! Scores.

use vstd::prelude::*;

verus! {

/// The judgement counts of a score, best judgement first.
#[derive(Clone, Copy, Debug, Default, PartialEq, Eq, Structural)]
pub struct SunnyScoreState {
    pub n320: u32,
    pub n300: u32,
    pub n200: u32,
    pub n100: u32,
    pub n50: u32,
    pub misses: u32,
}

impl SunnyScoreState {
    /// How many judgements the score holds.
    pub open spec fn hits(self) -> nat {
        (self.n320 + self.n300 + self.n200 + self.n100 + self.n50 + self.misses) as nat
    }

    /// How many judgements the score holds.
    pub fn total_hits(&self) -> (total: u32)
        requires
            self.hits() <= u32::MAX,
        ensures
            total == self.hits(),
    {
        self.n320 + self.n300 + self.n200 + self.n100 + self.n50 + self.misses
    }

    /// Whether the score holds no judgement.
    pub fn is_empty(&self) -> (answer: bool)
        ensures
            answer == (self.hits() == 0),
    {
        self.n320 == 0 && self.n300 == 0 && self.n200 == 0 && self.n100 == 0 && self.n50 == 0
            && self.misses == 0
    }

    /// The judgement counts, best judgement first.
    pub fn counts(&self) -> (counts: [u32; 6])
        ensures
            counts@ =~= seq![self.n320, self.n300, self.n200, self.n100, self.n50, self.misses],
    {
        [self.n320, self.n300, self.n200, self.n100, self.n50, self.misses]
    }

    /// The points of the score, where a perfect hit is worth 305.
    pub open spec fn points(self) -> nat {
        (305 * self.n320 + 300 * self.n300 + 200 * self.n200 + 100 * self.n100 + 50
            * self.n50) as nat
    }
}

/// The accuracy of a score as a fraction: its points, and the points that as many perfect
/// hits are worth. None for a score without judgements, whose accuracy is zero.
pub open spec fn accuracy_of(state: SunnyScoreState) -> Option<(nat, nat)> {
    if state.hits() == 0 {
        None
    } else {
        Some((state.points(), 305 * state.hits()))
    }
}

/// The accuracy of a score as a fraction: its points, and the points that as many perfect
/// hits are worth. None for a score without judgements, whose accuracy is zero.
pub fn custom_accuracy(state: SunnyScoreState) -> (fraction: Option<(u32, u32)>)
    requires
        305 * state.hits() <= u32::MAX,
    ensures
        fraction is None <==> accuracy_of(state) is None,
        fraction matches Some((numerator, denominator)) ==> accuracy_of(state) == Some(
            (numerator as nat, denominator as nat),
        ) && numerator <= denominator,
{
    let total_hits: u32 = state.total_hits();
    if total_hits == 0 {
        return None;
    }
    let numerator: u32 = state.n320 * 305 + state.n300 * 300 + state.n200 * 200 + state.n100 * 100
        + state.n50 * 50;
    Some((numerator, total_hits * 305))
}

/// Accuracy is full exactly where every hit is perfect.
pub proof fn only_perfect_hits_have_full_accuracy(state: SunnyScoreState)
    ensures
        state.points() == 305 * state.hits() <==> state.n320 == state.hits(),
{
}

/// A further judgement is one more hit, and is worth 305, 300, 200, 100, 50 or no points,
/// whatever else the score holds. A score without judgements has neither hits nor points.
pub proof fn every_judgement_has_its_points(state: SunnyScoreState, n: u32)
    ensures
        ({
            let base = SunnyScoreState { n320: 0, ..state };
            let grown = SunnyScoreState { n320: n, ..state };
            grown.hits() == base.hits() + n && grown.points() == base.points() + 305 * n
        }),
        ({
            let base = SunnyScoreState { n300: 0, ..state };
            let grown = SunnyScoreState { n300: n, ..state };
            grown.hits() == base.hits() + n && grown.points() == base.points() + 300 * n
        }),
        ({
            let base = SunnyScoreState { n200: 0, ..state };
            let grown = SunnyScoreState { n200: n, ..state };
            grown.hits() == base.hits() + n && grown.points() == base.points() + 200 * n
        }),
        ({
            let base = SunnyScoreState { n100: 0, ..state };
            let grown = SunnyScoreState { n100: n, ..state };
            grown.hits() == base.hits() + n && grown.points() == base.points() + 100 * n
        }),
        ({
            let base = SunnyScoreState { n50: 0, ..state };
            let grown = SunnyScoreState { n50: n, ..state };
            grown.hits() == base.hits() + n && grown.points() == base.points() + 50 * n
        }),
        ({
            let base = SunnyScoreState { misses: 0, ..state };
            let grown = SunnyScoreState { misses: n, ..state };
            grown.hits() == base.hits() + n && grown.points() == base.points()
        }),
        state.hits() == 0 ==> state.points() == 0 && state == (SunnyScoreState {
            n320: 0,
            n300: 0,
            n200: 0,
            n100: 0,
            n50: 0,
            misses: 0,
        }),
{
}

/// Every score with judgements has an accuracy, and no other: its points through 305 for every
/// judgement. A score of one judgement alone, however often given, has that judgement's share of
/// 305 points.
pub proof fn every_score_with_judgements_has_an_accuracy(state: SunnyScoreState, n: u32)
    ensures
        accuracy_of(state) is None <==> state.n320 == 0 && state.n300 == 0 && state.n200 == 0
            && state.n100 == 0 && state.n50 == 0 && state.misses == 0,
        accuracy_of(state) matches Some((numerator, denominator)) ==> numerator == state.points()
            && denominator == 305 * state.n320 + 305 * state.n300 + 305 * state.n200 + 305
            * state.n100 + 305 * state.n50 + 305 * state.misses,
        n > 0 ==> {
            let none = SunnyScoreState { n320: 0, n300: 0, n200: 0, n100: 0, n50: 0, misses: 0 };
            let most = 305 * n as nat;
            &&& accuracy_of(SunnyScoreState { n320: n, ..none }) == Some((most, most))
            &&& accuracy_of(SunnyScoreState { n300: n, ..none }) == Some((300 * n as nat, most))
            &&& accuracy_of(SunnyScoreState { n200: n, ..none }) == Some((200 * n as nat, most))
            &&& accuracy_of(SunnyScoreState { n100: n, ..none }) == Some((100 * n as nat, most))
            &&& accuracy_of(SunnyScoreState { n50: n, ..none }) == Some((50 * n as nat, most))
            &&& accuracy_of(SunnyScoreState { misses: n, ..none }) == Some((0nat, most))
        },
{
}

} // verus!
