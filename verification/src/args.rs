//! What calculations are asked for.

use crate::beatmap::ConvertFailure;
use crate::binary64::{one_in_units, Binary64};
use crate::conversion::conversions_reach;
use crate::mods::{mod_acronyms, no_mods};
use crate::score::SunnyScoreState;
use rosu_mods::GameMods;
use vstd::prelude::*;
use vstd::string::StringExecFns;

verus! {

/// A single-precision number, as its bit pattern.
#[derive(Clone, Copy, Debug, PartialEq, Eq, Structural)]
pub struct Binary32 {
    pub bits: u32,
}

/// What a difficulty calculation is asked for.
pub struct DifficultyArgs {
    pub mods: GameMods,
    pub clock_rate: Option<Binary64>,
    pub ar: Option<Binary32>,
    pub ar_with_mods: Option<bool>,
    pub cs: Option<Binary32>,
    pub cs_with_mods: Option<bool>,
    pub hp: Option<Binary32>,
    pub hp_with_mods: Option<bool>,
    pub od: Option<Binary32>,
    pub od_with_mods: Option<bool>,
    pub passed_objects: Option<u32>,
    pub hardrock_offsets: Option<bool>,
    pub lazer: Option<bool>,
}

impl DifficultyArgs {
    /// Whether nothing is asked for but the mods.
    pub open spec fn asks_nothing_but_mods(self) -> bool {
        &&& self.clock_rate is None
        &&& self.ar is None
        &&& self.ar_with_mods is None
        &&& self.cs is None
        &&& self.cs_with_mods is None
        &&& self.hp is None
        &&& self.hp_with_mods is None
        &&& self.od is None
        &&& self.od_with_mods is None
        &&& self.passed_objects is None
        &&& self.hardrock_offsets is None
        &&& self.lazer is None
    }
}

impl Default for DifficultyArgs {
    fn default() -> (args: DifficultyArgs)
        ensures
            args.asks_nothing_but_mods(),
            mod_acronyms(args.mods) == Set::<Seq<char>>::empty(),
    {
        DifficultyArgs {
            mods: no_mods(),
            clock_rate: None,
            ar: None,
            ar_with_mods: None,
            cs: None,
            cs_with_mods: None,
            hp: None,
            hp_with_mods: None,
            od: None,
            od_with_mods: None,
            passed_objects: None,
            hardrock_offsets: None,
            lazer: None,
        }
    }
}

/// What a performance calculation is asked for.
pub struct PerformanceArgs {
    /// What its difficulty calculation is asked for.
    pub difficulty: DifficultyArgs,
    /// The accuracy in percent.
    pub accuracy: Option<Binary64>,
    pub n_geki: Option<u32>,
    pub n_katu: Option<u32>,
    pub n300: Option<u32>,
    pub n100: Option<u32>,
    pub n50: Option<u32>,
    pub misses: Option<u32>,
}

impl PerformanceArgs {
    /// The judgement counts that are given; what is not given is zero.
    pub open spec fn given(self) -> SunnyScoreState {
        SunnyScoreState {
            n320: or_zero(self.n_geki),
            n300: or_zero(self.n300),
            n200: or_zero(self.n_katu),
            n100: or_zero(self.n100),
            n50: or_zero(self.n50),
            misses: or_zero(self.misses),
        }
    }

    /// The score to value: the judgements that are given or, if none are but an accuracy is,
    /// the most favourable score with that accuracy.
    pub open spec fn scored(self, n_objects: u32, perfect: Binary64) -> SunnyScoreState {
        if self.given().hits() == 0 && self.accuracy is Some {
            score_for_accuracy(n_objects, perfect)
        } else {
            self.given()
        }
    }
}

impl Default for PerformanceArgs {
    fn default() -> (args: PerformanceArgs)
        ensures
            args.difficulty.asks_nothing_but_mods(),
            mod_acronyms(args.difficulty.mods) == Set::<Seq<char>>::empty(),
            args.accuracy is None,
            args.n_geki is None,
            args.n_katu is None,
            args.n300 is None,
            args.n100 is None,
            args.n50 is None,
            args.misses is None,
    {
        PerformanceArgs {
            difficulty: DifficultyArgs::default(),
            accuracy: None,
            n_geki: None,
            n_katu: None,
            n300: None,
            n100: None,
            n50: None,
            misses: None,
        }
    }
}

/// A count that may be missing.
pub open spec fn or_zero(count: Option<u32>) -> u32 {
    match count {
        Some(count) => count,
        None => 0,
    }
}

fn count_or_zero(count: Option<u32>) -> (result: u32)
    ensures
        result == or_zero(count),
{
    match count {
        Some(count) => count,
        None => 0,
    }
}

/// Why a calculation fails.
#[derive(Clone, Copy, Debug, PartialEq, Eq, Structural)]
pub enum CalculateFailure {
    /// The map has fewer than two notes, or nothing to weigh.
    TooFewObjects,
    /// What the performance calculation was given is neither attributes nor a map.
    UnexpectedInput,
    /// The map cannot be brought into mania.
    Convert(ConvertFailure),
}

impl CalculateFailure {
    pub open spec fn text(self) -> Seq<char> {
        match self {
            CalculateFailure::TooFewObjects => "sunny calculation requires at least 2 hit objects"@,
            CalculateFailure::UnexpectedInput =>
                "Expected either sunny mania difficulty attributes or a beatmap"@,
            CalculateFailure::Convert(failure) => "converting the map to mania failed: "@
                + failure.code(),
        }
    }

    /// The failure in words.
    pub fn message(&self) -> (message: String)
        ensures
            message@ == self.text(),
    {
        match self {
            CalculateFailure::TooFewObjects => String::from_str(
                "sunny calculation requires at least 2 hit objects",
            ),
            CalculateFailure::UnexpectedInput => String::from_str(
                "Expected either sunny mania difficulty attributes or a beatmap",
            ),
            CalculateFailure::Convert(failure) => failure.mania_message(),
        }
    }
}

/// Builder for a sunny mania difficulty calculation.
pub struct JsSunnyManiaDifficulty {
    pub args: DifficultyArgs,
}

impl JsSunnyManiaDifficulty {
    /// A calculator with the given arguments, else one that is asked for nothing.
    pub fn new(args: Option<DifficultyArgs>) -> (calculator: JsSunnyManiaDifficulty)
        ensures
            args matches Some(args) ==> calculator.args == args,
            args is None ==> calculator.args.asks_nothing_but_mods() && mod_acronyms(
                calculator.args.mods,
            ) == Set::<Seq<char>>::empty(),
    {
        match args {
            Some(args) => JsSunnyManiaDifficulty { args },
            None => JsSunnyManiaDifficulty { args: DifficultyArgs::default() },
        }
    }

    pub fn set_mods(&mut self, mods: Option<GameMods>)
        ensures
            mods matches Some(mods) ==> final(self).args == (DifficultyArgs {
                mods,
                ..old(self).args
            }),
            mods is None ==> mod_acronyms(final(self).args.mods) == Set::<Seq<char>>::empty()
                && final(self).args == (DifficultyArgs {
                mods: final(self).args.mods,
                ..old(self).args
            }),
    {
        self.args.mods =
        match mods {
            Some(mods) => mods,
            None => no_mods(),
        };
    }

    pub fn set_lazer(&mut self, lazer: Option<bool>)
        ensures
            final(self).args == (DifficultyArgs { lazer, ..old(self).args }),
    {
        self.args.lazer = lazer;
    }

    pub fn set_clock_rate(&mut self, clock_rate: Option<Binary64>)
        ensures
            final(self).args == (DifficultyArgs { clock_rate, ..old(self).args }),
    {
        self.args.clock_rate = clock_rate;
    }

    pub fn set_passed_objects(&mut self, passed_objects: Option<u32>)
        ensures
            final(self).args == (DifficultyArgs { passed_objects, ..old(self).args }),
    {
        self.args.passed_objects = passed_objects;
    }
}

/// The most favourable score of `n_objects` judgements with an accuracy: perfect and
/// great hits, where `perfect` is how many perfect hits the accuracy asks for.
pub open spec fn score_for_accuracy(n_objects: u32, perfect: Binary64) -> SunnyScoreState {
    let n320 = perfect.nearest_within(n_objects as nat) as u32;
    SunnyScoreState {
        n320,
        n300: (n_objects - n320) as u32,
        n200: 0,
        n100: 0,
        n50: 0,
        misses: 0,
    }
}

/// Builder for a sunny mania performance calculation.
pub struct JsSunnyManiaPerformance {
    pub args: PerformanceArgs,
}

impl JsSunnyManiaPerformance {
    /// A calculator with the given arguments, else one that is asked for nothing.
    pub fn new(args: Option<PerformanceArgs>) -> (calculator: JsSunnyManiaPerformance)
        ensures
            args matches Some(args) ==> calculator.args == args,
            args is None ==> calculator.args.difficulty.asks_nothing_but_mods() && mod_acronyms(
                calculator.args.difficulty.mods,
            ) == Set::<Seq<char>>::empty() && calculator.args.accuracy is None
                && calculator.args.n_geki is None && calculator.args.n_katu is None
                && calculator.args.n300 is None && calculator.args.n100 is None
                && calculator.args.n50 is None && calculator.args.misses is None,
    {
        match args {
            Some(args) => JsSunnyManiaPerformance { args },
            None => JsSunnyManiaPerformance { args: PerformanceArgs::default() },
        }
    }

    /// The score to value: the judgements that were given or, if none were but an accuracy
    /// was, the most favourable score with that accuracy.
    ///
    /// `perfect` is how many of the judgements the accuracy asks to be perfect, before
    /// rounding. It is not looked at unless an accuracy was given.
    pub fn score_state(&self, n_objects: u32, perfect: Binary64) -> (state: SunnyScoreState)
        ensures
            state == self.args.scored(n_objects, perfect),
    {
        let state: SunnyScoreState = SunnyScoreState {
            n320: count_or_zero(self.args.n_geki),
            n300: count_or_zero(self.args.n300),
            n200: count_or_zero(self.args.n_katu),
            n100: count_or_zero(self.args.n100),
            n50: count_or_zero(self.args.n50),
            misses: count_or_zero(self.args.misses),
        };
        if state.is_empty() && self.args.accuracy.is_some() {
            let n320: u32 = perfect.round_within(n_objects);
            SunnyScoreState {
                n320,
                n300: n_objects - n320,
                n200: 0,
                n100: 0,
                n50: 0,
                misses: 0,
            }
        } else {
            state
        }
    }

    pub fn set_mods(&mut self, mods: Option<GameMods>)
        ensures
            mods matches Some(mods) ==> final(self).args == (PerformanceArgs {
                difficulty: DifficultyArgs { mods, ..old(self).args.difficulty },
                ..old(self).args
            }),
            mods is None ==> mod_acronyms(final(self).args.difficulty.mods) == Set::<
                Seq<char>,
            >::empty() && final(self).args == (PerformanceArgs {
                difficulty: DifficultyArgs {
                    mods: final(self).args.difficulty.mods,
                    ..old(self).args.difficulty
                },
                ..old(self).args
            }),
    {
        self.args.difficulty.mods =
        match mods {
            Some(mods) => mods,
            None => no_mods(),
        };
    }

    pub fn set_lazer(&mut self, lazer: Option<bool>)
        ensures
            final(self).args == (PerformanceArgs {
                difficulty: DifficultyArgs { lazer, ..old(self).args.difficulty },
                ..old(self).args
            }),
    {
        self.args.difficulty.lazer = lazer;
    }

    pub fn set_clock_rate(&mut self, clock_rate: Option<Binary64>)
        ensures
            final(self).args == (PerformanceArgs {
                difficulty: DifficultyArgs { clock_rate, ..old(self).args.difficulty },
                ..old(self).args
            }),
    {
        self.args.difficulty.clock_rate = clock_rate;
    }

    pub fn set_passed_objects(&mut self, passed_objects: Option<u32>)
        ensures
            final(self).args == (PerformanceArgs {
                difficulty: DifficultyArgs { passed_objects, ..old(self).args.difficulty },
                ..old(self).args
            }),
    {
        self.args.difficulty.passed_objects = passed_objects;
    }

    pub fn set_accuracy(&mut self, accuracy: Option<Binary64>)
        ensures
            final(self).args == (PerformanceArgs { accuracy, ..old(self).args }),
    {
        self.args.accuracy = accuracy;
    }

    pub fn set_n_geki(&mut self, n_geki: Option<u32>)
        ensures
            final(self).args == (PerformanceArgs { n_geki, ..old(self).args }),
    {
        self.args.n_geki = n_geki;
    }

    pub fn set_n_katu(&mut self, n_katu: Option<u32>)
        ensures
            final(self).args == (PerformanceArgs { n_katu, ..old(self).args }),
    {
        self.args.n_katu = n_katu;
    }

    pub fn set_n300(&mut self, n300: Option<u32>)
        ensures
            final(self).args == (PerformanceArgs { n300, ..old(self).args }),
    {
        self.args.n300 = n300;
    }

    pub fn set_n100(&mut self, n100: Option<u32>)
        ensures
            final(self).args == (PerformanceArgs { n100, ..old(self).args }),
    {
        self.args.n100 = n100;
    }

    pub fn set_n50(&mut self, n50: Option<u32>)
        ensures
            final(self).args == (PerformanceArgs { n50, ..old(self).args }),
    {
        self.args.n50 = n50;
    }

    pub fn set_misses(&mut self, misses: Option<u32>)
        ensures
            final(self).args == (PerformanceArgs { misses, ..old(self).args }),
    {
        self.args.misses = misses;
    }
}

/// A score made up from an accuracy has one judgement for every object.
pub proof fn a_made_up_score_judges_every_object(n_objects: u32, perfect: Binary64)
    ensures
        score_for_accuracy(n_objects, perfect).hits() == n_objects,
        score_for_accuracy(n_objects, perfect).n320 <= n_objects,
{
}

/// What a calculation is asked for over the bridge.
#[derive(Clone, Copy, Debug, PartialEq, Eq, Structural)]
pub struct CalculationArgs {
    /// The mods as bits.
    pub mods: u32,
    pub clock_rate: Binary64,
    pub lazer: bool,
    pub passed_objects: Option<u32>,
}

/// A number that may be missing, brought into the range of `u32`.
pub open spec fn whole_or_zero(number: Option<Binary64>) -> u32 {
    match number {
        Some(number) => number.as_u32() as u32,
        None => 0,
    }
}

/// A number that may be missing, brought into the range of `u32`.
pub fn u32_value(number: Option<Binary64>) -> (value: u32)
    ensures
        value == whole_or_zero(number),
{
    match number {
        Some(number) => number.to_u32(),
        None => 0,
    }
}

/// Whether one of the bits of `flag`, a power of two, is set.
pub open spec fn has_flag(bits: u32, flag: u32) -> bool {
    (bits / flag) % 2 == 1
}

/// The clock rate of the mods with the given bits, as the bits of a double: 1.5 with
/// double time (64) or nightcore (512), 0.75 with half time (256), else 1.
pub open spec fn rate_of_bits(bits: u32) -> u64 {
    if has_flag(bits, 64) || has_flag(bits, 512) {
        0x3ff8_0000_0000_0000
    } else if has_flag(bits, 256) {
        0x3fe8_0000_0000_0000
    } else {
        0x3ff0_0000_0000_0000
    }
}

fn default_rate(bits: u32) -> (rate: Binary64)
    ensures
        rate.bits == rate_of_bits(bits),
{
    assert((bits & 576 != 0) == ((bits / 64) % 2 == 1 || (bits / 512) % 2 == 1)) by (bit_vector);
    assert((bits & 256 != 0) == ((bits / 256) % 2 == 1)) by (bit_vector);
    if bits & 576 != 0 {
        Binary64::from_bits(0x3ff8_0000_0000_0000)
    } else if bits & 256 != 0 {
        Binary64::from_bits(0x3fe8_0000_0000_0000)
    } else {
        Binary64::from_bits(0x3ff0_0000_0000_0000)
    }
}

impl CalculationArgs {
    /// The arguments in the numbers and the flag that are given: a clock rate that is not
    /// given is the one of the mods, and a play counts as stable unless it says otherwise.
    pub open spec fn of_numbers(
        mods: Option<Binary64>,
        clock_rate: Option<Binary64>,
        lazer: Option<bool>,
        passed_objects: Option<Binary64>,
    ) -> CalculationArgs {
        CalculationArgs {
            mods: whole_or_zero(mods),
            clock_rate: match clock_rate {
                Some(rate) => rate,
                None => Binary64 { bits: rate_of_bits(whole_or_zero(mods)) },
            },
            lazer: lazer == Some(true),
            passed_objects: match passed_objects {
                Some(number) => Some(number.as_u32() as u32),
                None => None,
            },
        }
    }

    /// The arguments from the numbers and the flag that were given.
    pub fn from_numbers(
        mods: Option<Binary64>,
        clock_rate: Option<Binary64>,
        lazer: Option<bool>,
        passed_objects: Option<Binary64>,
    ) -> (args: CalculationArgs)
        ensures
            args == CalculationArgs::of_numbers(mods, clock_rate, lazer, passed_objects),
    {
        let bits: u32 = u32_value(mods);
        let clock_rate: Binary64 = match clock_rate {
            Some(rate) => rate,
            None => default_rate(bits),
        };
        let passed_objects: Option<u32> = match passed_objects {
            Some(number) => Some(number.to_u32()),
            None => None,
        };
        let lazer: bool = match lazer {
            Some(lazer) => lazer,
            None => false,
        };
        CalculationArgs { mods: bits, clock_rate, lazer, passed_objects }
    }
}

/// The score in the numbers that are given, best judgement first.
pub open spec fn state_of_numbers(
    n_geki: Option<Binary64>,
    n300: Option<Binary64>,
    n_katu: Option<Binary64>,
    n100: Option<Binary64>,
    n50: Option<Binary64>,
    misses: Option<Binary64>,
) -> SunnyScoreState {
    SunnyScoreState {
        n320: whole_or_zero(n_geki),
        n300: whole_or_zero(n300),
        n200: whole_or_zero(n_katu),
        n100: whole_or_zero(n100),
        n50: whole_or_zero(n50),
        misses: whole_or_zero(misses),
    }
}

/// The score out of the numbers that were given, best judgement first.
pub fn sunny_state(
    n_geki: Option<Binary64>,
    n300: Option<Binary64>,
    n_katu: Option<Binary64>,
    n100: Option<Binary64>,
    n50: Option<Binary64>,
    misses: Option<Binary64>,
) -> (state: SunnyScoreState)
    ensures
        state == state_of_numbers(n_geki, n300, n_katu, n100, n50, misses),
{
    SunnyScoreState {
        n320: u32_value(n_geki),
        n300: u32_value(n300),
        n200: u32_value(n_katu),
        n100: u32_value(n100),
        n50: u32_value(n50),
        misses: u32_value(misses),
    }
}

/// Each judgement count that is given is the count of its judgement and of no other, and one
/// that is not given is zero.
pub proof fn given_counts_are_kept(args: PerformanceArgs, n: u32)
    ensures
        (PerformanceArgs { n_geki: Some(n), ..args }).given() == (SunnyScoreState {
            n320: n,
            ..args.given()
        }),
        (PerformanceArgs { n300: Some(n), ..args }).given() == (SunnyScoreState {
            n300: n,
            ..args.given()
        }),
        (PerformanceArgs { n_katu: Some(n), ..args }).given() == (SunnyScoreState {
            n200: n,
            ..args.given()
        }),
        (PerformanceArgs { n100: Some(n), ..args }).given() == (SunnyScoreState {
            n100: n,
            ..args.given()
        }),
        (PerformanceArgs { n50: Some(n), ..args }).given() == (SunnyScoreState {
            n50: n,
            ..args.given()
        }),
        (PerformanceArgs { misses: Some(n), ..args }).given() == (SunnyScoreState {
            misses: n,
            ..args.given()
        }),
        args.n_geki is None ==> args.given().n320 == 0,
        args.n300 is None ==> args.given().n300 == 0,
        args.n_katu is None ==> args.given().n200 == 0,
        args.n100 is None ==> args.given().n100 == 0,
        args.n50 is None ==> args.given().n50 == 0,
        args.misses is None ==> args.given().misses == 0,
{
}

/// The clock rate that mods have by default depends on double time, nightcore and half time
/// alone, whatever other mods there are: either of the first two makes it 1.5, else the last
/// makes it 0.75, and without them it is 1.
pub proof fn the_rate_depends_on_three_mods(bits: u32, other: u32)
    ensures
        bits & 64 != 0 || bits & 512 != 0 ==> rate_of_bits(bits) == 0x3ff8_0000_0000_0000,
        bits & 64 == 0 && bits & 512 == 0 && bits & 256 != 0 ==> rate_of_bits(bits)
            == 0x3fe8_0000_0000_0000,
        bits & 64 == 0 && bits & 512 == 0 && bits & 256 == 0 ==> rate_of_bits(bits)
            == 0x3ff0_0000_0000_0000,
        bits & 832 == other & 832 ==> rate_of_bits(bits) == rate_of_bits(other),
{
    assert((bits & 64 != 0) == ((bits / 64) % 2 == 1)) by (bit_vector);
    assert((bits & 512 != 0) == ((bits / 512) % 2 == 1)) by (bit_vector);
    assert((bits & 256 != 0) == ((bits / 256) % 2 == 1)) by (bit_vector);
    assert(bits & 832 == other & 832 ==> (bits / 64) % 2 == (other / 64) % 2 && (bits / 512) % 2 == (
    other / 512) % 2 && (bits / 256) % 2 == (other / 256) % 2) by (bit_vector);
}

/// Whether `count` is the count of a judgement that `given` says: none is given for zero.
pub open spec fn counts_as(count: u32, given: Option<u32>) -> bool {
    given == Some(count) || (given is None && count == 0)
}

/// The score to value is the one that is given, wherever a judgement is or no accuracy is.
/// Else it has as many judgements as there are objects, all perfect or great: `k` or more are
/// perfect exactly if the accuracy asks for no less than a half below `k`.
pub proof fn scores_are_given_or_made_up(
    args: PerformanceArgs,
    n_objects: u32,
    perfect: Binary64,
    k: u32,
)
    ensures
        ({
            let state = args.scored(n_objects, perfect);
            let none_given = counts_as(0, args.n_geki) && counts_as(0, args.n300) && counts_as(
                0,
                args.n_katu,
            ) && counts_as(0, args.n100) && counts_as(0, args.n50) && counts_as(0, args.misses);
            if args.accuracy is None || !none_given {
                &&& counts_as(state.n320, args.n_geki)
                &&& counts_as(state.n300, args.n300)
                &&& counts_as(state.n200, args.n_katu)
                &&& counts_as(state.n100, args.n100)
                &&& counts_as(state.n50, args.n50)
                &&& counts_as(state.misses, args.misses)
            } else {
                &&& state.n320 + state.n300 == n_objects
                &&& state.n200 == 0 && state.n100 == 0 && state.n50 == 0 && state.misses == 0
                &&& 0 < k <= n_objects ==> (state.n320 >= k <==> !perfect.is_nan() && 2
                    * perfect.units() >= (2 * k - 1) * one_in_units())
            }
        }),
{
    if 0 < k <= n_objects {
        conversions_reach(perfect, n_objects as nat, k as nat);
    }
}

/// A number is read as the whole number `k` if it is from `k` on and below `k + 1`; what is
/// missing, below one or no number is read as zero.
pub proof fn numbers_are_cut_to_whole_ones(number: Option<Binary64>, k: u32)
    ensures
        number is None ==> whole_or_zero(number) == 0,
        number matches Some(value) ==> {
            &&& value.is_nan() ==> whole_or_zero(number) == 0
            &&& k > 0 ==> (whole_or_zero(number) >= k <==> !value.is_nan() && value.units() >= k
                * one_in_units())
        },
{
    if let Some(value) = number {
        if k > 0 {
            conversions_reach(value, u32::MAX as nat, k as nat);
        }
    }
}

/// Each argument is read out of the number that stands for it and out of no other: a rate that
/// is given is the rate, and without one the rate is that of the mods.
pub proof fn arguments_are_read_apart(
    mods: Option<Binary64>,
    clock_rate: Option<Binary64>,
    lazer: Option<bool>,
    passed_objects: Option<Binary64>,
)
    ensures
        ({
            let args = CalculationArgs::of_numbers(mods, clock_rate, lazer, passed_objects);
            &&& args.mods == whole_or_zero(mods)
            &&& clock_rate matches Some(rate) ==> args.clock_rate == rate
            &&& clock_rate is None && (args.mods & 64 != 0 || args.mods & 512 != 0)
                ==> args.clock_rate.bits == 0x3ff8_0000_0000_0000
            &&& clock_rate is None && args.mods & 832 == 256 ==> args.clock_rate.bits
                == 0x3fe8_0000_0000_0000
            &&& clock_rate is None && args.mods & 832 == 0 ==> args.clock_rate.bits
                == 0x3ff0_0000_0000_0000
            &&& lazer is None ==> !args.lazer
            &&& lazer matches Some(answer) ==> args.lazer == answer
            &&& args.passed_objects is None <==> passed_objects is None
            &&& args.passed_objects matches Some(n) ==> n == whole_or_zero(passed_objects)
        }),
{
    let bits = whole_or_zero(mods);
    the_rate_depends_on_three_mods(bits, 256);
    the_rate_depends_on_three_mods(bits, 0);
    the_rate_depends_on_three_mods(256, 0);
    the_rate_depends_on_three_mods(0, 0);
    assert(256u32 & 832 == 256 && 0u32 & 832 == 0 && 256u32 & 64 == 0 && 256u32 & 512 == 0 && 256u32
        & 256 == 256 && 0u32 & 64 == 0 && 0u32 & 512 == 0 && 0u32 & 256 == 0) by (bit_vector);
}

/// A score has of each judgement as many as the number for that judgement says.
pub proof fn judgements_are_read_apart(
    n_geki: Option<Binary64>,
    n300: Option<Binary64>,
    n_katu: Option<Binary64>,
    n100: Option<Binary64>,
    n50: Option<Binary64>,
    misses: Option<Binary64>,
)
    ensures
        ({
            let state = state_of_numbers(n_geki, n300, n_katu, n100, n50, misses);
            &&& state.n320 == whole_or_zero(n_geki)
            &&& state.n300 == whole_or_zero(n300)
            &&& state.n200 == whole_or_zero(n_katu)
            &&& state.n100 == whole_or_zero(n100)
            &&& state.n50 == whole_or_zero(n50)
            &&& state.misses == whole_or_zero(misses)
        }),
{
}

/// Arguments that ask for nothing but mods leave every other setting to the calculation.
pub proof fn default_arguments_ask_for_nothing(args: DifficultyArgs, other: DifficultyArgs)
    requires
        args.asks_nothing_but_mods(),
        other.asks_nothing_but_mods(),
        args.mods == other.mods,
    ensures
        args == other,
        args.lazer is None && args.clock_rate is None && args.passed_objects is None,
        args.od is None && args.cs is None && args.ar is None && args.hp is None,
{
}

/// What a failed calculation says: a map that cannot be brought into mania says why.
pub proof fn failures_are_told(failure: ConvertFailure)
    ensures
        CalculateFailure::TooFewObjects.text()
            == "sunny calculation requires at least 2 hit objects"@,
        CalculateFailure::UnexpectedInput.text()
            == "Expected either sunny mania difficulty attributes or a beatmap"@,
        CalculateFailure::Convert(failure).text() == "converting the map to mania failed: "@
            + failure.code(),
{
}

} // verus!
