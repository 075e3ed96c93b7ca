//! Mods, as far as the calculation looks at them.

use crate::binary64::Binary64;
use crate::windows::{window_change, WindowChange};
use rosu_mods::{Acronym, GameMode, GameMods, GameModsIntermode};
use vstd::prelude::*;

verus! {

/// The mods of a score.
#[verifier::external_type_specification]
#[verifier::external_body]
pub struct ExGameMods(GameMods);

/// The acronyms of the mods that a set of mods holds.
pub uninterp spec fn mod_acronyms(mods: GameMods) -> Set<Seq<char>>;

/// Whether a text is made of ASCII characters other than NUL.
pub open spec fn is_plain(text: Seq<char>) -> bool {
    forall|i: int| 0 <= i < text.len() ==> 0 < (#[trigger] text[i] as int) < 128
}

/// An ASCII character in upper case.
pub open spec fn upper(c: char) -> char {
    if 'a' <= c <= 'z' {
        (c as u32 - 32) as char
    } else {
        c
    }
}

/// Whether the mods hold one with this acronym in either case. Acronyms have two or
/// three characters; "NM" stands for no mods at all.
pub open spec fn holds_mod(mods: GameMods, acronym: Seq<char>) -> bool {
    let wanted = acronym.map_values(|c: char| upper(c));
    &&& acronym.len() == 2 || acronym.len() == 3
    &&& mod_acronyms(mods).contains(wanted) || (mod_acronyms(mods) == Set::<Seq<char>>::empty()
        && wanted == seq!['N', 'M'])
}

/// Calls `str::parse::<Acronym>` and, if that succeeds, `GameMods::contains_acronym`.
///
/// The parse accepts texts of two or three bytes and turns ASCII letters into upper case.
/// The lookup compares with the acronym of each mod, and takes "NM" for an empty set.
/// Nothing is said of texts with a NUL, which the parse cannot tell from padding, nor of
/// texts beyond ASCII, whose bytes are not their characters.
#[verifier::external_body]
fn contains_acronym(mods: &GameMods, acronym: &str) -> (found: bool)
    ensures
        is_plain(acronym@) ==> found == holds_mod(*mods, acronym@),
{
    match acronym.parse::<Acronym>() {
        Ok(parsed) => mods.contains_acronym(parsed),
        Err(_) => false,
    }
}

/// Calls `GameMods::is_empty`: whether the set holds no mod.
#[verifier::external_body]
fn is_empty(mods: &GameMods) -> (answer: bool)
    ensures
        answer == (mod_acronyms(*mods) == Set::<Seq<char>>::empty()),
{
    mods.is_empty()
}

/// Calls `GameMods::default`: a set without mods.
#[verifier::external_body]
pub(crate) fn no_mods() -> (mods: GameMods)
    ensures
        mod_acronyms(mods) == Set::<Seq<char>>::empty(),
{
    GameMods::default()
}

/// The bits of the clock rate that a set of mods asks for, if it asks for a single one. Of a
/// NaN they are the bits of some NaN.
pub uninterp spec fn mods_clock_rate(mods: GameMods) -> Option<u64>;

/// Whether two clock rates are the same: neither is there, or both have the same bits, or
/// both are NaNs.
pub open spec fn same_rate(a: Option<u64>, b: Option<u64>) -> bool {
    match (a, b) {
        (None, None) => true,
        (Some(x), Some(y)) => x == y || (Binary64 { bits: x }.is_nan() && Binary64 {
            bits: y,
        }.is_nan()),
        _ => false,
    }
}

/// Calls `GameMods::clock_rate`. What it returns depends on the mods and their settings
/// alone, but for the bits of a NaN: the product of the mods' rates can be one, and then any
/// NaN stands for any other.
#[verifier::external_body]
fn clock_rate_bits(mods: &GameMods) -> (bits: Option<u64>)
    ensures
        same_rate(bits, mods_clock_rate(*mods)),
{
    match mods.clock_rate() {
        Some(rate) => Some(rate.to_bits()),
        None => None,
    }
}

/// The bits of 1.
pub const NORMAL_RATE: u64 = 0x3ff0_0000_0000_0000;

/// The clock rate to use: a custom one if given, else the one that the mods ask for, else
/// 1.
pub open spec fn clock_rate_of(custom: Option<Binary64>, mods: GameMods) -> Binary64 {
    match custom {
        Some(rate) => rate,
        None => match mods_clock_rate(mods) {
            Some(bits) => Binary64 { bits },
            None => Binary64 { bits: NORMAL_RATE },
        },
    }
}

/// The clock rate to use: a custom one if given, else the one that the mods ask for, else
/// 1. Where the mods ask for a NaN, it is a NaN.
pub fn clock_rate(custom: Option<Binary64>, mods: &GameMods) -> (rate: Binary64)
    ensures
        custom matches Some(given) ==> rate == given,
        custom is None ==> same_rate(Some(rate.bits), Some(clock_rate_of(custom, *mods).bits)),
{
    match custom {
        Some(rate) => rate,
        None => rate_or_normal(clock_rate_bits(mods)),
    }
}

/// The rate with the given bits, else 1.
pub open spec fn rate_with(bits: Option<u64>) -> Binary64 {
    match bits {
        Some(bits) => Binary64 { bits },
        None => Binary64 { bits: NORMAL_RATE },
    }
}

/// The rate with the given bits, else 1.
pub fn rate_or_normal(bits: Option<u64>) -> (rate: Binary64)
    ensures
        rate == rate_with(bits),
{
    match bits {
        Some(bits) => Binary64::from_bits(bits),
        None => Binary64::from_bits(NORMAL_RATE),
    }
}

/// The mods of a mania score that have the given bits.
pub uninterp spec fn mods_of_score_bits(bits: u32) -> GameMods;

/// Calls `GameModsIntermode::from_bits` and `GameModsIntermode::with_mode` for mania. What
/// comes out depends on the bits alone.
#[verifier::external_body]
fn mania_mods(bits: u32) -> (mods: GameMods)
    ensures
        mods == mods_of_score_bits(bits),
{
    GameModsIntermode::from_bits(bits).with_mode(GameMode::Mania)
}

/// The mods of a mania score that have the given bits.
pub fn score_mods(bits: u32) -> (mods: GameMods)
    ensures
        mods == mods_of_score_bits(bits),
{
    mania_mods(bits)
}

/// What mods do to hit windows: hard rock narrows them, else easy widens them.
pub open spec fn window_change_of(mods: GameMods) -> WindowChange {
    if mod_acronyms(mods).contains(seq!['H', 'R']) {
        WindowChange::Narrowed
    } else if mod_acronyms(mods).contains(seq!['E', 'Z']) {
        WindowChange::Widened
    } else {
        WindowChange::Unchanged
    }
}

/// What mods do to hit windows.
pub fn window_change_for(mods: &GameMods) -> (change: WindowChange)
    ensures
        change == window_change_of(*mods),
{
    let found: ScoringMods = scoring_mods(mods);
    window_change(found.hard_rock, found.easy)
}

/// Without mods a score is graded against the map's own windows.
pub proof fn no_mods_leave_the_windows(mods: GameMods)
    requires
        mod_acronyms(mods) == Set::<Seq<char>>::empty(),
    ensures
        window_change_of(mods) == WindowChange::Unchanged,
{
}

/// Whether the mods hold the mod with the given acronym.
pub fn has_mod(mods: &GameMods, acronym: &str) -> (found: bool)
    ensures
        is_plain(acronym@) ==> found == holds_mod(*mods, acronym@),
{
    contains_acronym(mods, acronym)
}

/// Whether long notes give a single judgement: on a stable play without ScoreV2, or with
/// the classic mod. A play counts as lazer unless it says otherwise.
pub open spec fn classic(lazer: Option<bool>, mods: GameMods) -> bool {
    let stable = lazer == Some(false);
    (stable && !mod_acronyms(mods).contains(seq!['S', 'V', '2'])) || mod_acronyms(mods).contains(
        seq!['C', 'L'],
    )
}

/// Whether the score is a classic play: long notes give a single judgement, and the
/// difficulty weights use the head-only density.
pub fn is_classic(lazer: Option<bool>, mods: &GameMods) -> (answer: bool)
    ensures
        answer == classic(lazer, *mods),
{
    let lazer: bool = match lazer {
        Some(lazer) => lazer,
        None => true,
    };
    proof {
        reveal_strlit("SV2");
        reveal_strlit("CL");
        assert("SV2"@.map_values(|c: char| upper(c)) =~= seq!['S', 'V', '2']);
        assert("CL"@.map_values(|c: char| upper(c)) =~= seq!['C', 'L']);
        assert(seq!['S', 'V', '2'].len() != seq!['N', 'M'].len());
        assert(seq!['C', 'L'][0] != seq!['N', 'M'][0]);
    }
    let sv2: bool = has_mod(mods, "SV2");
    let cl: bool = has_mod(mods, "CL");
    (!lazer && !sv2) || cl
}

/// The mods that change how a score is graded or valued.
#[derive(Clone, Copy, Debug, PartialEq, Eq, Structural)]
pub struct ScoringMods {
    pub hard_rock: bool,
    pub easy: bool,
    pub no_fail: bool,
}

/// Which of the mods that change how a score is graded or valued are on.
pub open spec fn scoring_mods_of(mods: GameMods) -> ScoringMods {
    ScoringMods {
        hard_rock: mod_acronyms(mods).contains(seq!['H', 'R']),
        easy: mod_acronyms(mods).contains(seq!['E', 'Z']),
        no_fail: mod_acronyms(mods).contains(seq!['N', 'F']),
    }
}

/// Which of the mods that change how a score is graded or valued are on.
pub fn scoring_mods(mods: &GameMods) -> (found: ScoringMods)
    ensures
        found == scoring_mods_of(*mods),
{
    proof {
        reveal_strlit("HR");
        reveal_strlit("EZ");
        reveal_strlit("NF");
        assert("HR"@.map_values(|c: char| upper(c)) =~= seq!['H', 'R']);
        assert("EZ"@.map_values(|c: char| upper(c)) =~= seq!['E', 'Z']);
        assert("NF"@.map_values(|c: char| upper(c)) =~= seq!['N', 'F']);
        assert(seq!['H', 'R'][0] != seq!['N', 'M'][0]);
        assert(seq!['E', 'Z'][0] != seq!['N', 'M'][0]);
        assert(seq!['N', 'F'][1] != seq!['N', 'M'][1]);
    }
    ScoringMods {
        hard_rock: has_mod(mods, "HR"),
        easy: has_mod(mods, "EZ"),
        no_fail: has_mod(mods, "NF"),
    }
}

/// The mods that a score is valued with: those attached to its attributes, else those
/// given for the calculation.
pub open spec fn mods_to_value(attached: GameMods, given: GameMods) -> GameMods {
    if mod_acronyms(attached) == Set::<Seq<char>>::empty() {
        given
    } else {
        attached
    }
}

/// The mods that a score is valued with: those attached to its attributes, else those
/// given for the calculation.
pub fn effective_mods<'a>(attached: &'a GameMods, given: &'a GameMods) -> (mods: &'a GameMods)
    ensures
        *mods == mods_to_value(*attached, *given),
{
    if is_empty(attached) {
        given
    } else {
        attached
    }
}

/// A play with the classic mod is a classic one, and so is every stable play without ScoreV2;
/// no other play is, whatever other mods it has.
pub proof fn classic_plays(lazer: Option<bool>, mods: GameMods)
    ensures
        mod_acronyms(mods).contains(seq!['C', 'L']) ==> classic(lazer, mods),
        !mod_acronyms(mods).contains(seq!['C', 'L']) ==> {
            &&& lazer is None ==> !classic(lazer, mods)
            &&& lazer == Some(true) ==> !classic(lazer, mods)
            &&& lazer == Some(false) ==> classic(lazer, mods) != mod_acronyms(mods).contains(
                seq!['S', 'V', '2'],
            )
        },
{
}

/// The mods that count in a score are those that the mods hold, in whichever case they are
/// asked for; and hard rock, else easy, changes the windows.
pub proof fn scoring_mods_are_held(mods: GameMods)
    ensures
        scoring_mods_of(mods).hard_rock == holds_mod(mods, seq!['H', 'R']),
        scoring_mods_of(mods).easy == holds_mod(mods, seq!['E', 'Z']),
        scoring_mods_of(mods).no_fail == holds_mod(mods, seq!['N', 'F']),
        holds_mod(mods, seq!['h', 'r']) == holds_mod(mods, seq!['H', 'R']),
        holds_mod(mods, seq!['N', 'M']) <==> mod_acronyms(mods) == Set::<Seq<char>>::empty()
            || mod_acronyms(mods).contains(seq!['N', 'M']),
        window_change_of(mods) == WindowChange::Narrowed <==> holds_mod(mods, seq!['H', 'R']),
        window_change_of(mods) == WindowChange::Widened <==> holds_mod(mods, seq!['E', 'Z'])
            && !holds_mod(mods, seq!['H', 'R']),
{
    assert(seq!['H', 'R'].map_values(|c: char| upper(c)) =~= seq!['H', 'R']);
    assert(seq!['h', 'r'].map_values(|c: char| upper(c)) =~= seq!['H', 'R']);
    assert(seq!['E', 'Z'].map_values(|c: char| upper(c)) =~= seq!['E', 'Z']);
    assert(seq!['N', 'F'].map_values(|c: char| upper(c)) =~= seq!['N', 'F']);
    assert(seq!['N', 'M'].map_values(|c: char| upper(c)) =~= seq!['N', 'M']);
    assert(seq!['H', 'R'][0] != seq!['N', 'M'][0]);
    assert(seq!['E', 'Z'][0] != seq!['N', 'M'][0]);
    assert(seq!['N', 'F'][1] != seq!['N', 'M'][1]);
}

/// Mods that are attached are valued, whatever is given; and what is given is valued where
/// nothing is attached.
pub proof fn attached_mods_go_first(attached: GameMods, given: GameMods, other: GameMods)
    ensures
        mods_to_value(attached, given) == attached || mods_to_value(attached, given) == given,
        (exists|acronym: Seq<char>| mod_acronyms(attached).contains(acronym)) ==> mods_to_value(
            attached,
            given,
        ) == attached && mods_to_value(attached, other) == attached,
        (forall|acronym: Seq<char>| !mod_acronyms(attached).contains(acronym)) ==> mods_to_value(
            attached,
            given,
        ) == given,
{
    if forall|acronym: Seq<char>| !mod_acronyms(attached).contains(acronym) {
        assert(mod_acronyms(attached) =~= Set::<Seq<char>>::empty());
    }
}

/// A clock rate that is given is the clock rate, whatever the mods; without one the mods
/// decide, and if they ask for none it is 1.
pub proof fn given_rates_go_first(custom: Option<Binary64>, mods: GameMods)
    ensures
        custom matches Some(rate) ==> clock_rate_of(custom, mods) == rate,
        custom is None ==> {
            &&& mods_clock_rate(mods) is None ==> clock_rate_of(custom, mods).bits
                == 0x3ff0_0000_0000_0000
            &&& mods_clock_rate(mods) matches Some(bits) ==> clock_rate_of(custom, mods).bits == bits
        },
{
}

/// A rate is the one that there is, whatever it is, and 1 if there is none.
pub proof fn missing_rates_are_normal(bits: u64)
    ensures
        rate_with(Some(bits)).bits == bits,
        rate_with(None).bits == 0x3ff0_0000_0000_0000,
{
}

} // verus!
