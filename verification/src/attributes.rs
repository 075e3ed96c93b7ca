//! Difficulty attributes, and the form in which callers cache them.

use crate::binary64::{Binary64, FRACTION_SPAN};
use crate::codec::{
    buckets_round_trip, decode_ln_duration_buckets, decode_note_difficulty_bins, decode_windows,
    encode_ln_duration_buckets, encode_note_difficulty_bins, encode_windows, encodes_buckets,
    encodes_note_bins, holds_buckets, holds_note_bins, holds_windows, note_bin_at,
    note_bin_wf, note_bins_round_trip, windows_round_trip, NoteDifficultyBin,
};
use crate::holds::modal_ln_duration_histogram;
use crate::input_state::{
    bin_at, bin_wf, decode_input_state_bins, denotes, encode_input_state_bins, encodes_bins,
    holds_bins, input_state_bins_round_trip, InputStateBin,
};
use crate::mods::{classic, is_classic, mod_acronyms, no_mods};
use crate::windows::ManiaHitWindows;
use rosu_mods::GameMods;
use vstd::prelude::*;

verus! {

/// The result of a difficulty calculation.
#[derive(Clone)]
pub struct SunnyManiaDifficultyAttributes {
    pub stars: Binary64,
    pub variety: Binary64,
    pub acc_scalar: Binary64,
    pub spikiness: Binary64,
    pub switches: Binary64,
    pub great_hit_window: Binary64,
    /// The windows that the score will be graded against.
    pub hit_windows: ManiaHitWindows,
    /// The map's own windows.
    pub map_windows: ManiaHitWindows,
    pub max_combo: u32,
    pub n_objects: usize,
    pub n_long_notes: usize,
    /// The long notes by duration, shortest first.
    pub ln_duration_buckets: [usize; 8],
    pub note_difficulty_bins: Option<[NoteDifficultyBin; 16]>,
    pub input_state_bins: Option<[InputStateBin; 112]>,
    /// Whether long notes give a single judgement.
    pub ln_judged_as_one: bool,
}

/// The attributes as callers cache them. Lists of numbers survive the caching; the exact
/// copies and the mods behind them may not.
pub struct JsSunnyManiaDifficultyAttributes {
    pub stars: Binary64,
    pub variety: Binary64,
    pub acc_scalar: Binary64,
    pub spikiness: Binary64,
    pub switches: Binary64,
    pub great_hit_window: Binary64,
    pub max_combo: u32,
    pub n_objects: u32,
    pub n_long_notes: u32,
    pub input_state_bins: Vec<Binary64>,
    pub serialized_hit_windows: Vec<Binary64>,
    pub serialized_map_windows: Vec<Binary64>,
    pub serialized_ln_duration_buckets: Vec<Binary64>,
    pub serialized_note_difficulty_bins: Vec<Binary64>,
    pub ln_judged_as_one: Option<bool>,
    pub ln_duration_buckets: [usize; 8],
    pub mods: GameMods,
    pub hit_windows: ManiaHitWindows,
    pub map_windows: ManiaHitWindows,
}

/// The sum of eight counts.
pub open spec fn bucket_total(buckets: Seq<usize>) -> nat {
    (buckets[0] + buckets[1] + buckets[2] + buckets[3] + buckets[4] + buckets[5] + buckets[6]
        + buckets[7]) as nat
}

fn sum_of_buckets(buckets: &[usize; 8]) -> (total: u128)
    ensures
        total == bucket_total(buckets@),
{
    buckets[0] as u128 + buckets[1] as u128 + buckets[2] as u128 + buckets[3] as u128
        + buckets[4] as u128 + buckets[5] as u128 + buckets[6] as u128 + buckets[7] as u128
}

/// Whether the lists and numbers of `js` hold `attrs`: all that survives caching.
pub open spec fn caches(
    js: JsSunnyManiaDifficultyAttributes,
    attrs: SunnyManiaDifficultyAttributes,
) -> bool {
    &&& js.stars == attrs.stars
    &&& js.variety == attrs.variety
    &&& js.acc_scalar == attrs.acc_scalar
    &&& js.spikiness == attrs.spikiness
    &&& js.switches == attrs.switches
    &&& js.great_hit_window == attrs.great_hit_window
    &&& js.max_combo == attrs.max_combo
    &&& js.n_objects == attrs.n_objects as u32
    &&& js.n_long_notes == attrs.n_long_notes as u32
    &&& js.serialized_hit_windows@ == attrs.hit_windows.listed()
    &&& js.serialized_map_windows@ == attrs.map_windows.listed()
    &&& encodes_buckets(js.serialized_ln_duration_buckets@, attrs.ln_duration_buckets@)
    &&& match attrs.note_difficulty_bins {
        Some(bins) => encodes_note_bins(js.serialized_note_difficulty_bins@, bins@),
        None => js.serialized_note_difficulty_bins@.len() == 0,
    }
    &&& match attrs.input_state_bins {
        Some(bins) => encodes_bins(js.input_state_bins@, bins@),
        None => js.input_state_bins@.len() == 0,
    }
    &&& js.ln_judged_as_one == Some(attrs.ln_judged_as_one)
}

impl JsSunnyManiaDifficultyAttributes {
    /// The attributes in the form that callers cache, without mods.
    pub fn from(attrs: &SunnyManiaDifficultyAttributes) -> (js: JsSunnyManiaDifficultyAttributes)
        ensures
            caches(js, *attrs),
            js.ln_duration_buckets == attrs.ln_duration_buckets,
            mod_acronyms(js.mods) == Set::<Seq<char>>::empty(),
            js.hit_windows == attrs.hit_windows,
            js.map_windows == attrs.map_windows,
    {
        let input_state_bins: Vec<Binary64> = match &attrs.input_state_bins {
            Some(bins) => encode_input_state_bins(Some(bins)),
            None => encode_input_state_bins(None),
        };
        let note_difficulty_bins: Vec<Binary64> = match &attrs.note_difficulty_bins {
            Some(bins) => encode_note_difficulty_bins(Some(bins)),
            None => encode_note_difficulty_bins(None),
        };
        JsSunnyManiaDifficultyAttributes {
            stars: attrs.stars,
            variety: attrs.variety,
            acc_scalar: attrs.acc_scalar,
            spikiness: attrs.spikiness,
            switches: attrs.switches,
            great_hit_window: attrs.great_hit_window,
            max_combo: attrs.max_combo,
            n_objects: #[verifier::truncate] (attrs.n_objects as u32),
            n_long_notes: #[verifier::truncate] (attrs.n_long_notes as u32),
            input_state_bins,
            serialized_hit_windows: encode_windows(attrs.hit_windows),
            serialized_map_windows: encode_windows(attrs.map_windows),
            serialized_ln_duration_buckets: encode_ln_duration_buckets(attrs.ln_duration_buckets),
            serialized_note_difficulty_bins: note_difficulty_bins,
            ln_judged_as_one: Some(attrs.ln_judged_as_one),
            ln_duration_buckets: attrs.ln_duration_buckets,
            mods: no_mods(),
            hit_windows: attrs.hit_windows,
            map_windows: attrs.map_windows,
        }
    }
}

fn copied(values: &Vec<Binary64>) -> (copy: Vec<Binary64>)
    ensures
        copy@ == values@,
{
    let mut copy: Vec<Binary64> = Vec::with_capacity(values.len());
    let mut i: usize = 0;
    while i < values.len()
        invariant
            i <= values.len(),
            copy@ == values@.take(i as int),
        decreases values.len() - i,
    {
        copy.push(values[i]);
        assert(values@.take(i + 1) =~= values@.take(i as int).push(values@[i as int]));
        i = i + 1;
    }
    assert(values@.take(i as int) =~= values@);
    copy
}

impl JsSunnyManiaDifficultyAttributes {
    pub fn input_state_bins(&self) -> (list: Vec<Binary64>)
        ensures
            list@ == self.input_state_bins@,
    {
        copied(&self.input_state_bins)
    }

    pub fn hit_windows(&self) -> (list: Vec<Binary64>)
        ensures
            list@ == self.serialized_hit_windows@,
    {
        copied(&self.serialized_hit_windows)
    }

    pub fn map_windows(&self) -> (list: Vec<Binary64>)
        ensures
            list@ == self.serialized_map_windows@,
    {
        copied(&self.serialized_map_windows)
    }

    pub fn ln_duration_buckets(&self) -> (list: Vec<Binary64>)
        ensures
            list@ == self.serialized_ln_duration_buckets@,
    {
        copied(&self.serialized_ln_duration_buckets)
    }

    pub fn note_difficulty_bins(&self) -> (list: Vec<Binary64>)
        ensures
            list@ == self.serialized_note_difficulty_bins@,
    {
        copied(&self.serialized_note_difficulty_bins)
    }

    pub fn ln_judged_as_one(&self) -> (answer: Option<bool>)
        ensures
            answer == self.ln_judged_as_one,
    {
        self.ln_judged_as_one
    }
}

/// Whether `windows` are those that a list holds; else the exact copy, if there is one;
/// else the fallback.
pub open spec fn are_windows(
    encoded: Seq<Binary64>,
    copy: ManiaHitWindows,
    fallback: ManiaHitWindows,
    windows: ManiaHitWindows,
) -> bool {
    if holds_windows(encoded) {
        windows.listed() == encoded
    } else if copy.is_unset() {
        windows == fallback
    } else {
        windows == copy
    }
}

fn recover_windows(encoded: &Vec<Binary64>, copy: ManiaHitWindows, fallback: ManiaHitWindows) -> (windows:
    ManiaHitWindows)
    ensures
        are_windows(encoded@, copy, fallback, windows),
{
    match decode_windows(encoded.as_slice()) {
        Some(windows) => windows,
        None => {
            if copy.unset_windows() {
                fallback
            } else {
                copy
            }
        },
    }
}

/// The counts in a list of eight numbers.
pub open spec fn counts_in(encoded: Seq<Binary64>) -> Seq<usize> {
    Seq::new(8, |i: int| encoded[i].saturated(usize::MAX as nat) as usize)
}

/// The long notes by duration: those that a list holds, if they add up to the number of
/// long notes; else the exact copy, if it holds any; else all at the median duration.
pub open spec fn buckets_of(encoded: Seq<Binary64>, copy: Seq<usize>, n_long_notes: u32) -> Seq<
    usize,
> {
    if holds_buckets(encoded) && bucket_total(counts_in(encoded)) == n_long_notes {
        counts_in(encoded)
    } else if bucket_total(copy) > 0 {
        copy
    } else {
        seq![0, 0, 0, n_long_notes as usize, 0, 0, 0, 0]
    }
}

fn recover_buckets(encoded: &Vec<Binary64>, copy: [usize; 8], n_long_notes: u32) -> (buckets: [usize;
    8])
    ensures
        buckets@ == buckets_of(encoded@, copy@, n_long_notes),
{
    if let Some(buckets) = decode_ln_duration_buckets(encoded.as_slice()) {
        assert(buckets@ =~= counts_in(encoded@));
        if sum_of_buckets(&buckets) == n_long_notes as u128 {
            return buckets;
        }
    }
    if sum_of_buckets(&copy) > 0 {
        copy
    } else {
        modal_ln_duration_histogram(n_long_notes as usize)
    }
}

/// Whether `bins` are those that a list holds, or none.
pub open spec fn are_note_bins(
    encoded: Seq<Binary64>,
    bins: Option<[NoteDifficultyBin; 16]>,
) -> bool {
    &&& bins is Some <==> holds_note_bins(encoded)
    &&& bins matches Some(bins) ==> forall|i: int|
        0 <= i < 16 ==> #[trigger] bins[i] == note_bin_at(encoded, i)
}

/// Whether `bins` are those that a list holds, or none.
pub open spec fn are_input_bins(encoded: Seq<Binary64>, bins: Option<[InputStateBin; 112]>) -> bool {
    &&& bins is Some <==> holds_bins(encoded)
    &&& bins matches Some(bins) ==> forall|i: int|
        0 <= i < 112 ==> #[trigger] bins[i] == bin_at(encoded, denotes(encoded[0], 1), i)
}

/// Whether `attrs` are what cached attributes stand for. The mods decide how long notes
/// are judged where the cache does not say; the fallbacks are the windows where it holds
/// none.
pub open spec fn reconstructs(
    js: JsSunnyManiaDifficultyAttributes,
    mods: GameMods,
    hit_fallback: ManiaHitWindows,
    map_fallback: ManiaHitWindows,
    attrs: SunnyManiaDifficultyAttributes,
) -> bool {
    &&& attrs.stars == js.stars
    &&& attrs.variety == js.variety
    &&& attrs.acc_scalar == js.acc_scalar
    &&& attrs.spikiness == js.spikiness
    &&& attrs.switches == js.switches
    &&& attrs.great_hit_window == js.great_hit_window
    &&& are_windows(js.serialized_hit_windows@, js.hit_windows, hit_fallback, attrs.hit_windows)
    &&& are_windows(js.serialized_map_windows@, js.map_windows, map_fallback, attrs.map_windows)
    &&& attrs.max_combo == js.max_combo
    &&& attrs.n_objects == js.n_objects
    &&& attrs.n_long_notes == js.n_long_notes
    &&& attrs.ln_duration_buckets@ == buckets_of(
        js.serialized_ln_duration_buckets@,
        js.ln_duration_buckets@,
        js.n_long_notes,
    )
    &&& are_note_bins(js.serialized_note_difficulty_bins@, attrs.note_difficulty_bins)
    &&& are_input_bins(js.input_state_bins@, attrs.input_state_bins)
    &&& attrs.ln_judged_as_one == match js.ln_judged_as_one {
        Some(answer) => answer,
        None => classic(None, mods),
    }
}

/// The attributes that cached ones stand for.
///
/// Attributes cached by this version hold exact values. Older ones hold less: `hit_fallback`
/// and `map_fallback` are the windows that follow from their great hit window.
pub fn reconstruct_attributes(
    js: &JsSunnyManiaDifficultyAttributes,
    mods: &GameMods,
    hit_fallback: ManiaHitWindows,
    map_fallback: ManiaHitWindows,
) -> (attrs: SunnyManiaDifficultyAttributes)
    ensures
        reconstructs(*js, *mods, hit_fallback, map_fallback, attrs),
{
    let ln_judged_as_one: bool = match js.ln_judged_as_one {
        Some(answer) => answer,
        None => is_classic(None, mods),
    };
    SunnyManiaDifficultyAttributes {
        stars: js.stars,
        variety: js.variety,
        acc_scalar: js.acc_scalar,
        spikiness: js.spikiness,
        switches: js.switches,
        great_hit_window: js.great_hit_window,
        hit_windows: recover_windows(&js.serialized_hit_windows, js.hit_windows, hit_fallback),
        map_windows: recover_windows(&js.serialized_map_windows, js.map_windows, map_fallback),
        max_combo: js.max_combo,
        n_objects: js.n_objects as usize,
        n_long_notes: js.n_long_notes as usize,
        ln_duration_buckets: recover_buckets(
            &js.serialized_ln_duration_buckets,
            js.ln_duration_buckets,
            js.n_long_notes,
        ),
        note_difficulty_bins: decode_note_difficulty_bins(
            js.serialized_note_difficulty_bins.as_slice(),
        ),
        input_state_bins: decode_input_state_bins(js.input_state_bins.as_slice()),
        ln_judged_as_one,
    }
}

/// Whether attributes are ones that a calculation makes: there are at most as many notes
/// as a play can have, windows are positive, the
/// duration histogram counts every long note, and the bins can be written.
pub open spec fn attributes_wf(attrs: SunnyManiaDifficultyAttributes) -> bool {
    &&& attrs.n_objects <= u32::MAX
    &&& attrs.n_long_notes <= u32::MAX
    &&& holds_windows(attrs.hit_windows.listed())
    &&& holds_windows(attrs.map_windows.listed())
    &&& bucket_total(attrs.ln_duration_buckets@) == attrs.n_long_notes
    &&& attrs.note_difficulty_bins matches Some(bins) ==> forall|i: int|
        0 <= i < 16 ==> note_bin_wf(#[trigger] bins[i])
    &&& attrs.input_state_bins matches Some(bins) ==> forall|i: int|
        0 <= i < 112 ==> bin_wf(#[trigger] bins[i], i)
}

/// Attributes survive caching: what the cached form stands for is what was cached, even
/// where the exact copies and the mods were lost.
pub proof fn cached_attributes_are_kept(
    attrs: SunnyManiaDifficultyAttributes,
    js: JsSunnyManiaDifficultyAttributes,
    mods: GameMods,
    hit_fallback: ManiaHitWindows,
    map_fallback: ManiaHitWindows,
    restored: SunnyManiaDifficultyAttributes,
)
    requires
        attributes_wf(attrs),
        caches(js, attrs),
        reconstructs(js, mods, hit_fallback, map_fallback, restored),
    ensures
        restored == attrs,
{
    windows_round_trip(restored.hit_windows, attrs.hit_windows);
    windows_round_trip(restored.map_windows, attrs.map_windows);
    let encoded = js.serialized_ln_duration_buckets@;
    let buckets = attrs.ln_duration_buckets@;
    assert forall|i: int| 0 <= i < 8 implies (#[trigger] buckets[i]) <= 2 * FRACTION_SPAN by {
        assert(buckets[0] >= 0 && buckets[1] >= 0 && buckets[2] >= 0 && buckets[3] >= 0
            && buckets[4] >= 0 && buckets[5] >= 0 && buckets[6] >= 0 && buckets[7] >= 0);
        assert(i == 0 || i == 1 || i == 2 || i == 3 || i == 4 || i == 5 || i == 6 || i == 7);
        assert(buckets[i] <= bucket_total(buckets));
    }
    buckets_round_trip(encoded, buckets);
    assert(counts_in(encoded) =~= buckets);
    assert(restored.ln_duration_buckets@ =~= attrs.ln_duration_buckets@);
    assert(restored.ln_duration_buckets =~= attrs.ln_duration_buckets);
    if let Some(bins) = attrs.note_difficulty_bins {
        note_bins_round_trip(js.serialized_note_difficulty_bins@, bins@);
        let back = restored.note_difficulty_bins->0;
        assert forall|i: int| 0 <= i < 16 implies #[trigger] back@[i] == bins@[i] by {
            assert(back[i] == note_bin_at(js.serialized_note_difficulty_bins@, i));
            assert(note_bin_at(js.serialized_note_difficulty_bins@, i) == bins@[i]);
        }
        assert(back@ =~= bins@);
        assert(back =~= bins);
    }
    if let Some(bins) = attrs.input_state_bins {
        input_state_bins_round_trip(js.input_state_bins@, bins@);
        let back = restored.input_state_bins->0;
        assert forall|i: int| 0 <= i < 112 implies #[trigger] back@[i] == bins@[i] by {
            assert(back[i] == bin_at(js.input_state_bins@, false, i));
            assert(bin_at(js.input_state_bins@, false, i) == bins@[i]);
        }
        assert(back@ =~= bins@);
        assert(back =~= bins);
    }
}

/// Every attribute is cached under its own name, and the windows by judgement.
pub proof fn attributes_are_cached_apart(
    attrs: SunnyManiaDifficultyAttributes,
    js: JsSunnyManiaDifficultyAttributes,
)
    requires
        caches(js, attrs),
    ensures
        js.stars == attrs.stars,
        js.variety == attrs.variety,
        js.acc_scalar == attrs.acc_scalar,
        js.spikiness == attrs.spikiness,
        js.switches == attrs.switches,
        js.great_hit_window == attrs.great_hit_window,
        js.max_combo == attrs.max_combo,
        attrs.n_objects <= u32::MAX ==> js.n_objects == attrs.n_objects,
        attrs.n_long_notes <= u32::MAX ==> js.n_long_notes == attrs.n_long_notes,
        js.serialized_hit_windows@ == seq![
            attrs.hit_windows.perfect,
            attrs.hit_windows.great,
            attrs.hit_windows.good,
            attrs.hit_windows.ok,
            attrs.hit_windows.meh,
            attrs.hit_windows.miss,
        ],
        js.serialized_map_windows@ == seq![
            attrs.map_windows.perfect,
            attrs.map_windows.great,
            attrs.map_windows.good,
            attrs.map_windows.ok,
            attrs.map_windows.meh,
            attrs.map_windows.miss,
        ],
        js.ln_judged_as_one == Some(attrs.ln_judged_as_one),
        attrs.note_difficulty_bins is None ==> js.serialized_note_difficulty_bins@.len() == 0,
        attrs.note_difficulty_bins is Some ==> js.serialized_note_difficulty_bins@.len() == 64,
        attrs.input_state_bins is None ==> js.input_state_bins@.len() == 0,
        attrs.input_state_bins is Some ==> js.input_state_bins@.len() == 1121,
{
}

/// What cached attributes stand for depends on the mods and the fallbacks only where the cache
/// does not tell: a cached answer goes before the mods, six cached windows before any copy, a
/// copy that is set before the fallback.
pub proof fn the_cache_goes_before_the_fallbacks(
    js: JsSunnyManiaDifficultyAttributes,
    mods: GameMods,
    hit_fallback: ManiaHitWindows,
    map_fallback: ManiaHitWindows,
    attrs: SunnyManiaDifficultyAttributes,
)
    requires
        reconstructs(js, mods, hit_fallback, map_fallback, attrs),
    ensures
        js.ln_judged_as_one matches Some(answer) ==> attrs.ln_judged_as_one == answer,
        js.ln_judged_as_one is None ==> (attrs.ln_judged_as_one <==> mod_acronyms(mods).contains(
            seq!['C', 'L'],
        )),
        holds_windows(js.serialized_hit_windows@) ==> attrs.hit_windows.perfect
            == js.serialized_hit_windows@[0] && attrs.hit_windows.miss
            == js.serialized_hit_windows@[5],
        !holds_windows(js.serialized_hit_windows@) && !js.hit_windows.is_unset()
            ==> attrs.hit_windows == js.hit_windows,
        !holds_windows(js.serialized_hit_windows@) && js.hit_windows.is_unset()
            ==> attrs.hit_windows == hit_fallback,
        !holds_windows(js.serialized_map_windows@) && !js.map_windows.is_unset()
            ==> attrs.map_windows == js.map_windows,
        !holds_windows(js.serialized_map_windows@) && js.map_windows.is_unset()
            ==> attrs.map_windows == map_fallback,
        attrs.stars == js.stars,
        attrs.variety == js.variety,
        attrs.acc_scalar == js.acc_scalar,
        attrs.spikiness == js.spikiness,
        attrs.switches == js.switches,
        attrs.great_hit_window == js.great_hit_window,
        attrs.max_combo == js.max_combo,
        attrs.n_objects == js.n_objects,
        attrs.n_long_notes == js.n_long_notes,
{
    assert(attrs.hit_windows.listed()[0] == attrs.hit_windows.perfect);
    assert(attrs.hit_windows.listed()[5] == attrs.hit_windows.miss);
}

/// The duration histogram is the one in the list if that counts every long note, whatever the
/// copy holds; else the copy, if it counts any; else every long note is between 100 and 145 ms
/// long.
pub proof fn histograms_are_recovered(
    encoded: Seq<Binary64>,
    copy: Seq<usize>,
    n_long_notes: u32,
    i: int,
)
    requires
        copy.len() == 8,
        0 <= i < 8,
    ensures
        ({
            let buckets = buckets_of(encoded, copy, n_long_notes);
            let list = counts_in(encoded);
            let listed = list[0] + list[1] + list[2] + list[3] + list[4] + list[5] + list[6]
                + list[7];
            let copied = copy[0] + copy[1] + copy[2] + copy[3] + copy[4] + copy[5] + copy[6]
                + copy[7];
            &&& holds_buckets(encoded) && listed == n_long_notes ==> buckets[i]
                == encoded[i].saturated(usize::MAX as nat)
            &&& !(holds_buckets(encoded) && listed == n_long_notes) && copied > 0 ==> buckets == copy
            &&& !(holds_buckets(encoded) && listed == n_long_notes) && copied == 0 ==> buckets[i]
                == if i == 3 {
                n_long_notes as usize
            } else {
                0
            }
        }),
{
}

} // verus!
