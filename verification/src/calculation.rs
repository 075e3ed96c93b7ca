//! The result of a difficulty calculation, put together.

use crate::attributes::{attributes_wf, bucket_total, SunnyManiaDifficultyAttributes};
use crate::binary64::Binary64;
use crate::codec::holds_windows;
use crate::conversion::capped;
use crate::holds::{every_hold_is_counted, held_in, ln_duration_histogram};
use crate::mods::{
    classic, is_classic, mod_acronyms, no_mods_leave_the_windows, window_change_for,
    window_change_of,
};
use crate::notes::{is_long, note_keys, same_data, Note};
use crate::objects::{is_prepared, note_of, passed, passed_notes, PreparedMap, TimedObject};
use crate::order::{arranged, is_stable_order};
use crate::surface::is_positive;
use crate::windows::{ManiaHitWindows, WindowChange};
use rosu_mods::GameMods;
use vstd::prelude::*;

verus! {

/// What the curves of a map rate it at, and its great hit window.
#[derive(Clone, Copy, Debug, PartialEq, Eq, Structural)]
pub struct Ratings {
    pub stars: Binary64,
    pub variety: Binary64,
    pub acc_scalar: Binary64,
    pub spikiness: Binary64,
    pub switches: Binary64,
    pub great_hit_window: Binary64,
}

/// Whether attributes count the notes of a map whose holds last for the given durations.
pub open spec fn counts_notes(
    attrs: SunnyManiaDifficultyAttributes,
    map: PreparedMap,
    durations: Seq<Binary64>,
) -> bool {
    &&& attrs.max_combo == map.max_combo
    &&& attrs.n_objects == map.data.notes.len()
    &&& attrs.n_long_notes == map.data.long_notes.len()
    &&& forall|b: int| 0 <= b < 8 ==> #[trigger] attrs.ln_duration_buckets[b] == held_in(durations, b)
}

/// The hit windows of a map, as mods leave or change them.
#[derive(Clone, Copy, Debug, PartialEq, Eq, Structural)]
pub struct WindowSet {
    pub unchanged: ManiaHitWindows,
    pub narrowed: ManiaHitWindows,
    pub widened: ManiaHitWindows,
}

impl WindowSet {
    pub open spec fn under(self, change: WindowChange) -> ManiaHitWindows {
        match change {
            WindowChange::Unchanged => self.unchanged,
            WindowChange::Narrowed => self.narrowed,
            WindowChange::Widened => self.widened,
        }
    }

    /// The windows under mods that change them so.
    pub fn changed(&self, change: WindowChange) -> (windows: ManiaHitWindows)
        ensures
            windows == self.under(change),
    {
        match change {
            WindowChange::Unchanged => self.unchanged,
            WindowChange::Narrowed => self.narrowed,
            WindowChange::Widened => self.widened,
        }
    }
}

/// What a calculation starts from besides the map: its ratings, its windows and the play.
pub struct Play {
    pub ratings: Ratings,
    pub windows: WindowSet,
    pub lazer: Option<bool>,
    pub mods: GameMods,
}

/// Whether attributes are those of a play on a map whose holds last for the given durations.
pub open spec fn is_calculated(
    attrs: SunnyManiaDifficultyAttributes,
    map: PreparedMap,
    durations: Seq<Binary64>,
    play: Play,
) -> bool {
    &&& counts_notes(attrs, map, durations)
    &&& attrs.stars == play.ratings.stars
    &&& attrs.variety == play.ratings.variety
    &&& attrs.acc_scalar == play.ratings.acc_scalar
    &&& attrs.spikiness == play.ratings.spikiness
    &&& attrs.switches == play.ratings.switches
    &&& attrs.great_hit_window == play.ratings.great_hit_window
    &&& attrs.hit_windows == play.windows.under(window_change_of(play.mods))
    &&& attrs.map_windows == play.windows.unchanged
    &&& attrs.note_difficulty_bins is None
    &&& attrs.input_state_bins is None
    &&& attrs.ln_judged_as_one == classic(play.lazer, play.mods)
}

/// The attributes of a play on a map. `durations` says how long each of its holds lasts.
pub fn difficulty_attributes(map: &PreparedMap, durations: &Vec<Binary64>, play: &Play) -> (attrs:
    SunnyManiaDifficultyAttributes)
    ensures
        is_calculated(attrs, *map, durations@, *play),
{
    let ratings: Ratings = play.ratings;
    SunnyManiaDifficultyAttributes {
        stars: ratings.stars,
        variety: ratings.variety,
        acc_scalar: ratings.acc_scalar,
        spikiness: ratings.spikiness,
        switches: ratings.switches,
        great_hit_window: ratings.great_hit_window,
        hit_windows: play.windows.changed(window_change_for(&play.mods)),
        map_windows: play.windows.unchanged,
        max_combo: map.max_combo,
        n_objects: map.data.notes.len(),
        n_long_notes: map.data.long_notes.len(),
        ln_duration_buckets: ln_duration_histogram(durations),
        note_difficulty_bins: None,
        input_state_bins: None,
        ln_judged_as_one: is_classic(play.lazer, &play.mods),
    }
}

/// How far two whole numbers are apart.
pub open spec fn distance(a: int, b: int) -> int {
    if a < b {
        b - a
    } else {
        a - b
    }
}

/// Whether no double is closer to a number of units.
pub open spec fn is_nearest(value: Binary64, exact: int) -> bool {
    &&& !value.is_nan()
    &&& forall|other: Binary64|
        !other.is_nan() ==> distance(value.units(), exact) <= #[trigger] distance(
            other.units(),
            exact,
        )
}

/// Whether `duration` is the difference of two times, rounded. Of an infinite difference it
/// has the sign.
pub open spec fn is_duration(duration: Binary64, head: Binary64, tail: Binary64) -> bool {
    if head.is_finite() && tail.is_finite() {
        is_nearest(duration, tail.units() - head.units())
    } else {
        head.lt(tail) ==> is_positive(duration)
    }
}

/// A hold that ends after it begins lasts for more than zero ms, however short it is.
pub proof fn holds_last(duration: Binary64, head: Binary64, tail: Binary64)
    requires
        head.lt(tail),
        is_duration(duration, head, tail),
    ensures
        is_positive(duration),
{
    if head.is_finite() && tail.is_finite() {
        let exact = tail.units() - head.units();
        let least = Binary64 { bits: 1 };
        assert(least.units() == 1);
        assert(distance(duration.units(), exact) <= distance(least.units(), exact));
    }
}

/// A hit object with a tail ends after it begins, as its tail has to end after a moment no
/// earlier than its head.
proof fn lemma_tail_after_head(
    map: PreparedMap,
    objects: Seq<TimedObject>,
    passed_objects: Option<u32>,
    total_columns: usize,
    i: int,
)
    requires
        is_prepared(map, objects, passed_objects, total_columns),
        forall|k: int|
            0 <= k < objects.len() ==> (#[trigger] objects[k]).tail_after.is_nan()
                || objects[k].head.le(objects[k].tail_after),
        0 <= i < map.data.long_notes.len(),
    ensures
        map.data.long_notes[i].head.lt(map.data.long_notes[i].end()),
{
    let taken = passed(objects, passed_objects);
    let notes = passed_notes(objects, passed_objects, total_columns);
    let all = map.data.notes@;
    let note = map.data.long_notes[i];
    lemma_filter_keeps(all, is_long());
    assert(map.data.long_notes@ == all.filter(is_long()));
    assert(all.contains(all.filter(is_long())[i]) && note.tail is Some);
    let k = choose|k: int| 0 <= k < all.len() && all[k] == note;
    let order = choose|order: Seq<usize>|
        #[trigger] is_stable_order(note_keys(notes), order) && all == arranged(notes, order);
    assert(order[k] < notes.len());
    assert(note == notes[order[k] as int]);
    let object = taken[order[k] as int];
    assert(note == note_of(object, total_columns));
    assert(object == objects[order[k] as int]);
}

proof fn lemma_filter_keeps(notes: Seq<Note>, pick: spec_fn(Note) -> bool)
    ensures
        notes.filter(pick).len() <= notes.len(),
        forall|i: int|
            0 <= i < notes.filter(pick).len() ==> notes.contains(#[trigger] notes.filter(pick)[i])
                && pick(notes.filter(pick)[i]),
    decreases notes.len(),
{
    reveal(Seq::filter);
    if notes.len() > 0 {
        let rest = notes.drop_last();
        lemma_filter_keeps(rest, pick);
        let kept = rest.filter(pick);
        let all = notes.filter(pick);
        assert forall|i: int| 0 <= i < all.len() implies notes.contains(#[trigger] all[i]) && pick(
            all[i],
        ) by {
            if i < kept.len() {
                assert(rest.contains(kept[i]));
                let k = choose|k: int| 0 <= k < rest.len() && rest[k] == kept[i];
                assert(notes[k] == all[i]);
            } else {
                assert(notes[notes.len() - 1] == all[i]);
            }
        }
    }
}

/// What holds of the attributes of every play. They count each passed object once and no more
/// holds than objects, and the duration histogram counts each hold once. Holds give a single
/// judgement exactly on a classic play, and without mods the windows are the map's own. With
/// positive windows the attributes are ones that survive caching.
pub proof fn attributes_describe_the_play(
    objects: Seq<TimedObject>,
    passed_objects: Option<u32>,
    total_columns: usize,
    map: PreparedMap,
    durations: Seq<Binary64>,
    play: Play,
    attrs: SunnyManiaDifficultyAttributes,
)
    requires
        is_prepared(map, objects, passed_objects, total_columns),
        forall|i: int|
            0 <= i < objects.len() ==> (#[trigger] objects[i]).tail_after.is_nan()
                || objects[i].head.le(objects[i].tail_after),
        durations.len() == map.data.long_notes.len(),
        forall|i: int|
            0 <= i < durations.len() ==> is_duration(
                #[trigger] durations[i],
                map.data.long_notes[i].head,
                map.data.long_notes[i].end(),
            ),
        is_calculated(attrs, map, durations, play),
    ensures
        attrs.n_objects == capped(
            objects.len(),
            match passed_objects {
                Some(n) => n as nat,
                None => u32::MAX as nat,
            },
        ),
        attrs.n_long_notes <= attrs.n_objects,
        bucket_total(attrs.ln_duration_buckets@) == attrs.n_long_notes,
        attrs.ln_judged_as_one == classic(play.lazer, play.mods),
        mod_acronyms(play.mods) == Set::<Seq<char>>::empty() ==> attrs.hit_windows
            == attrs.map_windows,
        holds_windows(attrs.hit_windows.listed()) && holds_windows(attrs.map_windows.listed())
            ==> attributes_wf(attrs),
{
    let notes = passed_notes(objects, passed_objects, total_columns);
    let order = choose|order: Seq<usize>|
        #[trigger] is_stable_order(note_keys(notes), order) && map.data.notes@ == arranged(
            notes,
            order,
        );
    assert(map.data.notes@.len() == notes.len());
    lemma_filter_keeps(map.data.notes@, is_long());
    assert forall|i: int| 0 <= i < durations.len() implies is_positive(#[trigger] durations[i]) by {
        lemma_tail_after_head(map, objects, passed_objects, total_columns, i);
        holds_last(
            durations[i],
            map.data.long_notes[i].head,
            map.data.long_notes[i].end(),
        );
    }
    every_hold_is_counted(durations);
    if mod_acronyms(play.mods) == Set::<Seq<char>>::empty() {
        no_mods_leave_the_windows(play.mods);
    }
    let buckets = attrs.ln_duration_buckets;
    assert(buckets[0] == held_in(durations, 0) && buckets[1] == held_in(durations, 1) && buckets[2]
        == held_in(durations, 2) && buckets[3] == held_in(durations, 3) && buckets[4] == held_in(
        durations,
        4,
    ) && buckets[5] == held_in(durations, 5) && buckets[6] == held_in(durations, 6) && buckets[7]
        == held_in(durations, 7));
}

/// Plays alike on maps with the same notes have the same attributes, field by field.
pub proof fn same_notes_have_the_same_attributes(
    a: SunnyManiaDifficultyAttributes,
    b: SunnyManiaDifficultyAttributes,
    map: PreparedMap,
    other: PreparedMap,
    durations: Seq<Binary64>,
    play: Play,
)
    requires
        same_data(map.data, other.data),
        map.max_combo == other.max_combo,
        is_calculated(a, map, durations, play),
        is_calculated(b, other, durations, play),
    ensures
        a == b,
{
    assert forall|i: int| 0 <= i < 8 implies a.ln_duration_buckets@[i]
        == b.ln_duration_buckets@[i] by {
        assert(a.ln_duration_buckets[i] == held_in(durations, i));
        assert(b.ln_duration_buckets[i] == held_in(durations, i));
    }
    assert(a.ln_duration_buckets@ =~= b.ln_duration_buckets@);
    assert(a.ln_duration_buckets =~= b.ln_duration_buckets);
}

/// Each rating of a play is the attribute of that name, whatever the others are; the map's own
/// windows are its windows without mods, and a score is graded against narrowed ones with hard
/// rock, else against widened ones with easy, else against the map's own.
pub proof fn ratings_and_windows_are_kept_apart(
    attrs: SunnyManiaDifficultyAttributes,
    map: PreparedMap,
    durations: Seq<Binary64>,
    play: Play,
)
    requires
        is_calculated(attrs, map, durations, play),
    ensures
        attrs.stars == play.ratings.stars,
        attrs.variety == play.ratings.variety,
        attrs.acc_scalar == play.ratings.acc_scalar,
        attrs.spikiness == play.ratings.spikiness,
        attrs.switches == play.ratings.switches,
        attrs.great_hit_window == play.ratings.great_hit_window,
        attrs.map_windows == play.windows.unchanged,
        mod_acronyms(play.mods).contains(seq!['H', 'R']) ==> attrs.hit_windows
            == play.windows.narrowed,
        !mod_acronyms(play.mods).contains(seq!['H', 'R']) && mod_acronyms(play.mods).contains(
            seq!['E', 'Z'],
        ) ==> attrs.hit_windows == play.windows.widened,
        !mod_acronyms(play.mods).contains(seq!['H', 'R']) && !mod_acronyms(play.mods).contains(
            seq!['E', 'Z'],
        ) ==> attrs.hit_windows == play.windows.unchanged,
        attrs.max_combo == map.max_combo,
        attrs.n_objects == map.data.notes@.len(),
        attrs.n_long_notes == map.data.long_notes@.len(),
        forall|bin: int|
            0 <= bin < 8 ==> #[trigger] attrs.ln_duration_buckets[bin] == held_in(durations, bin),
        attrs.note_difficulty_bins is None && attrs.input_state_bins is None,
{
}

} // verus!
