//! From hit objects to notes.

use crate::binary64::{one_in_units, Binary64};
use crate::conversion::{
    capped, conversions_reach, conversions_round_down, even_rounding_goes_to_the_nearest,
};
use crate::notes::{
    data_is_settled_by_the_notes, in_range, is_long, lemma_filter_in_range, note_keys, same_data,
    Note, RebirthData,
};
use crate::order::{
    arranged, is_sorted_by, is_stable_order, picked, sorting_keeps_what_is_picked,
};
use vstd::prelude::*;

verus! {

/// What the calculation reads of a hit object. Times are in ms, at the played rate.
#[derive(Clone, Copy, Debug, PartialEq, Eq, Structural)]
pub struct TimedObject {
    /// The horizontal position in multiples of the width of a column.
    pub position: Binary64,
    /// When the object starts.
    pub head: Binary64,
    /// When the object ends.
    pub end: Binary64,
    /// An object has a tail if it ends later than this.
    pub tail_after: Binary64,
    /// How long a hold lasts at the map's own rate; none for any other object.
    pub hold: Option<Binary64>,
}

/// The column at a position, from 0 to `total_columns - 1`.
pub open spec fn column_at(position: Binary64, total_columns: usize) -> nat {
    if total_columns == 0 {
        0
    } else if position.is_nan() {
        (total_columns - 1) as nat
    } else {
        position.saturated((total_columns - 1) as nat)
    }
}

/// The column of a hit object whose horizontal position, in multiples of the width of
/// a column, is `position`.
pub fn column_for(position: Binary64, total_columns: usize) -> (column: usize)
    ensures
        column == column_at(position, total_columns),
        total_columns > 0 ==> column < total_columns,
{
    if total_columns == 0 {
        return 0;
    }
    if position.nan() {
        return total_columns - 1;
    }
    let column: usize = position.to_usize();
    if column < total_columns {
        column
    } else {
        total_columns - 1
    }
}

/// How much combo a hit object gives: one, and one more for every 100 ms of a hold.
pub open spec fn combo_of(object: TimedObject) -> nat {
    match object.hold {
        None => 1,
        Some(duration) => 1 + capped(duration.saturated(u64::MAX as nat) / 100, u32::MAX as nat),
    }
}

/// How much combo a hit object gives.
fn object_combo(object: TimedObject) -> (combo: u64)
    ensures
        combo == combo_of(object),
{
    match object.hold {
        None => 1,
        Some(duration) => {
            let ticks: u64 = duration.to_u64() / 100;
            1 + if ticks <= u32::MAX as u64 {
                ticks
            } else {
                u32::MAX as u64
            }
        },
    }
}

/// How much combo hit objects give together.
pub open spec fn combo_total(objects: Seq<TimedObject>) -> nat
    decreases objects.len(),
{
    if objects.len() == 0 {
        0
    } else {
        combo_total(objects.drop_last()) + combo_of(objects.last())
    }
}

/// The note that a hit object becomes.
pub open spec fn note_of(object: TimedObject, total_columns: usize) -> Note {
    Note {
        column: column_at(object.position, total_columns) as usize,
        head: object.head,
        tail: if object.tail_after.lt(object.end) {
            Some(object.end)
        } else {
            None
        },
    }
}

/// The objects that a play with `passed_objects` objects covers.
pub open spec fn passed(objects: Seq<TimedObject>, passed_objects: Option<u32>) -> Seq<TimedObject> {
    let limit: nat = match passed_objects {
        Some(n) => n as nat,
        None => u32::MAX as nat,
    };
    objects.take(capped(objects.len(), limit) as int)
}

proof fn lemma_combo_grows(objects: Seq<TimedObject>, n: int)
    requires
        0 <= n <= objects.len(),
    ensures
        combo_total(objects.take(n)) <= combo_total(objects),
    decreases objects.len() - n,
{
    if n < objects.len() {
        lemma_combo_grows(objects, n + 1);
        assert(objects.take(n + 1).drop_last() =~= objects.take(n));
    } else {
        assert(objects.take(n) =~= objects);
    }
}

/// Whether the max combo of the passed hit objects is in the range of `u32`.
pub fn combo_fits(objects: &Vec<TimedObject>, passed_objects: Option<u32>) -> (answer: bool)
    ensures
        answer == (combo_total(passed(objects@, passed_objects)) <= u32::MAX),
{
    let limit: u64 = match passed_objects {
        Some(n) => n as u64,
        None => u32::MAX as u64,
    };
    let count: usize = if objects.len() as u64 <= limit {
        objects.len()
    } else {
        limit as usize
    };
    let ghost taken = passed(objects@, passed_objects);
    let mut total: u64 = 0;
    let mut i: usize = 0;
    assert(taken.take(0) =~= Seq::<TimedObject>::empty());
    while i < count
        invariant
            i <= count,
            count == taken.len(),
            taken == objects@.take(count as int),
            count <= objects.len(),
            taken == passed(objects@, passed_objects),
            total == combo_total(taken.take(i as int)),
            total <= u32::MAX,
        decreases count - i,
    {
        let object: TimedObject = objects[i];
        proof {
            assert(taken.take(i + 1).drop_last() =~= taken.take(i as int));
            assert(taken.take(i + 1).last() == object);
            lemma_combo_grows(taken, i + 1);
        }
        total = total + object_combo(object);
        if total > u32::MAX as u64 {
            return false;
        }
        i = i + 1;
    }
    assert(taken.take(i as int) =~= taken);
    true
}

/// Converts the passed hit objects into notes. Also computes the max combo.
pub fn build_notes(
    objects: &Vec<TimedObject>,
    passed_objects: Option<u32>,
    total_columns: usize,
) -> (result: (Vec<Note>, u32))
    requires
        combo_total(passed(objects@, passed_objects)) <= u32::MAX,
    ensures
        result.0@ == passed(objects@, passed_objects).map_values(
            |object: TimedObject| note_of(object, total_columns),
        ),
        result.1 == combo_total(passed(objects@, passed_objects)),
{
    let limit: u64 = match passed_objects {
        Some(n) => n as u64,
        None => u32::MAX as u64,
    };
    let count: usize = if objects.len() as u64 <= limit {
        objects.len()
    } else {
        limit as usize
    };
    let ghost taken = passed(objects@, passed_objects);
    let mut notes: Vec<Note> = Vec::with_capacity(count);
    let mut max_combo: u32 = 0;
    let mut i: usize = 0;
    assert(taken.take(0) =~= Seq::<TimedObject>::empty());
    while i < count
        invariant
            i <= count,
            count == taken.len(),
            taken == objects@.take(count as int),
            count <= objects.len(),
            combo_total(taken) <= u32::MAX,
            notes.len() == i,
            forall|k: int| 0 <= k < i ==> notes[k] == note_of(taken[k], total_columns),
            max_combo == combo_total(taken.take(i as int)),
        decreases count - i,
    {
        let object: TimedObject = objects[i];
        proof {
            assert(taken.take(i + 1).drop_last() =~= taken.take(i as int));
            assert(taken.take(i + 1).last() == object);
            lemma_combo_grows(taken, i + 1);
        }
        max_combo = max_combo + object_combo(object) as u32;
        let tail: Option<Binary64> = if object.tail_after.less(object.end) {
            Some(object.end)
        } else {
            None
        };
        notes.push(Note { column: column_for(object.position, total_columns), head: object.head, tail });
        i = i + 1;
    }
    proof {
        assert(taken.take(i as int) =~= taken);
        assert(notes@ =~= taken.map_values(|object: TimedObject| note_of(object, total_columns)));
    }
    (notes, max_combo)
}

/// How many columns a map has whose circle size is `cs`: the nearest whole number, halves
/// to the even one, but at least one.
pub open spec fn columns_of(cs: Binary64) -> nat {
    if cs.nearest_even_within(u32::MAX as nat) < 1 {
        1
    } else {
        cs.nearest_even_within(u32::MAX as nat)
    }
}

/// How many columns a map has whose circle size is `cs`: the nearest whole number, halves
/// to the even one, but at least one.
pub fn column_count(cs: Binary64) -> (total: usize)
    ensures
        total == columns_of(cs),
        total >= 1,
{
    let rounded: u32 = cs.round_even_within(u32::MAX);
    if rounded < 1 {
        1
    } else {
        rounded as usize
    }
}

/// A map ready for the calculation.
pub struct PreparedMap {
    pub data: RebirthData,
    pub max_combo: u32,
}

/// The notes that the passed objects become.
pub open spec fn passed_notes(
    objects: Seq<TimedObject>,
    passed_objects: Option<u32>,
    total_columns: usize,
) -> Seq<Note> {
    passed(objects, passed_objects).map_values(|object: TimedObject| note_of(object, total_columns))
}

/// Whether a map is the one that the passed objects make.
pub open spec fn is_prepared(
    map: PreparedMap,
    objects: Seq<TimedObject>,
    passed_objects: Option<u32>,
    total_columns: usize,
) -> bool {
    let notes = passed_notes(objects, passed_objects, total_columns);
    &&& map.data.wf()
    &&& map.data.total_columns == total_columns
    &&& is_sorted_by(map.data.notes@, notes, note_keys(notes))
    &&& in_range(map.data.notes@, total_columns)
    &&& in_range(map.data.long_notes@, total_columns)
    &&& map.max_combo == combo_total(passed(objects, passed_objects))
}

/// Whether a play covers enough for the calculation: two objects, in a column at least.
pub open spec fn is_enough(
    objects: Seq<TimedObject>,
    passed_objects: Option<u32>,
    total_columns: usize,
) -> bool {
    passed(objects, passed_objects).len() >= 2 && total_columns > 0
}

/// Makes a map ready for the calculation. A map with fewer than two notes cannot be
/// calculated, nor one without columns.
pub fn prepare(
    objects: &Vec<TimedObject>,
    passed_objects: Option<u32>,
    total_columns: usize,
) -> (prepared: Option<PreparedMap>)
    requires
        combo_total(passed(objects@, passed_objects)) <= u32::MAX,
    ensures
        prepared is Some <==> is_enough(objects@, passed_objects, total_columns),
        prepared matches Some(map) ==> is_prepared(
            map,
            objects@,
            passed_objects,
            total_columns,
        ),
{
    let (notes, max_combo): (Vec<Note>, u32) = build_notes(objects, passed_objects, total_columns);
    if notes.len() < 2 || total_columns == 0 {
        return None;
    }
    let data: RebirthData = RebirthData::new(&notes, total_columns);
    proof {
        assert(notes@ =~= passed_notes(objects@, passed_objects, total_columns));
        let order = choose|order: Seq<usize>|
            #[trigger] is_stable_order(note_keys(notes@), order) && data.notes@ == arranged(
                notes@,
                order,
            );
        assert forall|i: int| 0 <= i < data.notes@.len() implies (#[trigger] data.notes@[i]).column
            < total_columns by {
            assert(order[i] < notes@.len());
            assert(data.notes@[i] == notes@[order[i] as int]);
        }
        lemma_filter_in_range(data.notes@, is_long(), total_columns);
    }
    Some(PreparedMap { data, max_combo })
}

/// A play that passes `n` objects covers those that the map cut to its first `n` objects has,
/// and one that passes as many as there are covers all: so whether a play can be prepared,
/// and whether its combo is in range, is the same.
pub proof fn a_cut_map_passes_the_same_objects(objects: Seq<TimedObject>, n: u32)
    ensures
        passed(objects.take(capped(objects.len(), n as nat) as int), None) == passed(
            objects,
            Some(n),
        ),
        n >= objects.len() ==> passed(objects, Some(n)) == passed(objects, None),
{
    let cut = objects.take(capped(objects.len(), n as nat) as int);
    assert(passed(cut, None) =~= passed(objects, Some(n)));
    if n >= objects.len() {
        assert(passed(objects, Some(n)) =~= passed(objects, None));
    }
}

/// A play that passes `n` objects is a play of the map cut to its first `n` objects: both are
/// prepared alike.
pub proof fn a_cut_map_is_prepared_alike(
    objects: Seq<TimedObject>,
    n: u32,
    total_columns: usize,
    map: PreparedMap,
    cut_map: PreparedMap,
)
    requires
        is_prepared(map, objects, Some(n), total_columns),
        is_prepared(
            cut_map,
            objects.take(capped(objects.len(), n as nat) as int),
            None,
            total_columns,
        ),
    ensures
        same_data(map.data, cut_map.data),
        map.max_combo == cut_map.max_combo,
{
    a_cut_map_passes_the_same_objects(objects, n);
    data_is_settled_by_the_notes(
        map.data,
        cut_map.data,
        passed_notes(objects, Some(n), total_columns),
    );
}

/// A position from `k` on and below `k + 1` is in column `k`, however many columns there are.
/// What lies left of the first column is in the first, what lies right of the last in the
/// last, and so is a position that is no number.
pub proof fn positions_are_in_their_columns(position: Binary64, total_columns: usize, k: nat)
    ensures
        !position.is_nan() && k < total_columns && k * one_in_units() <= position.units() < (k + 1)
            * one_in_units() ==> column_at(position, total_columns) == k,
        !position.is_nan() && position.units() < 0 ==> column_at(position, total_columns) == 0,
        !position.is_nan() && total_columns > 0 && total_columns * one_in_units()
            <= position.units() ==> column_at(position, total_columns) == total_columns - 1,
        position.is_nan() && total_columns > 0 ==> column_at(position, total_columns)
            == total_columns - 1,
        total_columns == 0 ==> column_at(position, total_columns) == 0,
{
    let one = one_in_units();
    vstd::arithmetic::power2::lemma_pow2_pos(1074);
    if total_columns > 0 {
        let top = (total_columns - 1) as nat;
        conversions_round_down(position, top, k);
        assert(top * one <= total_columns * one) by (nonlinear_arith)
            requires
                top == total_columns - 1,
                one > 0,
        ;
    }
}

/// A map has `k` columns if its circle size is nearer to `k` than to any other whole number,
/// or half-way between `k` and another one and `k` is even; but it has at least one.
pub proof fn circle_sizes_count_columns(cs: Binary64, k: u32)
    ensures
        columns_of(cs) >= 1,
        cs.is_nan() || cs.is_negative() ==> columns_of(cs) == 1,
        k > 0 && !cs.is_nan() && !cs.is_negative() && (2 * k - 1) * one_in_units() < 2 * cs.units()
            < (2 * k + 1) * one_in_units() ==> columns_of(cs) == k,
        k > 0 && k % 2 == 0 && !cs.is_nan() && !cs.is_negative() && (2 * cs.units() == (2 * k - 1)
            * one_in_units() || 2 * cs.units() == (2 * k + 1) * one_in_units()) ==> columns_of(cs)
            == k,
{
    let one = one_in_units();
    vstd::arithmetic::power2::lemma_pow2_pos(1074);
    if k > 0 && !cs.is_nan() && !cs.is_negative() {
        assert((2 * k - 1) * one < (2 * k + 1) * one) by (nonlinear_arith)
            requires
                one > 0,
        ;
        if (2 * k - 1) * one <= 2 * cs.units() <= (2 * k + 1) * one && (k % 2 == 0 || (2 * k - 1)
            * one < 2 * cs.units() < (2 * k + 1) * one) {
            even_rounding_goes_to_the_nearest(cs, u32::MAX as nat, k as nat);
        }
    }
}

/// A hit object gives one combo and a hold one more for every 100 ms that it lasts: `1 + k`
/// or more exactly if it lasts for `k` times 100 ms.
pub proof fn holds_give_combo_every_100_ms(object: TimedObject, k: u32)
    ensures
        combo_of(object) >= 1,
        object.hold is None ==> combo_of(object) == 1,
        object.hold matches Some(duration) ==> {
            &&& k > 0 ==> (combo_of(object) >= 1 + k <==> !duration.is_nan() && duration.units()
                >= 100 * k * one_in_units())
            &&& combo_of(object) <= 1 + u32::MAX
        },
{
    if let Some(duration) = object.hold {
        if k > 0 {
            let most = u64::MAX as nat;
            conversions_reach(duration, most, (100 * k) as nat);
            let count = duration.saturated(most);
            assert(count / 100 >= k <==> count >= 100 * k);
        }
    }
}

/// The combo of a map is made up of that of its parts, wherever it is cut, and a single object
/// has its own.
pub proof fn combo_adds_up(a: Seq<TimedObject>, b: Seq<TimedObject>)
    ensures
        combo_total(a + b) == combo_total(a) + combo_total(b),
        a.len() == 0 ==> combo_total(a) == 0,
        a.len() == 1 ==> combo_total(a) == combo_of(a[0]),
    decreases b.len(),
{
    if a.len() == 1 {
        assert(a.drop_last() =~= Seq::empty());
        assert(combo_total(a.drop_last()) == 0);
    }
    if b.len() == 0 {
        assert(a + b =~= a);
    } else {
        assert((a + b).drop_last() =~= a + b.drop_last());
        combo_adds_up(a, b.drop_last());
    }
}

/// An object becomes one note, with its head, in the column of its position; it is a hold with
/// the object's end exactly if the object ends later than a tail has to.
pub proof fn objects_become_notes(object: TimedObject, total_columns: usize)
    requires
        total_columns > 0,
    ensures
        ({
            let note = note_of(object, total_columns);
            &&& note.head == object.head
            &&& note.column < total_columns
            &&& note.column == column_at(object.position, total_columns)
            &&& note.tail is Some <==> object.tail_after.lt(object.end)
            &&& note.tail matches Some(tail) ==> tail == object.end
        }),
{
}

/// A play covers the first objects of the map: as many as it passes, or all there are.
pub proof fn plays_cover_the_first_objects(objects: Seq<TimedObject>, passed_objects: Option<u32>)
    ensures
        ({
            let covered = passed(objects, passed_objects);
            &&& covered.len() <= objects.len()
            &&& covered.is_prefix_of(objects)
            &&& passed_objects matches Some(n) ==> covered.len() <= n && (n <= objects.len()
                ==> covered.len() == n)
            &&& passed_objects matches Some(n) ==> (n > objects.len() ==> covered == objects)
            &&& passed_objects is None && objects.len() <= u32::MAX ==> covered == objects
        }),
{
    assert(objects.take(objects.len() as int) =~= objects);
}

/// Each object that a play covers becomes a note, in order.
pub proof fn every_passed_object_is_a_note(
    objects: Seq<TimedObject>,
    passed_objects: Option<u32>,
    total_columns: usize,
    i: int,
)
    requires
        0 <= i < passed(objects, passed_objects).len(),
    ensures
        passed_notes(objects, passed_objects, total_columns).len() == passed(
            objects,
            passed_objects,
        ).len(),
        passed_notes(objects, passed_objects, total_columns)[i] == note_of(
            objects[i],
            total_columns,
        ),
{
}

/// A prepared map has as many columns as it was given, the notes of the passed objects, each as
/// often as they become it, and their combo.
pub proof fn prepared_maps_hold_the_passed_objects(
    map: PreparedMap,
    objects: Seq<TimedObject>,
    passed_objects: Option<u32>,
    total_columns: usize,
    pick: spec_fn(Note) -> bool,
)
    requires
        is_prepared(map, objects, passed_objects, total_columns),
    ensures
        map.data.total_columns == total_columns,
        map.data.notes_by_column.len() == total_columns,
        map.data.notes@.len() == passed(objects, passed_objects).len(),
        picked(map.data.notes@, pick) == picked(
            passed_notes(objects, passed_objects, total_columns),
            pick,
        ),
        map.max_combo == combo_total(passed(objects, passed_objects)),
        forall|i: int|
            0 <= i < map.data.notes@.len() ==> (#[trigger] map.data.notes@[i]).column
                < total_columns,
{
    let notes = passed_notes(objects, passed_objects, total_columns);
    let order = choose|order: Seq<usize>|
        #[trigger] is_stable_order(note_keys(notes), order) && map.data.notes@ == arranged(
            notes,
            order,
        );
    assert(map.data.notes.len() == map.data.notes@.len());
    sorting_keeps_what_is_picked(map.data.notes@, notes, note_keys(notes), pick);
}

/// A play is enough exactly if the map has a column and two objects and the play does not end
/// before the second.
pub proof fn two_objects_are_enough(
    objects: Seq<TimedObject>,
    passed_objects: Option<u32>,
    total_columns: usize,
)
    ensures
        is_enough(objects, passed_objects, total_columns) <==> objects.len() >= 2 && total_columns
            >= 1 && !(passed_objects == Some(0u32) || passed_objects == Some(1u32)),
{
}

} // verus!
