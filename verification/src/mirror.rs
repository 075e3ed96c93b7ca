//! Mirrored maps: the columns the other way around.

use crate::binary64::{lemma_rank_order, Binary64};
use crate::notes::{
    in_column, in_range, is_pair, note_keys, sorted_notes_start_in_order, start_in_order, Note,
    RebirthData,
};
use crate::order::{
    is_sorted_by, lemma_kept_apart, lemma_picked_alike, lemma_picked_filtered, lemma_picked_joined,
    lemma_picked_mapped, picked, sorting_keeps_what_is_picked,
};
use crate::plan::CurvePlan;
use crate::segments::{
    cross_segments_of, heads_of, is_cross_plan, is_damped, segments_lie_on_the_corners, segments_of,
};
use crate::timeline::{climbs, CornerSets};
use crate::usage::{in_use, lists_active, KeySpan};
use vstd::prelude::*;

verus! {

/// The column that a column becomes.
pub open spec fn mirrored_column(column: usize, total_columns: usize) -> usize {
    (total_columns - 1 - column) as usize
}

/// The notes of a map, mirrored.
pub open spec fn mirrored_notes(notes: Seq<Note>, total_columns: usize) -> Seq<Note> {
    notes.map_values(
        |note: Note| Note { column: mirrored_column(note.column, total_columns), ..note },
    )
}

/// The spans of a map's notes, mirrored.
pub open spec fn mirrored_spans(spans: Seq<KeySpan>, total_columns: usize) -> Seq<KeySpan> {
    spans.map_values(
        |span: KeySpan| KeySpan { column: mirrored_column(span.column, total_columns), ..span },
    )
}

/// Whether `data` holds the given notes.
pub open spec fn holds(data: RebirthData, notes: Seq<Note>, total_columns: usize) -> bool {
    &&& data.wf()
    &&& data.total_columns == total_columns
    &&& is_sorted_by(data.notes@, notes, note_keys(notes))
}

/// Whether every span is of one of the columns.
pub open spec fn spans_in_range(spans: Seq<KeySpan>, total_columns: usize) -> bool {
    forall|i: int| 0 <= i < spans.len() ==> (#[trigger] spans[i]).column < total_columns
}

/// Picks the notes of a column that start at a time.
spec fn starts_at(column: usize, time: Binary64) -> spec_fn(Note) -> bool {
    |note: Note| note.column == column && note.head == time
}

/// Picks a time.
spec fn is_time(time: Binary64) -> spec_fn(Binary64) -> bool {
    |other: Binary64| other == time
}

/// Climbing times are settled by how often each occurs.
proof fn lemma_same_times(a: Seq<Binary64>, b: Seq<Binary64>)
    requires
        climbs(a),
        climbs(b),
        forall|time: Binary64| #[trigger] picked(a, is_time(time)) == picked(b, is_time(time)),
    ensures
        a == b,
    decreases a.len(),
{
    if a.len() == 0 {
        if b.len() > 0 {
            assert(picked(a, is_time(b.last())) == picked(b, is_time(b.last())));
        }
        assert(a =~= b);
    } else {
        assert(picked(a, is_time(a.last())) == picked(b, is_time(a.last())));
        lemma_picked_occurs(b, a.last());
        let i = choose|i: int| 0 <= i < b.len() && b[i] == a.last();
        assert(picked(a, is_time(b.last())) == picked(b, is_time(b.last())));
        lemma_picked_occurs(a, b.last());
        let j = choose|j: int| 0 <= j < a.len() && a[j] == b.last();
        lemma_rank_order(a.last(), b.last());
        assert(a.last() == b.last()) by {
            if i < b.len() - 1 {
                assert(b[i].total_rank() <= b[b.len() - 1].total_rank());
            }
            if j < a.len() - 1 {
                assert(a[j].total_rank() <= a[a.len() - 1].total_rank());
            }
        }
        let fewer_a = a.drop_last();
        let fewer_b = b.drop_last();
        assert(climbs(fewer_a)) by {
            assert forall|i: int, j: int| 0 <= i < j < fewer_a.len() implies (
            #[trigger] fewer_a[i]).total_rank() <= (#[trigger] fewer_a[j]).total_rank() by {
                assert(a[i].total_rank() <= a[j].total_rank());
            }
        }
        assert(climbs(fewer_b)) by {
            assert forall|i: int, j: int| 0 <= i < j < fewer_b.len() implies (
            #[trigger] fewer_b[i]).total_rank() <= (#[trigger] fewer_b[j]).total_rank() by {
                assert(b[i].total_rank() <= b[j].total_rank());
            }
        }
        assert forall|time: Binary64| #[trigger]
            picked(fewer_a, is_time(time)) == picked(fewer_b, is_time(time)) by {
            assert(picked(a, is_time(time)) == picked(b, is_time(time)));
        }
        lemma_same_times(fewer_a, fewer_b);
        assert(a =~= fewer_a.push(a.last()));
        assert(b =~= fewer_b.push(b.last()));
    }
}

proof fn lemma_picked_occurs(times: Seq<Binary64>, time: Binary64)
    requires
        picked(times, is_time(time)) > 0,
    ensures
        exists|i: int| 0 <= i < times.len() && times[i] == time,
    decreases times.len(),
{
    if times.last() == time {
        assert(times[times.len() - 1] == time);
    } else {
        let rest = times.drop_last();
        lemma_picked_occurs(rest, time);
        let i = choose|i: int| 0 <= i < rest.len() && rest[i] == time;
        assert(times[i] == time);
    }
}

/// Notes picked out of notes that start one after another do so too, and are such notes.
proof fn lemma_filter_starts_in_order(notes: Seq<Note>, pick: spec_fn(Note) -> bool)
    requires
        start_in_order(notes),
    ensures
        start_in_order(notes.filter(pick)),
        forall|i: int|
            0 <= i < notes.filter(pick).len() ==> notes.contains(#[trigger] notes.filter(pick)[i]),
    decreases notes.len(),
{
    reveal(Seq::filter);
    if notes.len() > 0 {
        let rest = notes.drop_last();
        let n = notes.len() - 1;
        let last = notes.last();
        assert forall|i: int, j: int| 0 <= i < j < rest.len() implies (
        #[trigger] rest[i]).head.total_rank() <= (#[trigger] rest[j]).head.total_rank() by {
            assert(notes[i].head.total_rank() <= notes[j].head.total_rank());
        }
        lemma_filter_starts_in_order(rest, pick);
        let kept = rest.filter(pick);
        let all = notes.filter(pick);
        assert forall|i: int| 0 <= i < all.len() implies notes.contains(#[trigger] all[i]) by {
            if i < kept.len() {
                assert(rest.contains(kept[i]));
                let k = choose|k: int| 0 <= k < rest.len() && rest[k] == kept[i];
                assert(notes[k] == all[i]);
            } else {
                assert(notes[n] == all[i]);
            }
        }
        assert forall|i: int, j: int| 0 <= i < j < all.len() implies (
        #[trigger] all[i]).head.total_rank() <= (#[trigger] all[j]).head.total_rank() by {
            if j < kept.len() {
                assert(kept[i].head.total_rank() <= kept[j].head.total_rank());
            } else {
                assert(rest.contains(kept[i]));
                let k = choose|k: int| 0 <= k < rest.len() && rest[k] == kept[i];
                assert(notes[k].head.total_rank() <= notes[n].head.total_rank());
            }
        }
    }
}

/// How often a time occurs among the heads of notes.
proof fn lemma_heads_picked(notes: Seq<Note>, time: Binary64)
    ensures
        picked(heads_of(notes), is_time(time)) == picked(notes, |note: Note| note.head == time),
{
    let head = |note: Note| note.head;
    lemma_picked_mapped(notes, head, is_time(time));
    assert(heads_of(notes) =~= notes.map_values(head));
    lemma_picked_alike(
        notes,
        |note: Note| is_time(time)(head(note)),
        |note: Note| note.head == time,
    );
}

/// The notes of a column start one after another, at the times at which the map's notes in
/// that column start.
proof fn lemma_column(data: RebirthData, notes: Seq<Note>, column: usize, time: Binary64)
    requires
        holds(data, notes, data.total_columns),
        column < data.total_columns,
    ensures
        start_in_order(data.notes_by_column[column as int]@),
        picked(data.notes_by_column[column as int]@, |note: Note| note.head == time) == picked(
            notes,
            starts_at(column, time),
        ),
{
    let all = data.notes@;
    let own = data.notes_by_column[column as int]@;
    let at = |note: Note| note.head == time;
    assert(own == all.filter(in_column(column)));
    sorted_notes_start_in_order(all, notes);
    assert(start_in_order(all));
    lemma_filter_starts_in_order(all, in_column(column));
    lemma_picked_filtered(all, in_column(column), at);
    lemma_picked_alike(
        all,
        |note: Note| in_column(column)(note) && at(note),
        starts_at(column, time),
    );
    lemma_notes_fit(data, notes);
    sorting_keeps_what_is_picked(all, notes, note_keys(notes), starts_at(column, time));
}

proof fn lemma_notes_fit(data: RebirthData, notes: Seq<Note>)
    requires
        is_sorted_by(data.notes@, notes, note_keys(notes)),
    ensures
        notes.len() == data.notes@.len(),
        notes.len() <= usize::MAX,
{
    assert(data.notes@.len() == data.notes.len());
}

/// How many notes beside the gap start at a time.
spec fn beside(notes: Seq<Note>, total_columns: usize, gap: usize, time: Binary64) -> nat {
    (if gap > 0 {
        picked(notes, starts_at((gap - 1) as usize, time))
    } else {
        0
    }) + (if gap < total_columns {
        picked(notes, starts_at(gap, time))
    } else {
        0
    })
}

/// The notes beside a gap start one after another, at the times at which the map's notes
/// beside that gap start.
proof fn lemma_pair(
    data: RebirthData,
    notes: Seq<Note>,
    gap: usize,
    pair: Seq<Note>,
    time: Binary64,
)
    requires
        holds(data, notes, data.total_columns),
        data.total_columns > 0,
        gap <= data.total_columns,
        is_pair(data, gap, pair),
    ensures
        start_in_order(pair),
        picked(heads_of(pair), is_time(time)) == beside(notes, data.total_columns, gap, time),
{
    let columns = data.notes_by_column@;
    let at = |note: Note| note.head == time;
    lemma_heads_picked(pair, time);
    if gap == 0 {
        lemma_column(data, notes, 0, time);
    } else if gap == data.total_columns {
        lemma_column(data, notes, (gap - 1) as usize, time);
    } else {
        let left = (gap - 1) as usize;
        lemma_column(data, notes, left, time);
        lemma_column(data, notes, gap, time);
        let a = columns[gap - 1]@;
        let b = columns[gap as int]@;
        assert(a == data.notes@.filter(in_column(left)));
        assert(b == data.notes@.filter(in_column(gap)));
        lemma_kept_apart(data.notes@, in_column(left), in_column(gap));
        lemma_notes_fit(data, notes);
        sorted_notes_start_in_order(pair, a + b);
        sorting_keeps_what_is_picked(pair, a + b, note_keys(a + b), at);
        lemma_picked_joined(a, b, at);
    }
}

/// A mirrored map has in each column the notes of the column on the other side.
proof fn lemma_mirrored_column(
    notes: Seq<Note>,
    total_columns: usize,
    column: usize,
    time: Binary64,
)
    requires
        in_range(notes, total_columns),
        column < total_columns,
    ensures
        picked(
            mirrored_notes(notes, total_columns),
            starts_at(mirrored_column(column, total_columns), time),
        ) == picked(notes, starts_at(column, time)),
{
    let mirror = |note: Note| Note { column: mirrored_column(note.column, total_columns), ..note };
    let there = starts_at(mirrored_column(column, total_columns), time);
    lemma_picked_mapped(notes, mirror, there);
    assert(mirrored_notes(notes, total_columns) =~= notes.map_values(mirror));
    assert forall|i: int| 0 <= i < notes.len() implies there(mirror(#[trigger] notes[i]))
        == starts_at(column, time)(notes[i]) by {
        assert(notes[i].column < total_columns);
    }
    lemma_picked_alike(notes, |note: Note| there(mirror(note)), starts_at(column, time));
}

/// Beside each gap of a mirrored map notes start when they start beside the gap on the other
/// side.
proof fn lemma_mirrored_heads(
    notes: Seq<Note>,
    data: RebirthData,
    mirrored: RebirthData,
    gap: usize,
    pair: Seq<Note>,
    mirrored_pair: Seq<Note>,
)
    requires
        data.total_columns > 0,
        in_range(notes, data.total_columns),
        holds(data, notes, data.total_columns),
        holds(mirrored, mirrored_notes(notes, data.total_columns), data.total_columns),
        gap <= data.total_columns,
        is_pair(data, gap, pair),
        is_pair(mirrored, (data.total_columns - gap) as usize, mirrored_pair),
    ensures
        heads_of(mirrored_pair) == heads_of(pair),
{
    let total = data.total_columns;
    let other = mirrored_notes(notes, total);
    let across = (total - gap) as usize;
    assert forall|time: Binary64| #[trigger]
        picked(heads_of(mirrored_pair), is_time(time)) == picked(heads_of(pair), is_time(time)) by {
        lemma_pair(data, notes, gap, pair, time);
        lemma_pair(mirrored, other, across, mirrored_pair, time);
        if gap > 0 {
            lemma_mirrored_column(notes, total, (gap - 1) as usize, time);
            assert(mirrored_column((gap - 1) as usize, total) == across);
        }
        if gap < total {
            lemma_mirrored_column(notes, total, gap, time);
            assert(mirrored_column(gap, total) == (across - 1) as usize);
        }
    }
    let zero = Binary64 { bits: 0 };
    lemma_pair(data, notes, gap, pair, zero);
    lemma_pair(mirrored, other, across, mirrored_pair, zero);
    lemma_same_times(heads_of(mirrored_pair), heads_of(pair));
}

/// A column of a mirrored map is in use when the column on the other side is.
proof fn lemma_mirrored_use(
    spans: Seq<KeySpan>,
    total_columns: usize,
    column: usize,
    corner: Binary64,
)
    requires
        spans_in_range(spans, total_columns),
        column < total_columns,
    ensures
        in_use(
            mirrored_spans(spans, total_columns),
            mirrored_column(column, total_columns),
            corner,
        ) == in_use(spans, column, corner),
{
    let there = mirrored_column(column, total_columns);
    let other = mirrored_spans(spans, total_columns);
    if in_use(spans, column, corner) {
        let k = choose|k: int|
            0 <= k < spans.len() && (#[trigger] spans[k]).column == column && spans[k].covers(
                corner,
            );
        assert(other[k].column == there && other[k].covers(corner));
    }
    if in_use(other, there, corner) {
        let k = choose|k: int|
            0 <= k < other.len() && (#[trigger] other[k]).column == there && other[k].covers(
                corner,
            );
        assert(spans[k].column < total_columns);
        assert(spans[k].column == column && spans[k].covers(corner));
    }
}

/// The columns that a mirrored map has in use at a corner are the mirrored columns in use
/// there.
proof fn lemma_mirrored_active(
    data: RebirthData,
    mirrored: RebirthData,
    corners: CornerSets,
    spans: Seq<KeySpan>,
    plan: CurvePlan,
    mirrored_plan: CurvePlan,
    i: int,
    column: usize,
)
    requires
        data.total_columns == mirrored.total_columns,
        spans_in_range(spans, data.total_columns),
        plan.plans(data, corners, spans),
        mirrored_plan.plans(mirrored, corners, mirrored_spans(spans, data.total_columns)),
        0 <= i < corners.base@.len(),
        column < data.total_columns,
    ensures
        mirrored_plan.active[i]@.contains(mirrored_column(column, data.total_columns))
            == plan.active[i]@.contains(column),
        !plan.active[i]@.contains(data.total_columns),
        !mirrored_plan.active[i]@.contains(data.total_columns),
{
    let total = data.total_columns;
    let there = mirrored_column(column, total);
    lemma_mirrored_use(spans, total, column, corners.base@[i]);
    assert(lists_active(plan.usage@, i, plan.active[i]@));
    assert(lists_active(mirrored_plan.usage@, i, mirrored_plan.active[i]@));
    assert(plan.usage[column as int].len() == corners.base@.len());
    assert(mirrored_plan.usage[there as int].len() == corners.base@.len());
    assert(plan.usage[column as int][i] == in_use(spans, column, corners.base@[i]));
    assert(mirrored_plan.usage[there as int][i] == in_use(
        mirrored_spans(spans, total),
        there,
        corners.base@[i],
    ));
}

/// A mirrored map is planned the other way around: between each two columns it has the
/// segments, damped alike, that the map has between the two columns on the other side.
pub proof fn mirrored_maps_cross_alike(
    notes: Seq<Note>,
    spans: Seq<KeySpan>,
    data: RebirthData,
    mirrored: RebirthData,
    corners: CornerSets,
    plan: CurvePlan,
    mirrored_plan: CurvePlan,
    gap: usize,
)
    requires
        data.total_columns > 0,
        in_range(notes, data.total_columns),
        spans_in_range(spans, data.total_columns),
        holds(data, notes, data.total_columns),
        holds(mirrored, mirrored_notes(notes, data.total_columns), data.total_columns),
        plan.plans(data, corners, spans),
        mirrored_plan.plans(mirrored, corners, mirrored_spans(spans, data.total_columns)),
        gap <= data.total_columns,
    ensures
        mirrored_plan.crosses[data.total_columns - gap]@ == plan.crosses[gap as int]@,
{
    let total = data.total_columns;
    let across = (total - gap) as usize;
    let base = corners.base@;
    let row = plan.crosses[gap as int]@;
    let mirrored_row = mirrored_plan.crosses[across as int]@;
    assert(is_cross_plan(data, base, plan.active@, gap, row));
    assert(is_cross_plan(mirrored, base, mirrored_plan.active@, across, mirrored_row));
    let pair = choose|pair: Seq<Note>|
        #[trigger] is_pair(data, gap, pair) && row == cross_segments_of(
            segments_of(heads_of(pair), base),
            plan.active@,
            gap as int,
        );
    let mirrored_pair = choose|pair: Seq<Note>|
        #[trigger] is_pair(mirrored, across, pair) && mirrored_row == cross_segments_of(
            segments_of(heads_of(pair), base),
            mirrored_plan.active@,
            across as int,
        );
    lemma_mirrored_heads(notes, data, mirrored, gap, pair, mirrored_pair);
    let segments = segments_of(heads_of(pair), base);
    assert(plan.active@.len() == plan.active.len());
    segments_lie_on_the_corners(heads_of(pair), base);
    assert forall|k: int| 0 <= k < segments.len() implies #[trigger] row[k] == mirrored_row[k] by {
        let segment = segments[k];
        assert(segment.left < segment.right <= base.len());
        let first = segment.left as int;
        let second = if segment.right < base.len() {
            segment.right as int
        } else {
            base.len() - 1
        };
        let edge = if gap > 0 {
            (gap - 1) as usize
        } else {
            0
        };
        lemma_mirrored_active(data, mirrored, corners, spans, plan, mirrored_plan, first, edge);
        lemma_mirrored_active(data, mirrored, corners, spans, plan, mirrored_plan, second, edge);
        if gap < total {
            lemma_mirrored_active(data, mirrored, corners, spans, plan, mirrored_plan, first, gap);
            lemma_mirrored_active(data, mirrored, corners, spans, plan, mirrored_plan, second, gap);
        }
        assert(is_damped(mirrored_plan.active@, segment, across as int) == is_damped(
            plan.active@,
            segment,
            gap as int,
        ));
    }
    assert(mirrored_row =~= row);
}

/// A mirrored map has in each column the segments that the map has in the column on the
/// other side.
pub proof fn mirrored_maps_jack_alike(
    notes: Seq<Note>,
    spans: Seq<KeySpan>,
    data: RebirthData,
    mirrored: RebirthData,
    corners: CornerSets,
    plan: CurvePlan,
    mirrored_plan: CurvePlan,
    column: usize,
)
    requires
        in_range(notes, data.total_columns),
        holds(data, notes, data.total_columns),
        holds(mirrored, mirrored_notes(notes, data.total_columns), data.total_columns),
        plan.plans(data, corners, spans),
        mirrored_plan.plans(mirrored, corners, mirrored_spans(spans, data.total_columns)),
        column < data.total_columns,
    ensures
        mirrored_plan.jacks[data.total_columns - 1 - column]@ == plan.jacks[column as int]@,
{
    let total = data.total_columns;
    let there = mirrored_column(column, total);
    let own = data.notes_by_column[column as int]@;
    let other = mirrored.notes_by_column[there as int]@;
    assert forall|time: Binary64| #[trigger]
        picked(heads_of(other), is_time(time)) == picked(heads_of(own), is_time(time)) by {
        lemma_heads_picked(own, time);
        lemma_heads_picked(other, time);
        lemma_column(data, notes, column, time);
        lemma_column(mirrored, mirrored_notes(notes, total), there, time);
        lemma_mirrored_column(notes, total, column, time);
    }
    let zero = Binary64 { bits: 0 };
    lemma_column(data, notes, column, zero);
    lemma_column(mirrored, mirrored_notes(notes, total), there, zero);
    lemma_same_times(heads_of(other), heads_of(own));
    assert(plan.jacks[column as int]@ == segments_of(heads_of(own), corners.base@));
    assert(mirrored_plan.jacks[there as int]@ == segments_of(heads_of(other), corners.base@));
}

} // verus!
