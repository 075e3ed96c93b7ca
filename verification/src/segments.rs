//! Stretches of corners between consecutive notes.

use crate::binary64::Binary64;
use crate::notes::{is_pair, notes_in_pair, Note, RebirthData};
use crate::timeline::{
    ascends, below, lemma_below_monotone, values_below_stand_in_front, Timeline,
};
use crate::usage::active_columns_contains;
use vstd::prelude::*;

verus! {

/// The corners `left..right` between two consecutive times.
#[derive(Clone, Copy, Debug, PartialEq, Eq, Structural)]
pub struct Segment {
    /// The position of the earlier time.
    pub index: usize,
    pub start: Binary64,
    pub end: Binary64,
    pub left: usize,
    pub right: usize,
}

/// The corners from the time at `index` on and before the next time.
pub open spec fn segment_at(times: Seq<Binary64>, index: int, corners: Seq<Binary64>) -> Segment {
    Segment {
        index: index as usize,
        start: times[index],
        end: times[index + 1],
        left: below(corners, times[index]) as usize,
        right: below(corners, times[index + 1]) as usize,
    }
}

/// The segments between consecutive times, without those that hold no corner.
pub open spec fn segments_of(times: Seq<Binary64>, corners: Seq<Binary64>) -> Seq<Segment>
    decreases times.len(),
{
    if times.len() < 2 {
        Seq::empty()
    } else {
        let rest = segments_of(times.drop_last(), corners);
        let segment = segment_at(times, times.len() - 2, corners);
        if segment.left < segment.right {
            rest.push(segment)
        } else {
            rest
        }
    }
}

/// Whether every segment holds one of `len` corners, and only such.
pub open spec fn lie_on(segments: Seq<Segment>, len: nat) -> bool {
    forall|k: int|
        0 <= k < segments.len() ==> (#[trigger] segments[k]).left < segments[k].right <= len
}

/// The segments between consecutive times, without those that hold no corner.
pub fn segments(times: &Vec<Binary64>, corners: &Timeline) -> (out: Vec<Segment>)
    ensures
        out@ == segments_of(times@, corners@),
{
    let mut out: Vec<Segment> = Vec::new();
    let mut i: usize = 1;
    while i < times.len()
        invariant
            1 <= i,
            i <= times.len() || times.len() == 0,
            times.len() == 0 ==> i == 1,
            times.len() > 0 ==> out@ == segments_of(times@.take(i as int), corners@),
            times.len() == 0 ==> out@ == Seq::<Segment>::empty(),
        decreases times.len() - i,
    {
        let start: Binary64 = times[i - 1];
        let end: Binary64 = times[i];
        let left: usize = corners.lower_bound(start);
        let right: usize = corners.lower_bound(end);
        proof {
            let longer = times@.take(i + 1);
            assert(longer.drop_last() =~= times@.take(i as int));
            assert(longer[i - 1] == start && longer[i as int] == end);
        }
        if left < right {
            out.push(Segment { index: i - 1, start, end, left, right });
        }
        i = i + 1;
    }
    proof {
        if times.len() > 0 {
            assert(times@.take(i as int) =~= times@);
        }
    }
    out
}

/// When the notes start.
pub open spec fn heads_of(notes: Seq<Note>) -> Seq<Binary64> {
    notes.map_values(|note: Note| note.head)
}

/// When the notes end.
pub open spec fn ends_of(notes: Seq<Note>) -> Seq<Binary64> {
    notes.map_values(|note: Note| note.end())
}

/// When the notes start.
pub fn heads(notes: &Vec<Note>) -> (times: Vec<Binary64>)
    ensures
        times@ == heads_of(notes@),
{
    let mut times: Vec<Binary64> = Vec::with_capacity(notes.len());
    let mut i: usize = 0;
    while i < notes.len()
        invariant
            i <= notes.len(),
            times.len() == i,
            forall|k: int| 0 <= k < i ==> times[k] == notes[k].head,
        decreases notes.len() - i,
    {
        times.push(notes[i].head);
        i = i + 1;
    }
    assert(times@ =~= heads_of(notes@));
    times
}

/// When the notes end.
pub fn ends(notes: &Vec<Note>) -> (times: Vec<Binary64>)
    ensures
        times@ == ends_of(notes@),
{
    let mut times: Vec<Binary64> = Vec::with_capacity(notes.len());
    let mut i: usize = 0;
    while i < notes.len()
        invariant
            i <= notes.len(),
            times.len() == i,
            forall|k: int| 0 <= k < i ==> times[k] == notes[k].end(),
        decreases notes.len() - i,
    {
        times.push(notes[i].tail_or_head());
        i = i + 1;
    }
    assert(times@ =~= ends_of(notes@));
    times
}

/// The segments between consecutive notes of each column.
pub fn jack_segments(data: &RebirthData, corners: &Timeline) -> (out: Vec<Vec<Segment>>)
    requires
        data.wf(),
    ensures
        out.len() == data.total_columns,
        forall|c: int|
            0 <= c < out.len() ==> (#[trigger] out[c])@ == segments_of(
                heads_of(data.notes_by_column[c]@),
                corners@,
            ),
{
    let mut out: Vec<Vec<Segment>> = Vec::with_capacity(data.total_columns);
    let mut column: usize = 0;
    while column < data.total_columns
        invariant
            column <= data.total_columns,
            data.wf(),
            out.len() == column,
            forall|c: int|
                0 <= c < out.len() ==> (#[trigger] out[c])@ == segments_of(
                    heads_of(data.notes_by_column[c]@),
                    corners@,
                ),
        decreases data.total_columns - column,
    {
        let times: Vec<Binary64> = heads(&data.notes_by_column[column]);
        let row: Vec<Segment> = segments(&times, corners);
        out.push(row);
        column = column + 1;
    }
    out
}

/// The value that holds at corner `i` after the first `n` segments were filled with
/// their values, where `background` holds at first.
pub open spec fn painted(
    segments: Seq<Segment>,
    values: Seq<Binary64>,
    background: Binary64,
    i: int,
    n: int,
) -> Binary64
    decreases n,
{
    if n <= 0 {
        background
    } else if segments[n - 1].left <= i < segments[n - 1].right {
        values[n - 1]
    } else {
        painted(segments, values, background, i, n - 1)
    }
}

fn fill(row: &mut Vec<Binary64>, left: usize, right: usize, value: Binary64)
    requires
        right <= old(row).len(),
    ensures
        final(row).len() == old(row).len(),
        forall|i: int|
            0 <= i < old(row).len() ==> #[trigger] final(row)@[i] == if left <= i < right {
                value
            } else {
                old(row)@[i]
            },
{
    let ghost before = row@;
    let mut idx: usize = left;
    while idx < right
        invariant
            left <= idx,
            idx <= left || idx <= right,
            right <= row.len(),
            before.len() == row.len(),
            forall|i: int|
                0 <= i < before.len() ==> #[trigger] row@[i] == if left <= i < idx {
                    value
                } else {
                    before[i]
                },
        decreases right - idx,
    {
        row.set(idx, value);
        idx = idx + 1;
    }
}

/// A curve over `len` corners that is constant on each segment.
pub fn paint(
    len: usize,
    segments: &Vec<Segment>,
    values: &Vec<Binary64>,
    background: Binary64,
) -> (row: Vec<Binary64>)
    requires
        segments.len() == values.len(),
        forall|k: int| 0 <= k < segments.len() ==> (#[trigger] segments[k]).right <= len,
    ensures
        row.len() == len,
        forall|i: int|
            0 <= i < len ==> #[trigger] row[i] == painted(
                segments@,
                values@,
                background,
                i,
                segments.len() as int,
            ),
{
    let mut row: Vec<Binary64> = Vec::with_capacity(len);
    let mut i: usize = 0;
    while i < len
        invariant
            i <= len,
            row.len() == i,
            forall|k: int| 0 <= k < i ==> row[k] == background,
        decreases len - i,
    {
        row.push(background);
        i = i + 1;
    }
    let mut n: usize = 0;
    while n < segments.len()
        invariant
            n <= segments.len(),
            segments.len() == values.len(),
            forall|k: int| 0 <= k < segments.len() ==> (#[trigger] segments[k]).right <= len,
            row.len() == len,
            forall|i: int|
                0 <= i < len ==> #[trigger] row@[i] == painted(
                    segments@,
                    values@,
                    background,
                    i,
                    n as int,
                ),
        decreases segments.len() - n,
    {
        fill(&mut row, segments[n].left, segments[n].right, values[n]);
        n = n + 1;
    }
    row
}

/// A segment between consecutive notes of two neighbouring columns.
#[derive(Clone, Copy, Debug, PartialEq, Eq, Structural)]
pub struct CrossSegment {
    pub segment: Segment,
    /// Whether the cross-column strain counts less: one of the two columns is in use
    /// neither at the beginning nor at the end of the segment.
    pub damped: bool,
}

/// Whether a column is in use at one of two corners. No column is left of the first.
pub open spec fn active_at_ends(
    active: Seq<Vec<usize>>,
    first: int,
    second: int,
    column: int,
) -> bool {
    column >= 0 && (active[first]@.contains(column as usize) || active[second]@.contains(
        column as usize,
    ))
}

/// Whether the cross-column strain of the gap `pair_column` counts less on a segment.
pub open spec fn is_damped(active: Seq<Vec<usize>>, segment: Segment, pair_column: int) -> bool {
    let first = segment.left as int;
    let second = if segment.right < active.len() {
        segment.right as int
    } else {
        active.len() - 1
    };
    !active_at_ends(active, first, second, pair_column - 1) || !active_at_ends(
        active,
        first,
        second,
        pair_column,
    )
}

/// Whether the cross-column strain of the gap `pair_column` counts less on a segment.
fn damped(active: &Vec<Vec<usize>>, segment: Segment, pair_column: usize) -> (answer: bool)
    requires
        segment.left < active.len(),
        pair_column <= isize::MAX,
    ensures
        answer == is_damped(active@, segment, pair_column as int),
{
    let first: usize = segment.left;
    let second: usize = if segment.right < active.len() {
        segment.right
    } else {
        active.len() - 1
    };
    let right: isize = pair_column as isize;
    let left: isize = right - 1;
    (!active_columns_contains(active, first, left) && !active_columns_contains(
        active,
        second,
        left,
    )) || (!active_columns_contains(active, first, right) && !active_columns_contains(
        active,
        second,
        right,
    ))
}

/// The segments of a gap between two columns.
pub open spec fn cross_segments_of(
    segments: Seq<Segment>,
    active: Seq<Vec<usize>>,
    pair_column: int,
) -> Seq<CrossSegment> {
    segments.map_values(
        |segment: Segment|
            CrossSegment { segment, damped: is_damped(active, segment, pair_column) },
    )
}

/// Marks the segments of the gap `pair_column`.
pub fn cross_segments(segments: &Vec<Segment>, active: &Vec<Vec<usize>>, pair_column: usize) -> (out:
    Vec<CrossSegment>)
    requires
        lie_on(segments@, active.len() as nat),
        pair_column <= isize::MAX,
    ensures
        out@ == cross_segments_of(segments@, active@, pair_column as int),
{
    let mut out: Vec<CrossSegment> = Vec::with_capacity(segments.len());
    let mut i: usize = 0;
    while i < segments.len()
        invariant
            i <= segments.len(),
            lie_on(segments@, active.len() as nat),
            pair_column <= isize::MAX,
            out.len() == i,
            forall|k: int|
                0 <= k < i ==> out[k] == (CrossSegment {
                    segment: segments[k],
                    damped: is_damped(active@, segments[k], pair_column as int),
                }),
        decreases segments.len() - i,
    {
        let segment: Segment = segments[i];
        out.push(CrossSegment { segment, damped: damped(active, segment, pair_column) });
        i = i + 1;
    }
    assert(out@ =~= cross_segments_of(segments@, active@, pair_column as int));
    out
}

/// No more values are below `x` than there are values.
pub proof fn lemma_below_bounded(times: Seq<Binary64>, x: Binary64)
    ensures
        below(times, x) <= times.len(),
    decreases times.len(),
{
    if times.len() > 0 {
        lemma_below_bounded(times.drop_last(), x);
    }
}

/// Every segment holds a corner, and only corners.
pub proof fn segments_lie_on_the_corners(times: Seq<Binary64>, corners: Seq<Binary64>)
    requires
        corners.len() <= usize::MAX,
    ensures
        lie_on(segments_of(times, corners), corners.len()),
    decreases times.len(),
{
    if times.len() >= 2 {
        segments_lie_on_the_corners(times.drop_last(), corners);
        lemma_below_bounded(corners, times[times.len() - 2]);
        lemma_below_bounded(corners, times.last());
    }
}

/// The segments between ascending times do not overlap and follow one another: each ends
/// before the next begins.
pub proof fn segments_do_not_overlap(times: Seq<Binary64>, corners: Seq<Binary64>)
    requires
        ascends(times),
        corners.len() <= usize::MAX,
    ensures
        forall|i: int, j: int|
            #![trigger segments_of(times, corners)[i], segments_of(times, corners)[j]]
            0 <= i < j < segments_of(times, corners).len() ==> segments_of(times, corners)[i].right
                <= segments_of(times, corners)[j].left,
        times.len() > 0 ==> forall|i: int|
            0 <= i < segments_of(times, corners).len() ==> (#[trigger] segments_of(
                times,
                corners,
            )[i]).right <= below(corners, times.last()),
    decreases times.len(),
{
    if times.len() >= 2 {
        let fewer = times.drop_last();
        let n = times.len() - 2;
        assert(ascends(fewer));
        segments_do_not_overlap(fewer, corners);
        let rest = segments_of(fewer, corners);
        let all = segments_of(times, corners);
        assert(fewer.last() == times[n]);
        assert(times[n].le(times[n + 1]));
        lemma_below_monotone(corners, times[n], times.last());
        lemma_below_bounded(corners, times[n]);
        lemma_below_bounded(corners, times.last());
        assert forall|i: int| 0 <= i < rest.len() implies (#[trigger] rest[i]).right <= below(
            corners,
            times[n],
        ) by {}
        assert forall|i: int| 0 <= i < all.len() implies (#[trigger] all[i]).right <= below(
            corners,
            times.last(),
        ) by {
            if i < rest.len() {
                assert(all[i] == rest[i]);
            }
        }
        assert forall|i: int, j: int| 0 <= i < j < all.len() implies (#[trigger] all[i]).right <= (
        #[trigger] all[j]).left by {
            assert(all[i] == rest[i]);
            if j < rest.len() {
                assert(all[j] == rest[j]);
            }
        }
    }
}

/// On segments that do not overlap every corner has the value of the segment that it lies
/// on.
pub proof fn painted_value_is_that_of_the_segment(
    segments: Seq<Segment>,
    values: Seq<Binary64>,
    background: Binary64,
    i: int,
    k: int,
    n: int,
)
    requires
        0 <= k < n <= segments.len(),
        segments.len() == values.len(),
        forall|a: int, b: int|
            0 <= a < b < segments.len() ==> (#[trigger] segments[a]).right <= (
            #[trigger] segments[b]).left,
        segments[k].left <= i < segments[k].right,
    ensures
        painted(segments, values, background, i, n) == values[k],
    decreases n,
{
    if k < n - 1 {
        assert(segments[k].right <= segments[n - 1].left);
        painted_value_is_that_of_the_segment(segments, values, background, i, k, n - 1);
    }
}

/// Whether `out` holds, for each gap between two columns, the marked segments between
/// the consecutive notes of the two columns.
pub open spec fn is_cross_plan(
    data: RebirthData,
    corners: Seq<Binary64>,
    active: Seq<Vec<usize>>,
    pair_column: usize,
    out: Seq<CrossSegment>,
) -> bool {
    exists|notes: Seq<Note>|
        #[trigger] is_pair(data, pair_column, notes) && out == cross_segments_of(
            segments_of(heads_of(notes), corners),
            active,
            pair_column as int,
        )
}

/// The marked segments of every gap between two columns, the edges of the keyboard
/// included.
pub fn cross_plan(data: &RebirthData, corners: &Timeline, active: &Vec<Vec<usize>>) -> (out: Vec<
    Vec<CrossSegment>,
>)
    requires
        data.wf(),
        data.total_columns < isize::MAX,
        active.len() == corners@.len(),
    ensures
        out.len() == data.total_columns + 1,
        forall|p: int|
            0 <= p < out.len() ==> is_cross_plan(
                *data,
                corners@,
                active@,
                p as usize,
                (#[trigger] out[p])@,
            ),
{
    let mut out: Vec<Vec<CrossSegment>> = Vec::with_capacity(data.total_columns + 1);
    let mut pair_column: usize = 0;
    while pair_column <= data.total_columns
        invariant
            pair_column <= data.total_columns + 1,
            data.wf(),
            data.total_columns < isize::MAX,
            active.len() == corners@.len(),
            out.len() == pair_column,
            forall|p: int|
                0 <= p < out.len() ==> is_cross_plan(
                    *data,
                    corners@,
                    active@,
                    p as usize,
                    (#[trigger] out[p])@,
                ),
        decreases data.total_columns + 1 - pair_column,
    {
        let notes: Vec<Note> = notes_in_pair(data, pair_column);
        let times: Vec<Binary64> = heads(&notes);
        let plain: Vec<Segment> = segments(&times, corners);
        proof {
            segments_lie_on_the_corners(times@, corners@);
        }
        let row: Vec<CrossSegment> = cross_segments(&plain, active, pair_column);
        assert(is_cross_plan(*data, corners@, active@, pair_column, row@));
        out.push(row);
        pair_column = pair_column + 1;
    }
    out
}

/// Whether a corner is at the time at `i` or later, and before the next time.
pub open spec fn runs_over(times: Seq<Binary64>, i: int, corner: Binary64) -> bool {
    !corner.lt(times[i]) && corner.lt(times[i + 1])
}

/// Whether there is a corner from the time at `i` on, before the next time.
pub open spec fn holds_a_corner(times: Seq<Binary64>, corners: Seq<Binary64>, i: int) -> bool {
    exists|c: int| 0 <= c < corners.len() && runs_over(times, i, #[trigger] corners[c])
}

/// Whether a segment is that of the time at `i`: it runs from there to the next time, over
/// exactly the corners in between.
pub open spec fn is_segment_of(
    segment: Segment,
    times: Seq<Binary64>,
    corners: Seq<Binary64>,
    i: int,
) -> bool {
    &&& segment.index == i
    &&& segment.start == times[i]
    &&& segment.end == times[i + 1]
    &&& forall|c: int|
        0 <= c < corners.len() ==> (segment.left <= c < segment.right <==> runs_over(
            times,
            i,
            #[trigger] corners[c],
        ))
}

/// The positions of the times behind the segments, in order.
proof fn lemma_segment_sources(times: Seq<Binary64>, corners: Seq<Binary64>) -> (sources: Seq<int>)
    requires
        ascends(corners),
        corners.len() <= usize::MAX,
        times.len() <= usize::MAX,
    ensures
        sources.len() == segments_of(times, corners).len(),
        forall|a: int, b: int|
            0 <= a < b < sources.len() ==> (#[trigger] sources[a]) < (#[trigger] sources[b]),
        forall|k: int| 0 <= k < sources.len() ==> 0 <= #[trigger] sources[k] < times.len() - 1,
        forall|i: int|
            0 <= i < times.len() - 1 ==> (#[trigger] holds_a_corner(times, corners, i)
                <==> sources.contains(i)),
        forall|k: int|
            0 <= k < sources.len() ==> is_segment_of(
                segments_of(times, corners)[k],
                times,
                corners,
                #[trigger] sources[k],
            ),
    decreases times.len(),
{
    if times.len() < 2 {
        Seq::empty()
    } else {
        let i = times.len() - 2;
        let rest = times.drop_last();
        let fewer = lemma_segment_sources(rest, corners);
        let before = segments_of(rest, corners);
        let after = segments_of(times, corners);
        values_below_stand_in_front(corners, times[i]);
        values_below_stand_in_front(corners, times[i + 1]);
        let left = below(corners, times[i]) as int;
        let right = below(corners, times[i + 1]) as int;
        assert forall|c: int| 0 <= c < corners.len() implies (left <= c < right <==> runs_over(
            times,
            i,
            #[trigger] corners[c],
        )) by {}
        assert(holds_a_corner(times, corners, i) <==> left < right) by {
            if left < right {
                assert(runs_over(times, i, corners[left]));
            }
        }
        assert forall|j: int| 0 <= j < i implies (#[trigger] holds_a_corner(times, corners, j)
            <==> fewer.contains(j)) by {
            assert(rest[j] == times[j] && rest[j + 1] == times[j + 1]);
            assert forall|c: int| 0 <= c < corners.len() implies runs_over(
                rest,
                j,
                #[trigger] corners[c],
            ) == runs_over(times, j, corners[c]) by {}
            assert(holds_a_corner(rest, corners, j) <==> fewer.contains(j));
        }
        assert forall|k: int| 0 <= k < fewer.len() implies is_segment_of(
            before[k],
            times,
            corners,
            #[trigger] fewer[k],
        ) by {
            let j = fewer[k];
            assert(is_segment_of(before[k], rest, corners, j));
            assert(rest[j] == times[j] && rest[j + 1] == times[j + 1]);
            assert forall|c: int| 0 <= c < corners.len() implies runs_over(
                rest,
                j,
                #[trigger] corners[c],
            ) == runs_over(times, j, corners[c]) by {}
        }
        assert(!fewer.contains(i)) by {
            if fewer.contains(i) {
                let k = choose|k: int| 0 <= k < fewer.len() && fewer[k] == i;
                assert(fewer[k] < i);
            }
        }
        if left < right {
            let sources = fewer.push(i);
            crate::order::lemma_push_keeps(fewer, i);
            assert forall|j: int| 0 <= j < times.len() - 1 implies (#[trigger] holds_a_corner(
                times,
                corners,
                j,
            ) <==> sources.contains(j)) by {
                if j < i && sources.contains(j) {
                    let k = choose|k: int| 0 <= k < sources.len() && sources[k] == j;
                    assert(fewer[k] == j);
                }
            }
            assert forall|k: int| 0 <= k < sources.len() implies is_segment_of(
                after[k],
                times,
                corners,
                #[trigger] sources[k],
            ) by {
                if k < fewer.len() {
                    assert(sources[k] == fewer[k] && after[k] == before[k]);
                }
            }
            sources
        } else {
            fewer
        }
    }
}

/// There is one segment, in order, for every two consecutive times with a corner from the one
/// on and before the other, and no other segment.
pub proof fn every_stretch_with_a_corner_is_a_segment(times: Seq<Binary64>, corners: Seq<Binary64>)
    requires
        ascends(corners),
        corners.len() <= usize::MAX,
        times.len() <= usize::MAX,
    ensures
        exists|sources: Seq<int>|
            {
                &&& #[trigger] sources.len() == segments_of(times, corners).len()
                &&& forall|a: int, b: int|
                    0 <= a < b < sources.len() ==> (#[trigger] sources[a]) < (#[trigger] sources[b])
                &&& forall|k: int|
                    0 <= k < sources.len() ==> 0 <= #[trigger] sources[k] < times.len() - 1
                &&& forall|i: int|
                    0 <= i < times.len() - 1 ==> (#[trigger] holds_a_corner(times, corners, i)
                        <==> sources.contains(i))
                &&& forall|k: int|
                    0 <= k < sources.len() ==> is_segment_of(
                        segments_of(times, corners)[k],
                        times,
                        corners,
                        #[trigger] sources[k],
                    )
            },
{
    let sources = lemma_segment_sources(times, corners);
    assert(sources.len() == segments_of(times, corners).len());
}

/// A corner on no segment has the background, whatever the segments' values are.
pub proof fn corners_on_no_segment_have_the_background(
    segments: Seq<Segment>,
    values: Seq<Binary64>,
    background: Binary64,
    i: int,
    n: int,
)
    requires
        0 <= n <= segments.len(),
        forall|k: int|
            0 <= k < n ==> !((#[trigger] segments[k]).left <= i < segments[k].right),
    ensures
        painted(segments, values, background, i, n) == background,
    decreases n,
{
    if n > 0 {
        assert(!(segments[n - 1].left <= i < segments[n - 1].right));
        corners_on_no_segment_have_the_background(segments, values, background, i, n - 1);
    }
}

/// Strain across a gap counts in full exactly if the columns on both sides of the gap are in
/// use at the beginning or at the end of the segment; at an edge of the keyboard, where there is
/// no column on the left, it never does.
pub proof fn strain_counts_in_full_between_used_columns(
    active: Seq<Vec<usize>>,
    segment: Segment,
    gap: int,
)
    requires
        0 <= gap <= usize::MAX,
        segment.left < segment.right <= active.len(),
    ensures
        gap == 0 ==> is_damped(active, segment, gap),
        gap > 0 ==> {
            let first = active[segment.left as int]@;
            let second = active[if segment.right < active.len() {
                segment.right as int
            } else {
                active.len() - 1
            }]@;
            let left = (gap - 1) as usize;
            let right = gap as usize;
            !is_damped(active, segment, gap) <==> (first.contains(left) || second.contains(left))
                && (first.contains(right) || second.contains(right))
        },
{
}

/// Notes have their heads and ends in order, one of each.
pub proof fn notes_have_heads_and_ends(notes: Seq<Note>, i: int)
    requires
        0 <= i < notes.len(),
    ensures
        heads_of(notes).len() == notes.len(),
        heads_of(notes)[i] == notes[i].head,
        ends_of(notes).len() == notes.len(),
        notes[i].tail matches Some(tail) ==> ends_of(notes)[i] == tail,
        notes[i].tail is None ==> ends_of(notes)[i] == notes[i].head,
{
}

/// Marking keeps the segments, in order.
pub proof fn marked_segments_are_kept(
    segments: Seq<Segment>,
    active: Seq<Vec<usize>>,
    gap: int,
    k: int,
)
    requires
        0 <= k < segments.len(),
    ensures
        cross_segments_of(segments, active, gap).len() == segments.len(),
        cross_segments_of(segments, active, gap)[k].segment == segments[k],
        cross_segments_of(segments, active, gap)[k].damped == is_damped(active, segments[k], gap),
{
}

} // verus!
