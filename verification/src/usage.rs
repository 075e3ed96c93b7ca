//! Which keys are in use when, and how many hits fall around a corner.

use crate::binary64::Binary64;
use crate::notes::RebirthData;
use crate::order::{
    is_sorted_by, lemma_picked_alike, lemma_picked_filtered, lemma_picked_joined, picked,
    sorting_keeps_what_is_picked,
};
use crate::ranking::{ascending_keys, sorted, sorted_values_climb};
use crate::segments::{ends, ends_of, heads, heads_of};
use crate::timeline::{ascends, below, is_number, values_below_stand_in_front, Timeline};
use vstd::prelude::*;

verus! {

/// From when to when a note keeps its column in use.
#[derive(Clone, Copy, Debug, PartialEq, Eq, Structural)]
pub struct KeySpan {
    pub column: usize,
    pub start: Binary64,
    pub end: Binary64,
}

impl KeySpan {
    /// Whether the span covers a corner: from `start` on, before `end`.
    pub open spec fn covers(self, corner: Binary64) -> bool {
        !corner.lt(self.start) && corner.lt(self.end)
    }
}

/// Whether one of the spans keeps `column` in use at `corner`.
pub open spec fn in_use(spans: Seq<KeySpan>, column: usize, corner: Binary64) -> bool {
    exists|k: int|
        0 <= k < spans.len() && (#[trigger] spans[k]).column == column && spans[k].covers(corner)
}

/// Sets the entries from `left` on, before `right`.
fn mark(row: &mut Vec<bool>, left: usize, right: usize)
    requires
        right <= old(row).len(),
    ensures
        final(row).len() == old(row).len(),
        forall|i: int|
            0 <= i < old(row).len() ==> #[trigger] final(row)@[i] == (old(row)@[i] || left <= i < right),
{
    let ghost before = row@;
    let mut idx: usize = left;
    while idx < right
        invariant
            left <= idx,
            idx <= left || idx <= right,
            right <= row.len(),
            before.len() == row.len(),
            forall|i: int|
                0 <= i < before.len() ==> #[trigger] row@[i] == (before[i] || left <= i < idx),
        decreases right - idx,
    {
        row.set(idx, true);
        idx = idx + 1;
    }
}

/// At which corners a column is in use.
fn column_usage(spans: &Vec<KeySpan>, corners: &Timeline, column: usize) -> (row: Vec<bool>)
    ensures
        row.len() == corners@.len(),
        forall|i: int| 0 <= i < row.len() ==> row[i] == in_use(spans@, column, corners@[i]),
{
    let mut row: Vec<bool> = Vec::with_capacity(corners.len());
    let mut i: usize = 0;
    while i < corners.len()
        invariant
            i <= corners@.len(),
            row.len() == i,
            forall|k: int| 0 <= k < i ==> row[k] == false,
        decreases corners@.len() - i,
    {
        row.push(false);
        i = i + 1;
    }
    let mut n: usize = 0;
    while n < spans.len()
        invariant
            n <= spans.len(),
            row.len() == corners@.len(),
            forall|i: int|
                0 <= i < row.len() ==> row[i] == in_use(
                    spans@.take(n as int),
                    column,
                    corners@[i],
                ),
        decreases spans.len() - n,
    {
        let span: KeySpan = spans[n];
        let ghost before = row@;
        if span.column == column {
            let left: usize = corners.lower_bound(span.start);
            let right: usize = corners.lower_bound(span.end);
            mark(&mut row, left, right);
            assert forall|i: int| 0 <= i < row.len() implies row[i] == (before[i] || span.covers(
                corners@[i],
            )) by {
                if i < left {
                    assert(corners@[i].lt(span.start));
                } else if i >= right {
                    assert(!corners@[i].lt(span.end));
                } else {
                    assert(!corners@[i].lt(span.start) && corners@[i].lt(span.end));
                }
            }
        }
        proof {
            let old_spans = spans@.take(n as int);
            let new_spans = spans@.take(n + 1);
            assert forall|i: int| 0 <= i < row.len() implies row[i] == in_use(
                new_spans,
                column,
                corners@[i],
            ) by {
                let corner = corners@[i];
                assert(new_spans[n as int] == span);
                if in_use(old_spans, column, corner) {
                    let k = choose|k: int|
                        0 <= k < old_spans.len() && (#[trigger] old_spans[k]).column == column
                            && old_spans[k].covers(corner);
                    assert(new_spans[k] == old_spans[k]);
                }
                if in_use(new_spans, column, corner) {
                    let k = choose|k: int|
                        0 <= k < new_spans.len() && (#[trigger] new_spans[k]).column == column
                            && new_spans[k].covers(corner);
                    if k < n {
                        assert(new_spans[k] == old_spans[k]);
                    }
                }
            }
        }
        n = n + 1;
    }
    assert(spans@.take(n as int) =~= spans@);
    row
}

/// For each column, at which corners it is in use.
pub fn get_key_usage(spans: &Vec<KeySpan>, corners: &Timeline, total_columns: usize) -> (usage: Vec<
    Vec<bool>,
>)
    ensures
        usage.len() == total_columns,
        forall|c: int|
            0 <= c < total_columns ==> (#[trigger] usage[c]).len() == corners@.len() && forall|i: int|
                0 <= i < corners@.len() ==> #[trigger] usage[c][i] == in_use(
                    spans@,
                    c as usize,
                    corners@[i],
                ),
{
    let mut usage: Vec<Vec<bool>> = Vec::with_capacity(total_columns);
    let mut column: usize = 0;
    while column < total_columns
        invariant
            column <= total_columns,
            usage.len() == column,
            forall|c: int|
                0 <= c < column ==> (#[trigger] usage[c]).len() == corners@.len() && forall|i: int|
                    0 <= i < corners@.len() ==> #[trigger] usage[c][i] == in_use(
                        spans@,
                        c as usize,
                        corners@[i],
                    ),
        decreases total_columns - column,
    {
        let row: Vec<bool> = column_usage(spans, corners, column);
        usage.push(row);
        column = column + 1;
    }
    usage
}

/// Whether every column has an entry for each of `len` corners.
pub open spec fn is_table(usage: Seq<Vec<bool>>, len: nat) -> bool {
    forall|c: int| 0 <= c < usage.len() ==> (#[trigger] usage[c]).len() == len
}

/// Whether `columns` lists, in ascending order, the columns in use at corner `i`.
pub open spec fn lists_active(usage: Seq<Vec<bool>>, i: int, columns: Seq<usize>) -> bool {
    &&& forall|a: int, b: int|
        0 <= a < b < columns.len() ==> (#[trigger] columns[a]) < (#[trigger] columns[b])
    &&& forall|c: usize| #[trigger] columns.contains(c) <==> c < usage.len() && usage[c as int][i]
}

/// The columns in use at one corner.
fn active_at(usage: &Vec<Vec<bool>>, i: usize) -> (columns: Vec<usize>)
    requires
        forall|c: int| 0 <= c < usage.len() ==> i < (#[trigger] usage[c]).len(),
    ensures
        lists_active(usage@, i as int, columns@),
{
    let mut columns: Vec<usize> = Vec::new();
    let mut column: usize = 0;
    while column < usage.len()
        invariant
            column <= usage.len(),
            forall|c: int| 0 <= c < usage.len() ==> i < (#[trigger] usage[c]).len(),
            forall|a: int, b: int|
                0 <= a < b < columns.len() ==> (#[trigger] columns[a]) < (#[trigger] columns[b]),
            forall|a: int| 0 <= a < columns.len() ==> (#[trigger] columns[a]) < column,
            forall|c: usize|
                #[trigger] columns@.contains(c) <==> c < column && usage[c as int][i as int],
        decreases usage.len() - column,
    {
        let ghost before = columns@;
        if usage[column][i] {
            columns.push(column);
            proof {
                crate::order::lemma_push_keeps(before, column);
                assert forall|c: usize| #[trigger] columns@.contains(c) implies c < column + 1
                    && usage[c as int][i as int] by {
                    let k = choose|k: int| 0 <= k < columns.len() && columns[k] == c;
                    if k < before.len() {
                        assert(before[k] == c);
                        assert(before.contains(c));
                    }
                }
            }
        }
        column = column + 1;
    }
    columns
}

/// For each corner, the columns in use there in ascending order.
pub fn active_columns(usage: &Vec<Vec<bool>>, len: usize) -> (active: Vec<Vec<usize>>)
    requires
        is_table(usage@, len as nat),
    ensures
        active.len() == len,
        forall|i: int| 0 <= i < len ==> lists_active(usage@, i, (#[trigger] active[i])@),
{
    let mut active: Vec<Vec<usize>> = Vec::with_capacity(len);
    let mut i: usize = 0;
    while i < len
        invariant
            i <= len,
            is_table(usage@, len as nat),
            active.len() == i,
            forall|k: int| 0 <= k < i ==> lists_active(usage@, k, (#[trigger] active[k])@),
        decreases len - i,
    {
        let columns: Vec<usize> = active_at(usage, i);
        active.push(columns);
        i = i + 1;
    }
    active
}

/// Whether `column` is in use at corner `idx`. No column is left of the first.
pub fn active_columns_contains(active_columns: &Vec<Vec<usize>>, idx: usize, column: isize) -> (answer:
    bool)
    requires
        column >= 0 ==> idx < active_columns.len(),
    ensures
        answer <==> column >= 0 && active_columns[idx as int]@.contains(column as usize),
{
    if column < 0 {
        return false;
    }
    let wanted: usize = column as usize;
    let columns: &Vec<usize> = &active_columns[idx];
    let mut i: usize = 0;
    while i < columns.len()
        invariant
            i <= columns.len(),
            column >= 0,
            wanted == column,
            *columns == active_columns[idx as int],
            forall|k: int| 0 <= k < i ==> columns[k] != wanted,
        decreases columns.len() - i,
    {
        if columns[i] == wanted {
            return true;
        }
        i = i + 1;
    }
    false
}

/// How many columns are in use at corner `i`.
pub open spec fn columns_in_use(usage: Seq<Vec<bool>>, i: int) -> nat
    decreases usage.len(),
{
    if usage.len() == 0 {
        0
    } else {
        columns_in_use(usage.drop_last(), i) + if usage.last()[i] {
            1nat
        } else {
            0nat
        }
    }
}

/// How many keys are in use at corner `i`; at least one.
pub open spec fn keys_in_use(usage: Seq<Vec<bool>>, i: int) -> nat {
    if columns_in_use(usage, i) == 0 {
        1
    } else {
        columns_in_use(usage, i)
    }
}

/// How many of the times are from `low` on and before `high`.
pub open spec fn between(times: Seq<Binary64>, low: Binary64, high: Binary64) -> nat
    decreases times.len(),
{
    if times.len() == 0 {
        0
    } else {
        between(times.drop_last(), low, high) + if low.le(times.last()) && times.last().lt(high) {
            1nat
        } else {
            0nat
        }
    }
}

proof fn lemma_between(times: Seq<Binary64>, low: Binary64, high: Binary64)
    requires
        low.le(high),
        forall|i: int| 0 <= i < times.len() ==> !(#[trigger] times[i]).is_nan(),
    ensures
        below(times, low) + between(times, low, high) == below(times, high),
    decreases times.len(),
{
    if times.len() > 0 {
        let rest = times.drop_last();
        assert forall|i: int| 0 <= i < rest.len() implies !(#[trigger] rest[i]).is_nan() by {
            assert(rest[i] == times[i]);
        }
        lemma_between(rest, low, high);
        assert(!times[times.len() - 1].is_nan());
    }
}

/// How many of the times are from `low` on and before `high`.
pub fn hits_between(times: &Timeline, low: Binary64, high: Binary64) -> (count: usize)
    requires
        low.le(high),
    ensures
        count == between(times@, low, high),
{
    let from: usize = times.lower_bound(low);
    let to: usize = times.lower_bound(high);
    proof {
        assert forall|i: int| 0 <= i < times@.len() implies !(#[trigger] times@[i]).is_nan() by {
            assert(times@[i].le(times@[i]));
        }
        lemma_between(times@, low, high);
    }
    to - from
}

/// How many keys are in use at a corner; at least one.
pub fn keys_at(usage: &Vec<Vec<bool>>, i: usize) -> (keys: usize)
    requires
        forall|c: int| 0 <= c < usage.len() ==> i < (#[trigger] usage[c]).len(),
    ensures
        keys == keys_in_use(usage@, i as int),
{
    let mut count: usize = 0;
    let mut column: usize = 0;
    assert(usage@.take(0) =~= Seq::<Vec<bool>>::empty());
    while column < usage.len()
        invariant
            column <= usage.len(),
            count <= column,
            forall|c: int| 0 <= c < usage.len() ==> i < (#[trigger] usage[c]).len(),
            count == columns_in_use(usage@.take(column as int), i as int),
        decreases usage.len() - column,
    {
        proof {
            assert(usage@.take(column + 1).drop_last() =~= usage@.take(column as int));
            assert(usage@.take(column + 1).last() == usage@[column as int]);
        }
        if usage[column][i] {
            count = count + 1;
        }
        column = column + 1;
    }
    assert(usage@.take(column as int) =~= usage@);
    if count == 0 {
        1
    } else {
        count
    }
}

/// When the notes are hit: the heads of notes sorted by head. A NaN is no time.
pub fn hit_times(data: &RebirthData) -> (times: Timeline)
    requires
        data.wf(),
    ensures
        times@ == heads_of(data.notes@).filter(is_number()),
{
    proof {
        let all = heads_of(data.notes@);
        assert forall|i: int, j: int| 0 <= i < j < all.len() implies (
        #[trigger] all[i]).total_rank() <= (#[trigger] all[j]).total_rank() by {
            assert(data.notes@[i].head.total_rank() <= data.notes@[j].head.total_rank());
        }
    }
    Timeline::numbers_of(&heads(&data.notes))
}

/// When notes are hit or released, in no particular order: heads, then tails.
pub open spec fn hits_and_releases(data: RebirthData) -> Seq<Binary64> {
    heads_of(data.notes@) + ends_of(data.long_notes@)
}

/// Whether `times` are the times in `values` in order. A NaN is no time.
pub open spec fn are_times_of(times: Seq<Binary64>, values: Seq<Binary64>) -> bool {
    exists|sorted: Seq<Binary64>| #[trigger]
        is_sorted_by(sorted, values, ascending_keys(values)) && times == sorted.filter(is_number())
}

/// When notes are hit or released, in order.
pub fn hit_times_v2(data: &RebirthData) -> (times: Timeline)
    ensures
        are_times_of(times@, hits_and_releases(*data)),
{
    let mut times: Vec<Binary64> = heads(&data.notes);
    let releases: Vec<Binary64> = ends(&data.long_notes);
    let ghost before = times@;
    let mut i: usize = 0;
    while i < releases.len()
        invariant
            i <= releases.len(),
            times@ == before + releases@.take(i as int),
        decreases releases.len() - i,
    {
        times.push(releases[i]);
        assert(releases@.take(i + 1) =~= releases@.take(i as int).push(releases@[i as int]));
        i = i + 1;
    }
    assert(releases@.take(i as int) =~= releases@);
    let in_order: Vec<Binary64> = sorted(&times);
    proof {
        sorted_values_climb(in_order@, hits_and_releases(*data));
    }
    Timeline::numbers_of(&in_order)
}

/// Hits and keys around each corner.
pub struct DensityAndKeys {
    /// Hits around the corner, heads only.
    pub density: Vec<usize>,
    /// Hits around the corner, heads and tails.
    pub density_v2: Vec<usize>,
    /// Keys in use at the corner.
    pub keys: Vec<usize>,
}

impl DensityAndKeys {
    /// Whether these are the hits and keys around each corner, where the surroundings of a
    /// corner reach from its entry in `lows` to the one in `highs`.
    pub open spec fn counts(
        self,
        hits: Seq<Binary64>,
        hits_v2: Seq<Binary64>,
        usage: Seq<Vec<bool>>,
        lows: Seq<Binary64>,
        highs: Seq<Binary64>,
    ) -> bool {
        &&& self.density.len() == lows.len()
        &&& self.density_v2.len() == lows.len()
        &&& self.keys.len() == lows.len()
        &&& forall|i: int|
            0 <= i < lows.len() ==> #[trigger] self.density[i] == between(hits, lows[i], highs[i])
        &&& forall|i: int|
            0 <= i < lows.len() ==> #[trigger] self.density_v2[i] == between(
                hits_v2,
                lows[i],
                highs[i],
            )
        &&& forall|i: int| 0 <= i < lows.len() ==> #[trigger] self.keys[i] == keys_in_use(usage, i)
    }
}

/// Counts hits and keys around each corner. `hits` are the heads of the notes, `hits_v2`
/// the heads and tails; `lows` and `highs` say how far the surroundings of a corner reach.
pub fn compute_density_and_keys(
    hits: &Timeline,
    hits_v2: &Timeline,
    usage: &Vec<Vec<bool>>,
    lows: &Vec<Binary64>,
    highs: &Vec<Binary64>,
) -> (result: DensityAndKeys)
    requires
        lows.len() == highs.len(),
        is_table(usage@, lows.len() as nat),
        forall|i: int| 0 <= i < lows.len() ==> (#[trigger] lows[i]).le(highs[i]),
    ensures
        result.counts(hits@, hits_v2@, usage@, lows@, highs@),
{
    let mut density: Vec<usize> = Vec::with_capacity(lows.len());
    let mut density_v2: Vec<usize> = Vec::with_capacity(lows.len());
    let mut keys: Vec<usize> = Vec::with_capacity(lows.len());
    let mut i: usize = 0;
    while i < lows.len()
        invariant
            i <= lows.len(),
            lows.len() == highs.len(),
            is_table(usage@, lows.len() as nat),
            forall|i: int| 0 <= i < lows.len() ==> (#[trigger] lows[i]).le(highs[i]),
            density.len() == i,
            density_v2.len() == i,
            keys.len() == i,
            forall|k: int|
                0 <= k < i ==> #[trigger] density[k] == between(hits@, lows[k], highs[k]),
            forall|k: int|
                0 <= k < i ==> #[trigger] density_v2[k] == between(hits_v2@, lows[k], highs[k]),
            forall|k: int|
                0 <= k < i ==> #[trigger] keys[k] == keys_in_use(usage@, k),
        decreases lows.len() - i,
    {
        density.push(hits_between(hits, lows[i], highs[i]));
        density_v2.push(hits_between(hits_v2, lows[i], highs[i]));
        keys.push(keys_at(usage, i));
        i = i + 1;
    }
    DensityAndKeys { density, density_v2, keys }
}

/// Where a note weighs on its key: the corners from `left` on before `right` while it is
/// held, those from `approach` on before `left` as it comes, and those from `right` on
/// before `decay` after it.
#[derive(Clone, Copy, Debug, PartialEq, Eq, Structural)]
pub struct KeyReach {
    pub approach: usize,
    pub left: usize,
    pub right: usize,
    pub decay: usize,
}

/// Where a note weighs on its key, where `before`, `start`, `end` and `after` are when its
/// approach begins, when it is pressed, when it is released and when its decay ends.
pub open spec fn key_reach_of(
    corners: Seq<Binary64>,
    before: Binary64,
    start: Binary64,
    end: Binary64,
    after: Binary64,
) -> KeyReach {
    KeyReach {
        approach: below(corners, before) as usize,
        left: below(corners, start) as usize,
        right: below(corners, end) as usize,
        decay: below(corners, after) as usize,
    }
}

/// Where a note weighs on its key, where `before`, `start`, `end` and `after` are when its
/// approach begins, when it is pressed, when it is released and when its decay ends.
pub fn key_reach(
    corners: &Timeline,
    before: Binary64,
    start: Binary64,
    end: Binary64,
    after: Binary64,
) -> (reach: KeyReach)
    ensures
        reach == key_reach_of(corners@, before, start, end, after),
        reach.approach <= corners@.len(),
        reach.left <= corners@.len(),
        reach.right <= corners@.len(),
        reach.decay <= corners@.len(),
        before.le(start) && start.le(end) && end.le(after) ==> reach.approach <= reach.left
            <= reach.right <= reach.decay,
{
    proof {
        if before.le(start) && start.le(end) && end.le(after) {
            crate::timeline::lemma_below_monotone(corners@, before, start);
            crate::timeline::lemma_below_monotone(corners@, start, end);
            crate::timeline::lemma_below_monotone(corners@, end, after);
        }
    }
    KeyReach {
        approach: corners.lower_bound(before),
        left: corners.lower_bound(start),
        right: corners.lower_bound(end),
        decay: corners.lower_bound(after),
    }
}

/// Picks the times from `low` on and before `high`.
spec fn in_stretch(low: Binary64, high: Binary64) -> spec_fn(Binary64) -> bool {
    |time: Binary64| low.le(time) && time.lt(high)
}

proof fn lemma_between_is_picked(times: Seq<Binary64>, low: Binary64, high: Binary64)
    ensures
        between(times, low, high) == picked(times, in_stretch(low, high)),
    decreases times.len(),
{
    if times.len() > 0 {
        lemma_between_is_picked(times.drop_last(), low, high);
    }
}

/// NaNs are not counted as hits.
pub proof fn only_times_are_hits(times: Seq<Binary64>, low: Binary64, high: Binary64)
    ensures
        between(times.filter(is_number()), low, high) == between(times, low, high),
{
    let stretch = in_stretch(low, high);
    lemma_between_is_picked(times, low, high);
    lemma_between_is_picked(times.filter(is_number()), low, high);
    lemma_picked_filtered(times, is_number(), stretch);
    lemma_picked_alike(times, |time: Binary64| is_number()(time) && stretch(time), stretch);
}

/// Releases count as additional hits: around any time, the hits of a play that judges
/// releases are the hits of a classic play and the releases.
pub proof fn releases_are_additional_hits(
    data: RebirthData,
    times: Seq<Binary64>,
    low: Binary64,
    high: Binary64,
)
    requires
        hits_and_releases(data).len() <= usize::MAX,
        are_times_of(times, hits_and_releases(data)),
    ensures
        between(times, low, high) == between(heads_of(data.notes@), low, high) + between(
            ends_of(data.long_notes@),
            low,
            high,
        ),
{
    let all = hits_and_releases(data);
    let hits = heads_of(data.notes@);
    let releases = ends_of(data.long_notes@);
    let sorted = choose|sorted: Seq<Binary64>| #[trigger]
        is_sorted_by(sorted, all, ascending_keys(all)) && times == sorted.filter(is_number());
    only_times_are_hits(sorted, low, high);
    lemma_between_is_picked(sorted, low, high);
    lemma_between_is_picked(hits, low, high);
    lemma_between_is_picked(releases, low, high);
    sorting_keeps_what_is_picked(sorted, all, ascending_keys(all), in_stretch(low, high));
    lemma_picked_joined(hits, releases, in_stretch(low, high));
}

/// A note weighs on its key while it is held, as it comes and after it: at each corner by
/// whether it is before the approach, the press, the release or the end of the decay.
pub proof fn notes_reach_the_corners_around_them(
    corners: Seq<Binary64>,
    before: Binary64,
    start: Binary64,
    end: Binary64,
    after: Binary64,
    c: int,
)
    requires
        ascends(corners),
        corners.len() <= usize::MAX,
        0 <= c < corners.len(),
    ensures
        ({
            let reach = key_reach_of(corners, before, start, end, after);
            &&& c < reach.approach <==> corners[c].lt(before)
            &&& c < reach.left <==> corners[c].lt(start)
            &&& c < reach.right <==> corners[c].lt(end)
            &&& c < reach.decay <==> corners[c].lt(after)
        }),
{
    values_below_stand_in_front(corners, before);
    values_below_stand_in_front(corners, start);
    values_below_stand_in_front(corners, end);
    values_below_stand_in_front(corners, after);
}

/// A span covers its start, unless it is empty, and not its end, and two spans that adjoin
/// cover together what the span over both covers, and no corner twice.
pub proof fn spans_adjoin(
    column: usize,
    a: Binary64,
    b: Binary64,
    c: Binary64,
    corner: Binary64,
)
    requires
        a.le(b),
        b.le(c),
    ensures
        (KeySpan { column, start: a, end: b }).covers(a) <==> a.lt(b),
        !(KeySpan { column, start: a, end: b }).covers(b),
        (KeySpan { column, start: a, end: c }).covers(corner) <==> (KeySpan {
            column,
            start: a,
            end: b,
        }).covers(corner) || (KeySpan { column, start: b, end: c }).covers(corner),
        !((KeySpan { column, start: a, end: b }).covers(corner) && (KeySpan {
            column,
            start: b,
            end: c,
        }).covers(corner)),
{
}

/// A column is in use where one of the notes keeps it in use, however the notes are grouped; a
/// single note keeps its own column in use, and no other, where its span covers the corner.
pub proof fn columns_are_in_use_by_any_note(
    a: Seq<KeySpan>,
    b: Seq<KeySpan>,
    span: KeySpan,
    column: usize,
    corner: Binary64,
)
    ensures
        in_use(a + b, column, corner) <==> in_use(a, column, corner) || in_use(b, column, corner),
        in_use(seq![span], column, corner) <==> span.column == column && !corner.lt(span.start)
            && corner.lt(span.end),
        !in_use(Seq::empty(), column, corner),
{
    if in_use(a, column, corner) {
        let k = choose|k: int|
            0 <= k < a.len() && (#[trigger] a[k]).column == column && a[k].covers(corner);
        assert((a + b)[k] == a[k]);
    }
    if in_use(b, column, corner) {
        let k = choose|k: int|
            0 <= k < b.len() && (#[trigger] b[k]).column == column && b[k].covers(corner);
        assert((a + b)[a.len() + k] == b[k]);
    }
    assert(seq![span][0] == span);
}

proof fn lemma_listed_columns(usage: Seq<Vec<bool>>, i: int, columns: Seq<usize>)
    requires
        lists_active(usage, i, columns),
        usage.len() <= usize::MAX,
    ensures
        columns.len() == columns_in_use(usage, i),
    decreases usage.len(),
{
    if usage.len() == 0 {
        if columns.len() > 0 {
            assert(columns.contains(columns[0]));
        }
    } else {
        let rest = usage.drop_last();
        let n = (usage.len() - 1) as usize;
        if usage.last()[i] {
            assert(columns.contains(n));
            let k = choose|k: int| 0 <= k < columns.len() && columns[k] == n;
            if k < columns.len() - 1 {
                assert(columns.contains(columns[columns.len() - 1]));
                assert(columns[k] < columns[columns.len() - 1]);
            }
            let fewer = columns.drop_last();
            assert forall|c: usize| #[trigger]
                fewer.contains(c) <==> c < rest.len() && rest[c as int][i] by {
                if fewer.contains(c) {
                    let j = choose|j: int| 0 <= j < fewer.len() && fewer[j] == c;
                    assert(columns[j] == c);
                    assert(columns.contains(c));
                    assert(columns[j] < columns[k]);
                    assert(rest[c as int] == usage[c as int]);
                } else if c < rest.len() && rest[c as int][i] {
                    assert(usage[c as int] == rest[c as int]);
                    assert(columns.contains(c));
                    let j = choose|j: int| 0 <= j < columns.len() && columns[j] == c;
                    assert(fewer[j] == c);
                }
            }
            lemma_listed_columns(rest, i, fewer);
        } else {
            assert forall|c: usize| #[trigger]
                columns.contains(c) <==> c < rest.len() && rest[c as int][i] by {
                if c < rest.len() {
                    assert(rest[c as int] == usage[c as int]);
                }
            }
            lemma_listed_columns(rest, i, columns);
        }
    }
}

/// As many keys are in use at a corner as columns are listed there; if none is, one counts.
pub proof fn keys_are_the_columns_listed(usage: Seq<Vec<bool>>, i: int, columns: Seq<usize>)
    requires
        lists_active(usage, i, columns),
        usage.len() <= usize::MAX,
    ensures
        columns.len() == columns_in_use(usage, i),
        columns.len() > 0 ==> keys_in_use(usage, i) == columns.len(),
        columns.len() == 0 ==> keys_in_use(usage, i) == 1,
{
    lemma_listed_columns(usage, i, columns);
}

/// The hits of two groups add up, and a single time is a hit exactly if it is from `low` on and
/// before `high`.
pub proof fn hits_add_up(a: Seq<Binary64>, b: Seq<Binary64>, low: Binary64, high: Binary64)
    ensures
        between(a + b, low, high) == between(a, low, high) + between(b, low, high),
        a.len() == 0 ==> between(a, low, high) == 0,
        a.len() == 1 ==> between(a, low, high) <= 1 && (between(a, low, high) == 1 <==> low.le(a[0])
            && a[0].lt(high)),
    decreases b.len(),
{
    if a.len() == 1 {
        assert(a.drop_last() =~= Seq::empty());
        assert(between(a.drop_last(), low, high) == 0);
    }
    if b.len() == 0 {
        assert(a + b =~= a);
    } else {
        assert((a + b).drop_last() =~= a + b.drop_last());
        hits_add_up(a, b.drop_last(), low, high);
    }
}

/// The times of values are in order, none is a NaN, and each value that is none is among them
/// as often as among the values.
pub proof fn times_are_the_values_in_order(
    times: Seq<Binary64>,
    values: Seq<Binary64>,
    pick: spec_fn(Binary64) -> bool,
)
    requires
        values.len() <= usize::MAX,
        are_times_of(times, values),
    ensures
        picked(times, pick) == picked(values, |value: Binary64| !value.is_nan() && pick(value)),
        picked(times, |value: Binary64| value.is_nan()) == 0,
{
    let sorted = choose|sorted: Seq<Binary64>| #[trigger]
        is_sorted_by(sorted, values, ascending_keys(values)) && times == sorted.filter(is_number());
    let both = |value: Binary64| is_number()(value) && pick(value);
    let law = |value: Binary64| !value.is_nan() && pick(value);
    lemma_picked_filtered(sorted, is_number(), pick);
    sorting_keeps_what_is_picked(sorted, values, ascending_keys(values), both);
    lemma_picked_alike(values, both, law);
    let nan = |value: Binary64| value.is_nan();
    let none = |value: Binary64| false;
    lemma_picked_filtered(sorted, is_number(), nan);
    lemma_picked_alike(sorted, |value: Binary64| is_number()(value) && nan(value), none);
    lemma_none_picked(sorted);
}

proof fn lemma_none_picked(values: Seq<Binary64>)
    ensures
        picked(values, |value: Binary64| false) == 0,
    decreases values.len(),
{
    if values.len() > 0 {
        lemma_none_picked(values.drop_last());
    }
}

/// Hits and releases are the heads of all notes and the tails of the holds.
pub proof fn hits_and_releases_are_heads_and_tails(data: RebirthData, i: int)
    requires
        data.wf(),
    ensures
        hits_and_releases(data).len() == data.notes@.len() + data.long_notes@.len(),
        0 <= i < data.notes@.len() ==> hits_and_releases(data)[i] == data.notes@[i].head,
        0 <= i < data.long_notes@.len() ==> hits_and_releases(data)[data.notes@.len() + i]
            == data.long_notes@[i].end(),
{
}

/// Around every corner of a map the density counts the heads of notes, the density of a play
/// that judges releases the tails of holds besides, and the keys are the columns listed there,
/// at least one.
pub proof fn densities_count_heads_and_tails(
    counted: DensityAndKeys,
    data: RebirthData,
    hits: Seq<Binary64>,
    hits_v2: Seq<Binary64>,
    usage: Seq<Vec<bool>>,
    lows: Seq<Binary64>,
    highs: Seq<Binary64>,
    columns: Seq<usize>,
    i: int,
)
    requires
        counted.counts(hits, hits_v2, usage, lows, highs),
        hits == heads_of(data.notes@).filter(is_number()),
        hits_and_releases(data).len() <= usize::MAX,
        are_times_of(hits_v2, hits_and_releases(data)),
        usage.len() <= usize::MAX,
        0 <= i < lows.len(),
        lists_active(usage, i, columns),
    ensures
        counted.density.len() == lows.len() && counted.density_v2.len() == lows.len()
            && counted.keys.len() == lows.len(),
        counted.density[i] == between(heads_of(data.notes@), lows[i], highs[i]),
        counted.density_v2[i] == counted.density[i] + between(
            ends_of(data.long_notes@),
            lows[i],
            highs[i],
        ),
        counted.keys[i] == if columns.len() == 0 {
            1
        } else {
            columns.len()
        },
{
    only_times_are_hits(heads_of(data.notes@), lows[i], highs[i]);
    releases_are_additional_hits(data, hits_v2, lows[i], highs[i]);
    keys_are_the_columns_listed(usage, i, columns);
    assert(counted.density[i] == between(hits, lows[i], highs[i]));
    assert(counted.density_v2[i] == between(hits_v2, lows[i], highs[i]));
    assert(counted.keys[i] == keys_in_use(usage, i));
}

} // verus!
