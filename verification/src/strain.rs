//! Which notes strain which corners: streams, releases and awkward pairs.

use crate::binary64::{lemma_size_strictly_increases, Binary64};
use crate::notes::{
    find_next_note_in_column, in_range, note_after, notes_of_a_column_follow_one_another,
    starting_before, tail_keys, Note, RebirthData,
};
use crate::order::{arranged, is_stable_order, lemma_push_keeps};
use crate::segments::{ends, ends_of, runs_over, segment_at, segments, segments_of, Segment};
use crate::timeline::{
    ascends, below, up_to, values_below_stand_in_front, values_up_to_stand_in_front, Timeline,
};
use vstd::prelude::*;

verus! {

/// The bits of `1e-9`: notes less than this many ms apart are one chord.
pub const CHORD_GAP: u64 = 0x3e11_2e0b_e826_d695;

/// What a note adds to the stream curve.
#[derive(Clone, Copy, Debug, PartialEq, Eq, Structural)]
pub enum StreamStep {
    /// The next note is in the same chord: a spike at the corners `left..right`.
    Chord { left: usize, right: usize },
    /// The next note is later: a step over the corners in between.
    Run { segment: Segment },
}

/// What the first `n` notes add to the stream curve, in order. `gaps` says how long
/// after each note the next one comes.
pub open spec fn stream_steps_of(
    heads: Seq<Binary64>,
    gaps: Seq<Binary64>,
    corners: Seq<Binary64>,
    n: int,
) -> Seq<StreamStep>
    decreases n,
{
    if n <= 0 {
        Seq::empty()
    } else {
        let rest = stream_steps_of(heads, gaps, corners, n - 1);
        let segment = segment_at(heads, n - 1, corners);
        if gaps[n - 1].lt(Binary64 { bits: CHORD_GAP }) {
            rest.push(
                StreamStep::Chord {
                    left: below(corners, heads[n - 1]) as usize,
                    right: up_to(corners, heads[n - 1]) as usize,
                },
            )
        } else if segment.left < segment.right {
            rest.push(StreamStep::Run { segment })
        } else {
            rest
        }
    }
}

/// What the notes add to the stream curve, in order. `gaps` says how long after each
/// note the next one comes.
pub fn stream_steps(heads: &Vec<Binary64>, gaps: &Vec<Binary64>, corners: &Timeline) -> (out: Vec<
    StreamStep,
>)
    requires
        gaps.len() > 0 ==> gaps.len() < heads.len(),
    ensures
        out@ == stream_steps_of(heads@, gaps@, corners@, gaps.len() as int),
{
    let mut out: Vec<StreamStep> = Vec::new();
    let mut i: usize = 0;
    while i < gaps.len()
        invariant
            i <= gaps.len(),
            gaps.len() > 0 ==> gaps.len() < heads.len(),
            out@ == stream_steps_of(heads@, gaps@, corners@, i as int),
        decreases gaps.len() - i,
    {
        let start: Binary64 = heads[i];
        let left: usize = corners.lower_bound(start);
        if gaps[i].less(Binary64::from_bits(CHORD_GAP)) {
            let right: usize = corners.upper_bound(start);
            out.push(StreamStep::Chord { left, right });
        } else {
            let end: Binary64 = heads[i + 1];
            let right: usize = corners.lower_bound(end);
            if left < right {
                out.push(StreamStep::Run { segment: Segment { index: i, start, end, left, right } });
            }
        }
        i = i + 1;
    }
    out
}

/// What the release curve is made of.
pub struct ReleasePlan {
    /// For each hold by tail, when the next note of its column starts.
    pub next_heads: Vec<Option<Binary64>>,
    /// The segments between consecutive tails.
    pub segments: Vec<Segment>,
}

impl ReleasePlan {
    /// Whether the plan is that of the given notes and corners.
    pub open spec fn plans(&self, data: RebirthData, corners: Seq<Binary64>) -> bool {
        &&& self.next_heads.len() == data.tails.len()
        &&& forall|i: int|
            0 <= i < data.tails.len() ==> #[trigger] self.next_heads[i] == next_head(
                data.notes_by_column@,
                data.tails[i],
            )
        &&& self.segments@ == segments_of(ends_of(data.tails@), corners)
    }
}

/// When the note after `note` in its column starts.
pub open spec fn next_head(columns: Seq<Vec<Note>>, note: Note) -> Option<Binary64> {
    let notes = columns[note.column as int]@;
    let index = starting_before(notes, note.head) + 1;
    if index < notes.len() {
        Some(notes[index as int].head)
    } else {
        None
    }
}

proof fn lemma_tails_in_range(data: RebirthData)
    requires
        data.wf(),
        in_range(data.long_notes@, data.total_columns),
    ensures
        in_range(data.tails@, data.total_columns),
{
    let keys = tail_keys(data.long_notes@);
    let order = choose|order: Seq<usize>|
        #[trigger] is_stable_order(keys, order) && data.tails@ == arranged(
            data.long_notes@,
            order,
        );
    assert forall|i: int| 0 <= i < data.tails@.len() implies (#[trigger] data.tails@[i]).column
        < data.total_columns by {
        assert(order[i] < keys.len());
        assert(data.tails@[i] == data.long_notes@[order[i] as int]);
    }
}

/// The releases of the holds.
pub fn release_plan(data: &RebirthData, corners: &Timeline) -> (plan: ReleasePlan)
    requires
        data.wf(),
        in_range(data.long_notes@, data.total_columns),
    ensures
        plan.plans(*data, corners@),
{
    proof {
        lemma_tails_in_range(*data);
    }
    let mut next_heads: Vec<Option<Binary64>> = Vec::with_capacity(data.tails.len());
    let mut i: usize = 0;
    while i < data.tails.len()
        invariant
            i <= data.tails.len(),
            data.wf(),
            in_range(data.tails@, data.total_columns),
            next_heads.len() == i,
            forall|k: int|
                0 <= k < i ==> #[trigger] next_heads[k] == next_head(
                    data.notes_by_column@,
                    data.tails[k],
                ),
        decreases data.tails.len() - i,
    {
        let tail: Note = data.tails[i];
        assert(data.tails@[i as int].column < data.total_columns);
        let next: Option<Binary64> = match find_next_note_in_column(
            tail,
            &data.notes_by_column[tail.column],
        ) {
            Some(note) => Some(note.head),
            None => None,
        };
        next_heads.push(next);
        i = i + 1;
    }
    let times: Vec<Binary64> = ends(&data.tails);
    ReleasePlan { next_heads, segments: segments(&times, corners) }
}

/// The neighbours among the active columns, in order. The last column has no successor.
pub open spec fn awkward_pairs_of(active: Seq<usize>, total_columns: usize, n: int) -> Seq<
    (usize, usize),
>
    decreases n,
{
    if n < 2 {
        Seq::empty()
    } else {
        let rest = awkward_pairs_of(active, total_columns, n - 1);
        if active[n - 2] + 1 < total_columns && active[n - 1] < total_columns {
            rest.push((active[n - 2], active[n - 1]))
        } else {
            rest
        }
    }
}

/// The neighbours among the active columns, in order.
pub fn awkward_pairs(active: &Vec<usize>, total_columns: usize) -> (pairs: Vec<(usize, usize)>)
    ensures
        pairs@ == awkward_pairs_of(active@, total_columns, active.len() as int),
{
    let mut pairs: Vec<(usize, usize)> = Vec::new();
    if active.len() < 2 {
        return pairs;
    }
    let mut n: usize = 1;
    while n < active.len()
        invariant
            1 <= n <= active.len(),
            pairs@ == awkward_pairs_of(active@, total_columns, n as int),
        decreases active.len() - n,
    {
        let k0: usize = active[n - 1];
        let k1: usize = active[n];
        if total_columns > 0 && k0 < total_columns - 1 && k1 < total_columns {
            pairs.push((k0, k1));
        }
        n = n + 1;
    }
    pairs
}

/// The bits of `0.02`.
pub const AWKWARD_CLOSE: u64 = 0x3f94_7ae1_47ae_147b;

/// The bits of `0.07`.
pub const AWKWARD_NEAR: u64 = 0x3fb1_eb85_1eb8_51ec;

/// How alike the rhythms of two neighbouring columns are.
#[derive(Clone, Copy, Debug, PartialEq, Eq, Structural)]
pub enum AwkwardBand {
    /// Less than 0.02 apart.
    Close,
    /// Less than 0.07 apart.
    Near,
    /// Further apart: the pair does not count.
    Apart,
}

/// How alike two rhythms are that differ by `difference`.
pub open spec fn awkward_band_of(difference: Binary64) -> AwkwardBand {
    if difference.lt(Binary64 { bits: AWKWARD_CLOSE }) {
        AwkwardBand::Close
    } else if difference.lt(Binary64 { bits: AWKWARD_NEAR }) {
        AwkwardBand::Near
    } else {
        AwkwardBand::Apart
    }
}

/// How alike two rhythms are that differ by `difference`.
pub fn awkward_band(difference: Binary64) -> (band: AwkwardBand)
    ensures
        band == awkward_band_of(difference),
{
    if difference.less(Binary64::from_bits(AWKWARD_CLOSE)) {
        AwkwardBand::Close
    } else if difference.less(Binary64::from_bits(AWKWARD_NEAR)) {
        AwkwardBand::Near
    } else {
        AwkwardBand::Apart
    }
}

/// Whether the gap after note `i` adds to the stream curve: the next note is in the same
/// chord, or there is a corner in between.
pub open spec fn gap_adds(
    heads: Seq<Binary64>,
    gaps: Seq<Binary64>,
    corners: Seq<Binary64>,
    i: int,
) -> bool {
    gaps[i].lt(Binary64 { bits: 0x3e11_2e0b_e826_d695 }) || exists|c: int|
        0 <= c < corners.len() && runs_over(heads, i, #[trigger] corners[c])
}

/// Whether `step` is what the gap after note `i` adds: a spike at the corners that are at the
/// head of the note, if the next one is less than `1e-9` ms later; else a run over all corners
/// from the note on, before the next one.
pub open spec fn step_answers_gap(
    step: StreamStep,
    heads: Seq<Binary64>,
    gaps: Seq<Binary64>,
    corners: Seq<Binary64>,
    i: int,
) -> bool {
    if gaps[i].lt(Binary64 { bits: 0x3e11_2e0b_e826_d695 }) {
        step matches StreamStep::Chord { left, right } && forall|c: int|
            0 <= c < corners.len() ==> (left <= c < right <==> (
            #[trigger] corners[c]).same_value(heads[i]))
    } else {
        step matches StreamStep::Run { segment } && segment.index == i && segment.start == heads[i]
            && segment.end == heads[i + 1] && forall|c: int|
            0 <= c < corners.len() ==> (segment.left <= c < segment.right <==> runs_over(
                heads,
                i,
                #[trigger] corners[c],
            ))
    }
}

proof fn lemma_sources(
    heads: Seq<Binary64>,
    gaps: Seq<Binary64>,
    corners: Seq<Binary64>,
    n: int,
) -> (sources: Seq<int>)
    requires
        ascends(corners),
        corners.len() <= usize::MAX,
        heads.len() <= usize::MAX,
        0 <= n <= gaps.len(),
        gaps.len() < heads.len(),
    ensures
        sources.len() == stream_steps_of(heads, gaps, corners, n).len(),
        forall|a: int, b: int|
            0 <= a < b < sources.len() ==> (#[trigger] sources[a]) < (#[trigger] sources[b]),
        forall|k: int| 0 <= k < sources.len() ==> 0 <= #[trigger] sources[k] < n,
        forall|i: int|
            0 <= i < n ==> (#[trigger] gap_adds(heads, gaps, corners, i) <==> sources.contains(i)),
        forall|k: int|
            0 <= k < sources.len() ==> step_answers_gap(
                stream_steps_of(heads, gaps, corners, n)[k],
                heads,
                gaps,
                corners,
                #[trigger] sources[k],
            ),
    decreases n,
{
    if n <= 0 {
        Seq::empty()
    } else {
        let i = n - 1;
        let fewer = lemma_sources(heads, gaps, corners, i);
        let before = stream_steps_of(heads, gaps, corners, i);
        let after = stream_steps_of(heads, gaps, corners, n);
        values_below_stand_in_front(corners, heads[i]);
        values_below_stand_in_front(corners, heads[i + 1]);
        values_up_to_stand_in_front(corners, heads[i]);
        assert forall|c: int| 0 <= c < corners.len() implies !(#[trigger] corners[c]).is_nan() by {
            assert(corners[c].le(corners[c]));
        }
        let left = below(corners, heads[i]) as int;
        let right = below(corners, heads[i + 1]) as int;
        assert forall|c: int| 0 <= c < corners.len() implies (left <= c < right <==> runs_over(
            heads,
            i,
            #[trigger] corners[c],
        )) by {}
        assert(gap_adds(heads, gaps, corners, i) <==> after.len() == before.len() + 1) by {
            if left < right {
                assert(runs_over(heads, i, corners[left]));
            }
        }
        assert(!fewer.contains(i)) by {
            if fewer.contains(i) {
                let k = choose|k: int| 0 <= k < fewer.len() && fewer[k] == i;
                assert(fewer[k] < i);
            }
        }
        if gap_adds(heads, gaps, corners, i) {
            let sources = fewer.push(i);
            lemma_push_keeps(fewer, i);
            assert forall|j: int| 0 <= j < n implies (#[trigger] gap_adds(heads, gaps, corners, j)
                <==> sources.contains(j)) by {
                if j < i && sources.contains(j) {
                    let k = choose|k: int| 0 <= k < sources.len() && sources[k] == j;
                    assert(fewer[k] == j);
                }
            }
            assert forall|k: int| 0 <= k < sources.len() implies step_answers_gap(
                after[k],
                heads,
                gaps,
                corners,
                #[trigger] sources[k],
            ) by {
                if k < fewer.len() {
                    assert(sources[k] == fewer[k] && after[k] == before[k]);
                }
            }
            sources
        } else {
            fewer
        }
    }
}

/// Every gap between two notes adds to the stream curve, whatever the other gaps are: one
/// step, in order, for each gap within a chord and for each gap that holds a corner, and no
/// other.
pub proof fn every_gap_adds_to_the_stream(
    heads: Seq<Binary64>,
    gaps: Seq<Binary64>,
    corners: Seq<Binary64>,
)
    requires
        ascends(corners),
        corners.len() <= usize::MAX,
        heads.len() <= usize::MAX,
        gaps.len() < heads.len(),
    ensures
        exists|sources: Seq<int>|
            {
                &&& #[trigger] sources.len() == stream_steps_of(
                    heads,
                    gaps,
                    corners,
                    gaps.len() as int,
                ).len()
                &&& forall|a: int, b: int|
                    0 <= a < b < sources.len() ==> (#[trigger] sources[a]) < (#[trigger] sources[b])
                &&& forall|k: int| 0 <= k < sources.len() ==> 0 <= #[trigger] sources[k] < gaps.len()
                &&& forall|i: int|
                    0 <= i < gaps.len() ==> (#[trigger] gap_adds(heads, gaps, corners, i)
                        <==> sources.contains(i))
                &&& forall|k: int|
                    0 <= k < sources.len() ==> step_answers_gap(
                        stream_steps_of(heads, gaps, corners, gaps.len() as int)[k],
                        heads,
                        gaps,
                        corners,
                        #[trigger] sources[k],
                    )
            },
{
    let sources = lemma_sources(heads, gaps, corners, gaps.len() as int);
    assert(sources.len() == stream_steps_of(heads, gaps, corners, gaps.len() as int).len());
}

/// A pair of columns counts exactly if their rhythms are less than 0.07 apart, and counts in
/// full exactly if they are less than 0.02 apart. Closer rhythms are no worse off.
pub proof fn closer_rhythms_count_more(a: Binary64, b: Binary64)
    ensures
        awkward_band_of(a) == AwkwardBand::Close <==> a.lt(
            Binary64 { bits: 0x3f94_7ae1_47ae_147b },
        ),
        awkward_band_of(a) != AwkwardBand::Apart <==> a.lt(
            Binary64 { bits: 0x3fb1_eb85_1eb8_51ec },
        ),
        a.le(b) && awkward_band_of(b) == AwkwardBand::Close ==> awkward_band_of(a)
            == AwkwardBand::Close,
        a.le(b) && awkward_band_of(b) == AwkwardBand::Near ==> awkward_band_of(a)
            != AwkwardBand::Apart,
{
    lemma_size_strictly_increases(0x3f94_7ae1_47ae_147b, 0x3fb1_eb85_1eb8_51ec);
}

/// Every two neighbours among the columns in use are a pair, however far apart they are and
/// wherever they lie: the columns in use make one pair less than they are.
pub proof fn all_neighbours_are_paired(active: Seq<usize>, total_columns: usize, n: int)
    requires
        0 <= n <= active.len(),
        forall|a: int, b: int|
            0 <= a < b < active.len() ==> (#[trigger] active[a]) < (#[trigger] active[b]),
        forall|a: int| 0 <= a < active.len() ==> (#[trigger] active[a]) < total_columns,
    ensures
        awkward_pairs_of(active, total_columns, n).len() == if n == 0 {
            0
        } else {
            n - 1
        },
        forall|k: int|
            0 <= k < n - 1 ==> #[trigger] awkward_pairs_of(active, total_columns, n)[k] == (
                active[k],
                active[k + 1],
            ),
    decreases n,
{
    if n >= 2 {
        all_neighbours_are_paired(active, total_columns, n - 1);
        assert(active[n - 2] < active[n - 1]);
    }
}

/// After each note of a column comes the one that starts next, and after the last none, if no
/// two notes of the column start at the same time.
pub proof fn releases_look_to_the_next_note(columns: Seq<Vec<Note>>, column: int, k: int)
    requires
        0 <= column < columns.len(),
        0 <= k < columns[column]@.len(),
        columns[column]@[k].column == column,
        forall|i: int, j: int|
            0 <= i < j < columns[column]@.len() ==> (#[trigger] columns[column]@[i]).head.lt(
                (#[trigger] columns[column]@[j]).head,
            ),
    ensures
        next_head(columns, columns[column]@[k]) == if k + 1 < columns[column]@.len() {
            Some(columns[column]@[k + 1].head)
        } else {
            None::<Binary64>
        },
{
    notes_of_a_column_follow_one_another(columns[column]@, k);
}

/// A plan of releases looks for each hold, by tail, to the next note of its column, and runs
/// between consecutive tails.
pub proof fn releases_are_planned_by_tail(
    plan: ReleasePlan,
    data: RebirthData,
    corners: Seq<Binary64>,
    i: int,
)
    requires
        data.wf(),
        plan.plans(data, corners),
        0 <= i < data.tails@.len(),
    ensures
        plan.next_heads.len() == data.tails@.len(),
        plan.next_heads[i] == match note_after(
            data.tails@[i],
            data.notes_by_column[data.tails@[i].column as int]@,
        ) {
            Some(next) => Some(next.head),
            None => None::<Binary64>,
        },
        plan.segments@ == segments_of(ends_of(data.tails@), corners),
{
}

/// Whether the columns at `k` and `k + 1` of a list are a pair: the first is not the last column
/// of the map, and both are columns of it.
pub open spec fn makes_a_pair(active: Seq<usize>, total_columns: usize, k: int) -> bool {
    active[k] + 1 < total_columns && active[k + 1] < total_columns
}

proof fn lemma_pair_sources(active: Seq<usize>, total_columns: usize, n: int) -> (sources: Seq<int>)
    requires
        0 <= n <= active.len(),
    ensures
        sources.len() == awkward_pairs_of(active, total_columns, n).len(),
        forall|a: int, b: int|
            0 <= a < b < sources.len() ==> (#[trigger] sources[a]) < (#[trigger] sources[b]),
        forall|j: int|
            0 <= j < sources.len() ==> 0 <= (#[trigger] sources[j]) < n - 1 && awkward_pairs_of(
                active,
                total_columns,
                n,
            )[j] == (active[sources[j]], active[sources[j] + 1]),
        forall|k: int|
            0 <= k < n - 1 ==> (#[trigger] makes_a_pair(active, total_columns, k)
                <==> sources.contains(k)),
    decreases n,
{
    if n < 2 {
        Seq::empty()
    } else {
        let fewer = lemma_pair_sources(active, total_columns, n - 1);
        let before = awkward_pairs_of(active, total_columns, n - 1);
        let after = awkward_pairs_of(active, total_columns, n);
        let last = n - 2;
        assert(!fewer.contains(last)) by {
            if fewer.contains(last) {
                let j = choose|j: int| 0 <= j < fewer.len() && fewer[j] == last;
                assert(fewer[j] < last);
            }
        }
        if makes_a_pair(active, total_columns, last) {
            let sources = fewer.push(last);
            lemma_push_keeps(fewer, last);
            assert forall|k: int| 0 <= k < n - 1 implies (#[trigger] makes_a_pair(
                active,
                total_columns,
                k,
            ) <==> sources.contains(k)) by {
                if k < last && sources.contains(k) {
                    let j = choose|j: int| 0 <= j < sources.len() && sources[j] == k;
                    assert(fewer[j] == k);
                }
            }
            assert forall|j: int| 0 <= j < sources.len() implies 0 <= (#[trigger] sources[j]) < n - 1
                && after[j] == (active[sources[j]], active[sources[j] + 1]) by {
                if j < fewer.len() {
                    assert(sources[j] == fewer[j] && after[j] == before[j]);
                }
            }
            sources
        } else {
            fewer
        }
    }
}

/// Of any columns, the neighbours in the list are paired, in order, if the first is not the last
/// column of the map and both are columns of it; and no others are.
pub proof fn neighbours_within_the_map_are_paired(active: Seq<usize>, total_columns: usize)
    ensures
        exists|sources: Seq<int>|
            {
                let pairs = awkward_pairs_of(active, total_columns, active.len() as int);
                &&& #[trigger] sources.len() == pairs.len()
                &&& forall|a: int, b: int|
                    0 <= a < b < sources.len() ==> (#[trigger] sources[a]) < (#[trigger] sources[b])
                &&& forall|j: int|
                    0 <= j < sources.len() ==> 0 <= (#[trigger] sources[j]) < active.len() - 1
                        && pairs[j] == (active[sources[j]], active[sources[j] + 1])
                &&& forall|k: int|
                    0 <= k < active.len() - 1 ==> (#[trigger] makes_a_pair(
                        active,
                        total_columns,
                        k,
                    ) <==> sources.contains(k))
            },
{
    let sources = lemma_pair_sources(active, total_columns, active.len() as int);
    assert(sources.len() == awkward_pairs_of(active, total_columns, active.len() as int).len());
}

} // verus!
