//! The plan of a difficulty calculation: everything about the curves that is decided
//! before their values are computed.

use crate::binary64::{lemma_size_zero, Binary64};
use crate::interpolate::{cell_of, interp_cells, points_lie_between_their_corners, InterpCell};
use crate::notes::{in_range, is_pair, Note, RebirthData};
use crate::segments::{
    cross_plan, cross_segments_of, heads_of, is_cross_plan, is_damped, jack_segments, segments_of,
    CrossSegment, Segment,
};
use crate::strain::{
    all_neighbours_are_paired, awkward_pairs, awkward_pairs_of, release_plan, ReleasePlan,
};
use crate::timeline::{
    ascends, lower_or_last_of, times_are_looked_up_at_the_next_value, CornerSets, Timeline,
};
use crate::usage::{active_columns, get_key_usage, in_use, lists_active, DensityAndKeys, KeySpan};
use vstd::prelude::*;

verus! {

/// What is decided about the curves.
pub struct CurvePlan {
    /// For each column, at which base corners it is in use.
    pub usage: Vec<Vec<bool>>,
    /// For each base corner, the columns in use there.
    pub active: Vec<Vec<usize>>,
    /// For each column, the segments between its notes.
    pub jacks: Vec<Vec<Segment>>,
    /// For each gap between two columns, the segments between their notes.
    pub crosses: Vec<Vec<CrossSegment>>,
    /// The releases of the holds.
    pub releases: ReleasePlan,
    /// For each awkwardness corner, the base corner where its columns are looked up, and
    /// the neighbours among the columns in use there.
    pub awkward: Vec<(usize, Vec<(usize, usize)>)>,
    /// How the curves over the base corners give values at all corners.
    pub base_cells: Vec<InterpCell>,
    /// How the awkwardness curve gives values at all corners.
    pub awkward_cells: Vec<InterpCell>,
}

impl CurvePlan {
    /// Whether the plan is that of the given notes and corners.
    pub open spec fn plans(
        &self,
        data: RebirthData,
        corners: CornerSets,
        spans: Seq<KeySpan>,
    ) -> bool {
        let base = corners.base@;
        &&& self.usage.len() == data.total_columns
        &&& forall|c: int|
            0 <= c < data.total_columns ==> (#[trigger] self.usage[c]).len() == base.len()
                && forall|i: int|
                0 <= i < base.len() ==> #[trigger] self.usage[c][i] == in_use(
                    spans,
                    c as usize,
                    base[i],
                )
        &&& self.active.len() == base.len()
        &&& forall|i: int|
            0 <= i < base.len() ==> lists_active(self.usage@, i, (#[trigger] self.active[i])@)
        &&& self.jacks.len() == data.total_columns
        &&& forall|c: int|
            0 <= c < data.total_columns ==> (#[trigger] self.jacks[c])@ == segments_of(
                heads_of(data.notes_by_column[c]@),
                base,
            )
        &&& self.crosses.len() == data.total_columns + 1
        &&& forall|p: int|
            0 <= p <= data.total_columns ==> is_cross_plan(
                data,
                base,
                self.active@,
                p as usize,
                (#[trigger] self.crosses[p])@,
            )
        &&& self.releases.plans(data, base)
        &&& self.awkward.len() == corners.awkwardness@.len()
        &&& forall|i: int|
            0 <= i < corners.awkwardness@.len() ==> {
                let (index, pairs) = #[trigger] self.awkward[i];
                &&& index == lower_or_last_of(base, corners.awkwardness@[i])
                &&& pairs@ == awkward_pairs_of(
                    self.active[index as int]@,
                    data.total_columns,
                    self.active[index as int].len() as int,
                )
            }
        &&& self.base_cells.len() == corners.all@.len()
        &&& forall|i: int|
            0 <= i < corners.all@.len() ==> #[trigger] self.base_cells[i] == cell_of(
                corners.all@[i],
                base,
            )
        &&& self.awkward_cells.len() == corners.all@.len()
        &&& forall|i: int|
            0 <= i < corners.all@.len() ==> #[trigger] self.awkward_cells[i] == cell_of(
                corners.all@[i],
                corners.awkwardness@,
            )
    }
}

/// Where the awkwardness corners look up their columns.
fn plan_awkwardness(
    base: &Timeline,
    awkwardness: &Timeline,
    active: &Vec<Vec<usize>>,
    total_columns: usize,
) -> (out: Vec<(usize, Vec<(usize, usize)>)>)
    requires
        base@.len() > 0,
        active.len() == base@.len(),
    ensures
        out.len() == awkwardness@.len(),
        forall|i: int|
            0 <= i < awkwardness@.len() ==> {
                let (index, pairs) = #[trigger] out[i];
                &&& index == lower_or_last_of(base@, awkwardness@[i])
                &&& pairs@ == awkward_pairs_of(
                    active[index as int]@,
                    total_columns,
                    active[index as int].len() as int,
                )
            },
{
    let mut out: Vec<(usize, Vec<(usize, usize)>)> = Vec::with_capacity(awkwardness.len());
    let mut i: usize = 0;
    while i < awkwardness.len()
        invariant
            i <= awkwardness@.len(),
            base@.len() > 0,
            active.len() == base@.len(),
            out.len() == i,
            forall|k: int|
                0 <= k < i ==> {
                    let (index, pairs) = #[trigger] out[k];
                    &&& index == lower_or_last_of(base@, awkwardness@[k])
                    &&& pairs@ == awkward_pairs_of(
                        active[index as int]@,
                        total_columns,
                        active[index as int].len() as int,
                    )
                },
        decreases awkwardness@.len() - i,
    {
        let index: usize = base.lower_or_last(awkwardness.get(i));
        let pairs: Vec<(usize, usize)> = awkward_pairs(&active[index], total_columns);
        out.push((index, pairs));
        i = i + 1;
    }
    out
}

/// Plans the curves of a map. `spans` says from when to when each note keeps its column in
/// use.
pub fn plan_curves(data: &RebirthData, corners: &CornerSets, spans: &Vec<KeySpan>) -> (plan:
    CurvePlan)
    requires
        data.wf(),
        in_range(data.long_notes@, data.total_columns),
        data.total_columns < isize::MAX,
        corners.base@.len() > 0,
    ensures
        plan.plans(*data, *corners, spans@),
{
    let usage: Vec<Vec<bool>> = get_key_usage(spans, &corners.base, data.total_columns);
    let active: Vec<Vec<usize>> = active_columns(&usage, corners.base.len());
    let jacks: Vec<Vec<Segment>> = jack_segments(data, &corners.base);
    let crosses: Vec<Vec<CrossSegment>> = cross_plan(data, &corners.base, &active);
    let releases: ReleasePlan = release_plan(data, &corners.base);
    let awkward: Vec<(usize, Vec<(usize, usize)>)> = plan_awkwardness(
        &corners.base,
        &corners.awkwardness,
        &active,
        data.total_columns,
    );
    let base_cells: Vec<InterpCell> = interp_cells(&corners.all, &corners.base);
    let awkward_cells: Vec<InterpCell> = interp_cells(&corners.all, &corners.awkwardness);
    CurvePlan { usage, active, jacks, crosses, releases, awkward, base_cells, awkward_cells }
}

/// The density that weighs the corners: heads only on a classic play, else heads and tails.
pub open spec fn weighing_density(classic: bool, densities: DensityAndKeys) -> Vec<usize> {
    if classic {
        densities.density
    } else {
        densities.density_v2
    }
}

/// The density that weighs the corners: heads only on a classic play, else heads and tails.
pub fn effective_density<'a>(classic: bool, densities: &'a DensityAndKeys) -> (density: &'a Vec<
    usize,
>)
    ensures
        *density == weighing_density(classic, *densities),
{
    if classic {
        &densities.density
    } else {
        &densities.density_v2
    }
}

/// Whether there is a difficulty to be read off: two corners, and a total weight that is
/// not zero or less.
pub open spec fn is_rated(corners: usize, total_weight: Binary64) -> bool {
    corners >= 2 && !total_weight.le(Binary64 { bits: 0 })
}

/// Whether there is a difficulty to be read off: two corners, and a total weight that is
/// not zero or less.
pub fn has_difficulty(corners: usize, total_weight: Binary64) -> (answer: bool)
    ensures
        answer == is_rated(corners, total_weight),
{
    corners >= 2 && !total_weight.at_most(Binary64::from_bits(0))
}

/// Fewer than two corners have no difficulty, nor has a weight of zero or less; any other
/// corners and weight have.
pub proof fn two_corners_with_weight_are_rated(corners: usize, total_weight: Binary64)
    ensures
        corners == 0 || corners == 1 ==> !is_rated(corners, total_weight),
        !total_weight.is_nan() && total_weight.units() <= 0 ==> !is_rated(corners, total_weight),
        corners > 1 && (total_weight.is_nan() || total_weight.units() > 0) ==> is_rated(
            corners,
            total_weight,
        ),
{
    lemma_size_zero(0);
}

/// A plan lists at each base corner the columns that a note keeps in use there, and at each
/// awkwardness corner all neighbours among the columns in use at the first base corner that is
/// not earlier, else at the last.
pub proof fn plans_list_the_columns_in_use(
    plan: CurvePlan,
    data: RebirthData,
    corners: CornerSets,
    spans: Seq<KeySpan>,
    i: int,
    column: usize,
)
    requires
        plan.plans(data, corners, spans),
        corners.base@.len() > 0,
        ascends(corners.base@),
    ensures
        0 <= i < corners.base@.len() ==> (plan.active[i]@.contains(column) <==> column
            < data.total_columns && in_use(spans, column, corners.base@[i])),
        0 <= i < corners.base@.len() && column < data.total_columns ==> plan.usage[column as int][i]
            == in_use(spans, column, corners.base@[i]),
        0 <= i < corners.awkwardness@.len() ==> {
            let (index, pairs) = plan.awkward[i];
            let active = plan.active[index as int]@;
            &&& index < corners.base@.len()
            &&& forall|k: int|
                0 <= k < index ==> (#[trigger] corners.base@[k]).lt(corners.awkwardness@[i])
            &&& corners.base@[index as int].lt(corners.awkwardness@[i]) ==> index
                == corners.base@.len() - 1
            &&& pairs@.len() == if active.len() == 0 {
                0
            } else {
                active.len() - 1
            }
            &&& forall|k: int|
                0 <= k < active.len() - 1 ==> #[trigger] pairs@[k] == (active[k], active[k + 1])
        },
{
    let base = corners.base@;
    if 0 <= i < base.len() {
        assert(lists_active(plan.usage@, i, plan.active[i]@));
        if column < data.total_columns {
            assert(plan.usage[column as int].len() == base.len());
            assert(plan.usage[column as int][i] == in_use(spans, column, base[i]));
            assert(plan.usage@[column as int] == plan.usage[column as int]);
        }
    }
    if 0 <= i < corners.awkwardness@.len() {
        times_are_looked_up_at_the_next_value(base, corners.awkwardness@[i]);
        let (index, pairs) = plan.awkward[i];
        let active = plan.active[index as int]@;
        assert(lists_active(plan.usage@, index as int, active));
        assert forall|a: int| 0 <= a < active.len() implies (#[trigger] active[a])
            < data.total_columns by {
            assert(active.contains(active[a]));
        }
        all_neighbours_are_paired(active, data.total_columns, active.len() as int);
    }
}

/// A plan reads the curves over the base corners off at the base corners, and the awkwardness
/// curve at the awkwardness corners: at every corner at the last corner that is earlier and the
/// next one, or at the end of the curve that the corner is beyond.
pub proof fn plans_read_each_curve_at_its_corners(
    plan: CurvePlan,
    data: RebirthData,
    corners: CornerSets,
    spans: Seq<KeySpan>,
    i: int,
)
    requires
        plan.plans(data, corners, spans),
        ascends(corners.base@),
        ascends(corners.awkwardness@),
        corners.base@.len() <= usize::MAX,
        corners.awkwardness@.len() <= usize::MAX,
        0 <= i < corners.all@.len(),
        !corners.all@[i].is_nan(),
    ensures
        match plan.base_cells[i] {
            InterpCell::Nowhere => corners.base@.len() == 0,
            InterpCell::At { index } => index == 0 && corners.all@[i].le(corners.base@[0]) || index
                == corners.base@.len() - 1 && corners.base@[index as int].le(corners.all@[i]),
            InterpCell::Between { left } => left + 1 < corners.base@.len()
                && corners.base@[left as int].lt(corners.all@[i]) && corners.all@[i].le(
                corners.base@[left + 1],
            ),
        },
        match plan.awkward_cells[i] {
            InterpCell::Nowhere => corners.awkwardness@.len() == 0,
            InterpCell::At { index } => index == 0 && corners.all@[i].le(corners.awkwardness@[0])
                || index == corners.awkwardness@.len() - 1 && corners.awkwardness@[index as int].le(
                corners.all@[i],
            ),
            InterpCell::Between { left } => left + 1 < corners.awkwardness@.len()
                && corners.awkwardness@[left as int].lt(corners.all@[i]) && corners.all@[i].le(
                corners.awkwardness@[left + 1],
            ),
        },
{
    let x = corners.all@[i];
    points_lie_between_their_corners(x, corners.base@);
    points_lie_between_their_corners(x, corners.awkwardness@);
    if corners.base@.len() > 0 {
        assert(corners.base@[0].le(corners.base@[0]));
        assert(corners.base@[corners.base@.len() - 1].le(corners.base@[corners.base@.len() - 1]));
    }
    if corners.awkwardness@.len() > 0 {
        assert(corners.awkwardness@[0].le(corners.awkwardness@[0]));
        assert(corners.awkwardness@[corners.awkwardness@.len() - 1].le(
            corners.awkwardness@[corners.awkwardness@.len() - 1],
        ));
    }
}

/// On a classic play tails do not weigh, whatever their density is, and on any other play the
/// density of heads and tails weighs alone.
pub proof fn tails_weigh_unless_the_play_is_classic(a: DensityAndKeys, b: DensityAndKeys)
    ensures
        weighing_density(true, a) == a.density,
        weighing_density(false, a) == a.density_v2,
        a.density == b.density ==> weighing_density(true, a) == weighing_density(true, b),
        a.density_v2 == b.density_v2 ==> weighing_density(false, a) == weighing_density(false, b),
{
}

/// A plan has for each column the segments between its notes, for each gap those between the
/// notes beside it, each marked by whether its strain counts less, and the releases of the map.
pub proof fn plans_hold_every_column_and_gap(
    plan: CurvePlan,
    data: RebirthData,
    corners: CornerSets,
    spans: Seq<KeySpan>,
    column: int,
    gap: int,
)
    requires
        plan.plans(data, corners, spans),
        0 <= column < data.total_columns,
        0 <= gap <= data.total_columns,
    ensures
        plan.jacks.len() == data.total_columns,
        plan.jacks[column]@ == segments_of(
            heads_of(data.notes_by_column[column]@),
            corners.base@,
        ),
        plan.crosses.len() == data.total_columns + 1,
        exists|notes: Seq<Note>|
            {
                let segments = segments_of(heads_of(notes), corners.base@);
                &&& #[trigger] is_pair(data, gap as usize, notes)
                &&& plan.crosses[gap]@.len() == segments.len()
                &&& forall|k: int|
                    0 <= k < segments.len() ==> (#[trigger] plan.crosses[gap]@[k]).segment
                        == segments[k] && plan.crosses[gap]@[k].damped == is_damped(
                        plan.active@,
                        segments[k],
                        gap,
                    )
            },
        plan.releases.plans(data, corners.base@),
{
    assert(is_cross_plan(
        data,
        corners.base@,
        plan.active@,
        gap as usize,
        plan.crosses[gap]@,
    ));
    let notes = choose|notes: Seq<Note>|
        #[trigger] is_pair(data, gap as usize, notes) && plan.crosses[gap]@ == cross_segments_of(
            segments_of(heads_of(notes), corners.base@),
            plan.active@,
            gap as usize as int,
        );
    assert(is_pair(data, gap as usize, notes));
}

} // verus!
