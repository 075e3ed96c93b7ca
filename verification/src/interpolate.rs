//! Where a point falls among the corners of a curve.

use crate::binary64::Binary64;
use crate::timeline::{
    ascends, below, lemma_up_to_splits, up_to, values_below_stand_in_front,
    values_up_to_stand_in_front, Timeline,
};
use vstd::prelude::*;

verus! {

/// How the value of a curve at a point follows from the values at its corners.
#[derive(Clone, Copy, Debug, PartialEq, Eq, Structural)]
pub enum InterpCell {
    /// The curve has no corners.
    Nowhere,
    /// The value at a corner.
    At { index: usize },
    /// Between the corners `left` and `left + 1`, which differ.
    Between { left: usize },
}

/// The cell of `x` in a curve with corners at `old_x`.
pub open spec fn cell_of(x: Binary64, old_x: Seq<Binary64>) -> InterpCell {
    if old_x.len() == 0 {
        InterpCell::Nowhere
    } else if x.le(old_x[0]) {
        InterpCell::At { index: 0 }
    } else if old_x.last().le(x) {
        InterpCell::At { index: (old_x.len() - 1) as usize }
    } else {
        let right = below(old_x, x) as int;
        if old_x[right - 1].same_value(old_x[right]) {
            InterpCell::At { index: (right - 1) as usize }
        } else {
            InterpCell::Between { left: (right - 1) as usize }
        }
    }
}

/// The cell of a time in a curve with corners at `old_x`.
fn interp_cell(x: Binary64, old_x: &Timeline) -> (cell: InterpCell)
    requires
        !x.is_nan(),
    ensures
        cell == cell_of(x, old_x@),
        cell matches InterpCell::At { index } ==> index < old_x@.len(),
        cell matches InterpCell::Between { left } ==> left + 1 < old_x@.len(),
{
    if old_x.len() == 0 {
        return InterpCell::Nowhere;
    }
    if x.at_most(old_x.get(0)) {
        return InterpCell::At { index: 0 };
    }
    let last: usize = old_x.len() - 1;
    if old_x.get(last).at_most(x) {
        return InterpCell::At { index: last };
    }
    let right: usize = old_x.lower_bound(x);
    proof {
        assert(old_x@[0].le(old_x@[0]) && old_x@[last as int].le(old_x@[last as int]));
        assert(old_x@[0].lt(x));
        assert(!old_x@[last as int].lt(x));
    }
    if old_x.get(right - 1).equals(old_x.get(right)) {
        InterpCell::At { index: right - 1 }
    } else {
        InterpCell::Between { left: right - 1 }
    }
}

/// The cells of the corners `new_x` in a curve with corners at `old_x`.
pub fn interp_cells(new_x: &Timeline, old_x: &Timeline) -> (cells: Vec<InterpCell>)
    ensures
        cells.len() == new_x@.len(),
        forall|i: int| 0 <= i < cells.len() ==> #[trigger] cells[i] == cell_of(new_x@[i], old_x@),
        forall|i: int|
            0 <= i < cells.len() ==> match #[trigger] cells[i] {
                InterpCell::Nowhere => old_x@.len() == 0,
                InterpCell::At { index } => index < old_x@.len(),
                InterpCell::Between { left } => left + 1 < old_x@.len(),
            },
{
    let mut cells: Vec<InterpCell> = Vec::with_capacity(new_x.len());
    let mut i: usize = 0;
    while i < new_x.len()
        invariant
            i <= new_x@.len(),
            cells.len() == i,
            forall|k: int| 0 <= k < i ==> #[trigger] cells[k] == cell_of(new_x@[k], old_x@),
            forall|k: int|
                0 <= k < i ==> match #[trigger] cells[k] {
                    InterpCell::Nowhere => old_x@.len() == 0,
                    InterpCell::At { index } => index < old_x@.len(),
                    InterpCell::Between { left } => left + 1 < old_x@.len(),
                },
        decreases new_x@.len() - i,
    {
        cells.push(interp_cell(new_x.get(i), old_x));
        i = i + 1;
    }
    cells
}

/// The value at `x` of a curve that keeps each corner's value up to the next corner.
pub open spec fn step_value(
    x: Binary64,
    old_x: Seq<Binary64>,
    old_vals: Seq<Binary64>,
) -> Binary64 {
    if old_x.len() == 0 || old_vals.len() == 0 {
        Binary64 { bits: 0 }
    } else {
        let passed = up_to(old_x, x) as int;
        let index = if passed == 0 {
            0
        } else {
            passed - 1
        };
        old_vals[if index < old_vals.len() {
            index
        } else {
            old_vals.len() - 1
        }]
    }
}

/// The values at `new_x` of a curve that keeps each corner's value up to the next corner.
pub fn step_interp(new_x: &Timeline, old_x: &Timeline, old_vals: &Vec<Binary64>) -> (values: Vec<
    Binary64,
>)
    ensures
        values.len() == new_x@.len(),
        forall|i: int|
            0 <= i < values.len() ==> #[trigger] values[i] == step_value(
                new_x@[i],
                old_x@,
                old_vals@,
            ),
{
    let mut values: Vec<Binary64> = Vec::with_capacity(new_x.len());
    let mut i: usize = 0;
    while i < new_x.len()
        invariant
            i <= new_x@.len(),
            values.len() == i,
            forall|k: int|
                0 <= k < i ==> #[trigger] values[k] == step_value(new_x@[k], old_x@, old_vals@),
        decreases new_x@.len() - i,
    {
        if old_x.len() == 0 || old_vals.len() == 0 {
            values.push(Binary64::from_bits(0));
        } else {
            let passed: usize = old_x.upper_bound(new_x.get(i));
            let index: usize = if passed == 0 {
                0
            } else {
                passed - 1
            };
            values.push(
                old_vals[if index < old_vals.len() {
                    index
                } else {
                    old_vals.len() - 1
                }],
            );
        }
        i = i + 1;
    }
    values
}

/// Up to where the area under a curve is asked for.
#[derive(Clone, Copy, Debug, PartialEq, Eq, Structural)]
pub enum AreaCell {
    /// Before the curve: no area.
    Before,
    /// After the curve: all of it.
    After,
    /// All up to the corner `index` and a part of the step that begins there.
    Within { index: usize },
}

/// The cell of `q` in the area under a curve with corners at `x`.
pub open spec fn area_cell_of(q: Binary64, x: Seq<Binary64>) -> AreaCell {
    if x.len() == 0 || q.le(x[0]) {
        AreaCell::Before
    } else if x.last().le(q) {
        AreaCell::After
    } else {
        AreaCell::Within {
            index: if below(x, q) == 0 {
                0
            } else {
                (below(x, q) - 1) as usize
            },
        }
    }
}

/// The cell of `q` in the area under a curve with corners at `x`.
pub fn area_cell(q: Binary64, x: &Timeline) -> (cell: AreaCell)
    ensures
        cell == area_cell_of(q, x@),
        cell matches AreaCell::Within { index } ==> index < x@.len(),
{
    if x.len() == 0 || q.at_most(x.get(0)) {
        return AreaCell::Before;
    }
    if x.get(x.len() - 1).at_most(q) {
        return AreaCell::After;
    }
    let passed: usize = x.lower_bound(q);
    AreaCell::Within {
        index: if passed == 0 {
            0
        } else {
            passed - 1
        },
    }
}

/// A part of the area under a curve of steps.
#[derive(Clone, Copy, Debug, PartialEq, Eq, Structural)]
pub enum BodySpan {
    /// Nothing.
    Empty,
    /// From `a` to `b`, both on the step `index`.
    Within { index: usize, a: Binary64, b: Binary64 },
    /// From `a` on the step `first` to `b` on the later step `last`.
    Across { first: usize, last: usize, a: Binary64, b: Binary64 },
}

/// `x`, or the bound that it lies beyond.
pub open spec fn clamped(x: Binary64, low: Binary64, high: Binary64) -> Binary64 {
    if x.lt(low) {
        low
    } else if high.lt(x) {
        high
    } else {
        x
    }
}

/// The step on which `x` lies.
pub open spec fn step_of(points: Seq<Binary64>, steps: nat, x: Binary64) -> nat {
    let passed = up_to(points, x);
    let index = if passed == 0 {
        0
    } else {
        (passed - 1) as nat
    };
    if index < steps {
        index
    } else {
        (steps - 1) as nat
    }
}

/// The part from `a` to `b` of a curve with `steps` steps between `points`.
pub open spec fn body_span_of(
    points: Seq<Binary64>,
    steps: nat,
    a: Binary64,
    b: Binary64,
) -> BodySpan {
    if b.le(a) || steps == 0 {
        BodySpan::Empty
    } else {
        let from = clamped(a, points[0], points.last());
        let to = clamped(b, points[0], points.last());
        if to.le(from) {
            BodySpan::Empty
        } else {
            let first = step_of(points, steps, from);
            let last = step_of(points, steps, to);
            if first == last {
                BodySpan::Within { index: first as usize, a: from, b: to }
            } else {
                BodySpan::Across { first: first as usize, last: last as usize, a: from, b: to }
            }
        }
    }
}

fn clamp(x: Binary64, low: Binary64, high: Binary64) -> (result: Binary64)
    ensures
        result == clamped(x, low, high),
{
    if x.less(low) {
        low
    } else if high.less(x) {
        high
    } else {
        x
    }
}

fn step_at(points: &Timeline, steps: usize, x: Binary64) -> (index: usize)
    requires
        steps > 0,
    ensures
        index == step_of(points@, steps as nat, x),
        index < steps,
{
    let passed: usize = points.upper_bound(x);
    let index: usize = if passed == 0 {
        0
    } else {
        passed - 1
    };
    if index < steps {
        index
    } else {
        steps - 1
    }
}

/// The part from `a` to `b` of a curve with `steps` steps between `points`.
pub fn body_span(points: &Timeline, steps: usize, a: Binary64, b: Binary64) -> (span: BodySpan)
    requires
        steps > 0 ==> points@.len() > 0,
    ensures
        span == body_span_of(points@, steps as nat, a, b),
{
    if b.at_most(a) || steps == 0 {
        return BodySpan::Empty;
    }
    let low: Binary64 = points.get(0);
    let high: Binary64 = points.get(points.len() - 1);
    let from: Binary64 = clamp(a, low, high);
    let to: Binary64 = clamp(b, low, high);
    if to.at_most(from) {
        return BodySpan::Empty;
    }
    let first: usize = step_at(points, steps, from);
    let last: usize = step_at(points, steps, to);
    if first == last {
        BodySpan::Within { index: first, a: from, b: to }
    } else {
        BodySpan::Across { first, last, a: from, b: to }
    }
}

/// How much of a step a part of a curve covers, in units of time.
pub open spec fn covered(points: Seq<Binary64>, span: BodySpan, step: int) -> int {
    match span {
        BodySpan::Empty => 0,
        BodySpan::Within { index, a, b } => if step == index {
            b.units() - a.units()
        } else {
            0
        },
        BodySpan::Across { first, last, a, b } => if step == first {
            points[step + 1].units() - a.units()
        } else if step == last {
            b.units() - points[step].units()
        } else if first < step < last {
            points[step + 1].units() - points[step].units()
        } else {
            0
        },
    }
}

/// How much of a step lies between `a` and `b`, in units of time.
pub open spec fn overlap(points: Seq<Binary64>, step: int, a: Binary64, b: Binary64) -> int {
    let from = if a.units() < points[step].units() {
        points[step].units()
    } else {
        a.units()
    };
    let to = if points[step + 1].units() < b.units() {
        points[step + 1].units()
    } else {
        b.units()
    };
    if from < to {
        to - from
    } else {
        0
    }
}

/// The step on which a point of the curve lies begins no later than the point and ends no
/// earlier; it ends later, unless it is the last one.
proof fn lemma_step(points: Seq<Binary64>, steps: nat, x: Binary64)
    requires
        ascends(points),
        points.len() == steps + 1,
        steps > 0,
        points[0].le(x),
        x.le(points.last()),
    ensures
        ({
            let step = step_of(points, steps, x) as int;
            &&& 0 <= step < steps
            &&& points[step].le(x)
            &&& x.le(points[step + 1])
            &&& step + 1 < steps ==> x.lt(points[step + 1])
        }),
{
    lemma_up_to_splits(points, x);
    let passed = up_to(points, x) as int;
    assert(passed >= 1) by {
        if passed == 0 {
            assert(!points[0].le(x));
        }
    }
    if passed - 1 < steps {
        assert(points[passed - 1].le(x));
        assert(!points[passed].le(x));
        assert(points[passed].le(points[passed]));
    } else {
        assert(points[steps - 1].le(x));
    }
}

/// A part of a curve covers of each step what lies between its ends.
pub proof fn part_covers_what_lies_in_it(
    points: Seq<Binary64>,
    steps: nat,
    a: Binary64,
    b: Binary64,
    step: int,
)
    requires
        ascends(points),
        points.len() == steps + 1,
        steps <= usize::MAX,
        !a.is_nan(),
        !b.is_nan(),
        0 <= step < steps,
    ensures
        covered(points, body_span_of(points, steps, a, b), step) == overlap(points, step, a, b),
{
    let low = points[0];
    let high = points.last();
    assert(low.le(points[step]) && points[step].le(points[step + 1]) && points[step + 1].le(high));
    let from = clamped(a, low, high);
    let to = clamped(b, low, high);
    if !b.le(a) && !to.le(from) {
        lemma_step(points, steps, from);
        lemma_step(points, steps, to);
        let first = step_of(points, steps, from) as int;
        let last = step_of(points, steps, to) as int;
        if last < first {
            assert(points[last + 1].le(points[first]));
        }
        if step < first {
            assert(points[step + 1].le(points[first]));
        }
        if first < step {
            assert(points[first + 1].le(points[step]));
        }
        if step < last {
            assert(points[step + 1].le(points[last]));
        }
        if last < step {
            assert(points[last + 1].le(points[step]));
        }
    }
}

/// The parts from `a` to `b` and from `b` to `c` together cover of each step what the part
/// from `a` to `c` covers.
pub proof fn adjoining_parts_make_up_the_whole(
    points: Seq<Binary64>,
    steps: nat,
    a: Binary64,
    b: Binary64,
    c: Binary64,
    step: int,
)
    requires
        ascends(points),
        points.len() == steps + 1,
        steps <= usize::MAX,
        a.le(b),
        b.le(c),
        0 <= step < steps,
    ensures
        covered(points, body_span_of(points, steps, a, b), step) + covered(
            points,
            body_span_of(points, steps, b, c),
            step,
        ) == covered(points, body_span_of(points, steps, a, c), step),
{
    part_covers_what_lies_in_it(points, steps, a, b, step);
    part_covers_what_lies_in_it(points, steps, b, c, step);
    part_covers_what_lies_in_it(points, steps, a, c, step);
    assert(points[step].le(points[step + 1]));
}

/// A part that ends no later than it begins is empty, and a part before the first point or
/// after the last one covers nothing.
pub proof fn parts_outside_cover_nothing(
    points: Seq<Binary64>,
    steps: nat,
    a: Binary64,
    b: Binary64,
    step: int,
)
    requires
        ascends(points),
        points.len() == steps + 1,
        steps <= usize::MAX,
        !a.is_nan(),
        !b.is_nan(),
        0 <= step < steps,
    ensures
        b.le(a) ==> body_span_of(points, steps, a, b) == BodySpan::Empty,
        b.le(points[0]) || points.last().le(a) ==> covered(
            points,
            body_span_of(points, steps, a, b),
            step,
        ) == 0,
{
    part_covers_what_lies_in_it(points, steps, a, b, step);
    assert(points[0].le(points[step]) && points[step + 1].le(points.last()));
}

/// The positions of the changes at one point, in order.
pub open spec fn changes_at(times: Seq<Binary64>, point: Binary64, n: int) -> Seq<usize>
    decreases n,
{
    if n <= 0 {
        Seq::empty()
    } else {
        let rest = changes_at(times, point, n - 1);
        if times[n - 1] == point {
            rest.push((n - 1) as usize)
        } else {
            rest
        }
    }
}

fn changes_at_point(times: &Vec<Binary64>, point: Binary64) -> (out: Vec<usize>)
    ensures
        out@ == changes_at(times@, point, times.len() as int),
{
    let mut out: Vec<usize> = Vec::new();
    let mut i: usize = 0;
    while i < times.len()
        invariant
            i <= times.len(),
            out@ == changes_at(times@, point, i as int),
        decreases times.len() - i,
    {
        if times[i].bits == point.bits {
            out.push(i);
        }
        i = i + 1;
    }
    out
}

/// For each point but the last, the positions of the changes at it.
pub fn changes_by_point(points: &Timeline, times: &Vec<Binary64>) -> (out: Vec<Vec<usize>>)
    ensures
        out.len() == if points@.len() == 0 {
            0
        } else {
            points@.len() - 1
        },
        forall|i: int|
            0 <= i < out.len() ==> (#[trigger] out[i])@ == changes_at(
                times@,
                points@[i],
                times.len() as int,
            ),
{
    let mut out: Vec<Vec<usize>> = Vec::new();
    if points.len() == 0 {
        return out;
    }
    let steps: usize = points.len() - 1;
    let mut i: usize = 0;
    while i < steps
        invariant
            i <= steps,
            steps + 1 == points@.len(),
            out.len() == i,
            forall|k: int|
                0 <= k < out.len() ==> (#[trigger] out[k])@ == changes_at(
                    times@,
                    points@[k],
                    times.len() as int,
                ),
        decreases steps - i,
    {
        let row: Vec<usize> = changes_at_point(times, points.get(i));
        out.push(row);
        i = i + 1;
    }
    out
}

/// A point up to the first corner has the value there, one from the last corner on the value
/// there, and any other lies after one corner and no later than the next.
pub proof fn points_lie_between_their_corners(x: Binary64, old_x: Seq<Binary64>)
    requires
        ascends(old_x),
        old_x.len() <= usize::MAX,
        !x.is_nan(),
    ensures
        old_x.len() == 0 <==> cell_of(x, old_x) == InterpCell::Nowhere,
        old_x.len() > 0 && x.le(old_x[0]) ==> cell_of(x, old_x) == (InterpCell::At { index: 0 }),
        old_x.len() > 0 && old_x[0].lt(x) && old_x[old_x.len() - 1].le(x) ==> {
            cell_of(x, old_x) matches InterpCell::At { index } && index == old_x.len() - 1
        },
        old_x.len() > 0 && old_x[0].lt(x) && x.lt(old_x[old_x.len() - 1]) ==> {
            cell_of(x, old_x) matches InterpCell::Between { left } && left + 1 < old_x.len()
                && old_x[left as int].lt(x) && x.le(old_x[left + 1])
        },
{
    if old_x.len() > 0 {
        values_below_stand_in_front(old_x, x);
        assert(old_x[0].le(old_x[0]));
        assert(old_x[old_x.len() - 1].le(old_x[old_x.len() - 1]));
        if old_x[0].lt(x) && x.lt(old_x[old_x.len() - 1]) {
            let right = below(old_x, x) as int;
            assert(0 < right < old_x.len());
            assert(old_x[right - 1].lt(x));
            assert(!old_x[right].lt(x));
            assert(old_x[right].le(old_x[right]));
        }
    }
}

/// A curve of steps has at a point the value of the last corner that is not later, before the
/// first corner the first value, and beyond its values the last one.
pub proof fn steps_keep_the_value_of_their_corner(
    x: Binary64,
    old_x: Seq<Binary64>,
    old_vals: Seq<Binary64>,
    j: int,
)
    requires
        ascends(old_x),
    ensures
        old_x.len() == 0 || old_vals.len() == 0 ==> step_value(x, old_x, old_vals).bits == 0,
        old_x.len() > 0 && old_vals.len() > 0 && !old_x[0].le(x) ==> step_value(x, old_x, old_vals)
            == old_vals[0],
        0 <= j < old_x.len() && old_x[j].le(x) && (j + 1 < old_x.len() ==> !old_x[j + 1].le(x)) && j
            < old_vals.len() ==> step_value(x, old_x, old_vals) == old_vals[j],
        0 <= j < old_x.len() && old_x[j].le(x) && j >= old_vals.len() > 0 ==> step_value(
            x,
            old_x,
            old_vals,
        ) == old_vals[old_vals.len() - 1],
{
    values_up_to_stand_in_front(old_x, x);
}

/// There is no area up to the first corner and all of it from the last corner on; any other
/// point lies after one corner and no later than the next.
pub proof fn areas_end_within_their_step(q: Binary64, x: Seq<Binary64>)
    requires
        ascends(x),
        x.len() <= usize::MAX,
    ensures
        x.len() == 0 ==> area_cell_of(q, x) == AreaCell::Before,
        x.len() > 0 && q.le(x[0]) ==> area_cell_of(q, x) == AreaCell::Before,
        x.len() > 0 && x[0].lt(q) && x[x.len() - 1].le(q) ==> area_cell_of(q, x) == AreaCell::After,
        x.len() > 0 && x[0].lt(q) && q.lt(x[x.len() - 1]) ==> {
            area_cell_of(q, x) matches AreaCell::Within { index } && index + 1 < x.len()
                && x[index as int].lt(q) && q.le(x[index + 1])
        },
        x.len() > 0 && q.is_nan() ==> area_cell_of(q, x) == (AreaCell::Within { index: 0 }),
{
    if x.len() > 0 {
        values_below_stand_in_front(x, q);
        assert(x[0].le(x[0]));
        assert(x[x.len() - 1].le(x[x.len() - 1]));
        if x[0].lt(q) && q.lt(x[x.len() - 1]) {
            let right = below(x, q) as int;
            assert(0 < right < x.len());
            assert(x[right - 1].lt(q));
            assert(!x[right].lt(q));
            assert(x[right].le(x[right]));
        }
    }
}

/// The changes at a point are all changes at that time, each once and in order.
pub proof fn all_changes_at_a_point_are_listed(times: Seq<Binary64>, point: Binary64, n: int)
    requires
        0 <= n <= times.len() <= usize::MAX,
    ensures
        ({
            let listed = changes_at(times, point, n);
            &&& forall|a: int, b: int|
                0 <= a < b < listed.len() ==> (#[trigger] listed[a]) < (#[trigger] listed[b])
            &&& forall|p: usize| #[trigger]
                listed.contains(p) <==> p < n && times[p as int] == point
        }),
    decreases n,
{
    if n > 0 {
        let rest = changes_at(times, point, n - 1);
        let listed = changes_at(times, point, n);
        all_changes_at_a_point_are_listed(times, point, n - 1);
        assert forall|k: int| 0 <= k < rest.len() implies (#[trigger] rest[k]) < n - 1 by {
            assert(rest.contains(rest[k]));
        }
        if times[n - 1] == point {
            let last = (n - 1) as usize;
            crate::order::lemma_push_keeps(rest, last);
            assert forall|p: usize| #[trigger]
                listed.contains(p) <==> p < n && times[p as int] == point by {
                if listed.contains(p) {
                    let k = choose|k: int| 0 <= k < listed.len() && listed[k] == p;
                    if k < rest.len() {
                        assert(rest[k] == p);
                        assert(rest.contains(p));
                    }
                } else if p < n - 1 {
                    assert(!rest.contains(p));
                }
            }
        } else {
            assert forall|p: usize| #[trigger]
                listed.contains(p) <==> p < n && times[p as int] == point by {
                assert(rest.contains(p) <==> p < n - 1 && times[p as int] == point);
            }
        }
    }
}

/// A point lies on the step of the last corner that is not later, before the first corner on the
/// first step, and beyond the last step on that.
pub proof fn points_lie_on_their_step(points: Seq<Binary64>, steps: nat, x: Binary64, j: int)
    requires
        ascends(points),
        steps > 0,
    ensures
        step_of(points, steps, x) < steps,
        points.len() == 0 || !points[0].le(x) ==> step_of(points, steps, x) == 0,
        0 <= j < points.len() && points[j].le(x) && (j + 1 < points.len() ==> !points[j + 1].le(x))
            && j < steps ==> step_of(points, steps, x) == j,
        0 <= j < points.len() && points[j].le(x) && j >= steps ==> step_of(points, steps, x) == steps
            - 1,
{
    values_up_to_stand_in_front(points, x);
}

/// A point between the bounds stays where it is; one beyond a bound is brought there.
pub proof fn points_are_brought_between_the_bounds(x: Binary64, low: Binary64, high: Binary64)
    requires
        low.le(high),
    ensures
        low.le(x) && x.le(high) ==> clamped(x, low, high) == x,
        x.lt(low) ==> clamped(x, low, high) == low,
        high.lt(x) ==> clamped(x, low, high) == high,
        x.is_nan() ==> clamped(x, low, high) == x,
{
}

/// A part of a curve that is not empty begins at `a` and ends at `b`, each brought between the
/// first and the last point, on the steps on which these lie. A part is empty exactly if it ends
/// no later than it begins, before or after that, or there are no steps.
pub proof fn parts_begin_and_end_on_their_steps(
    points: Seq<Binary64>,
    steps: nat,
    a: Binary64,
    b: Binary64,
)
    requires
        steps <= usize::MAX,
    ensures
        ({
            let from = clamped(a, points[0], points[points.len() - 1]);
            let to = clamped(b, points[0], points[points.len() - 1]);
            match body_span_of(points, steps, a, b) {
                BodySpan::Empty => steps == 0 || b.le(a) || to.le(from),
                BodySpan::Within { index, a: begin, b: end } => {
                    &&& begin == from && end == to && !to.le(from) && !b.le(a) && steps > 0
                    &&& index == step_of(points, steps, from)
                    &&& index == step_of(points, steps, to)
                },
                BodySpan::Across { first, last, a: begin, b: end } => {
                    &&& begin == from && end == to && !to.le(from) && !b.le(a) && steps > 0
                    &&& first == step_of(points, steps, from)
                    &&& last == step_of(points, steps, to)
                    &&& first != last
                },
            }
        }),
{
}

} // verus!
