//! Ascending sequences of times and searches in them.

use crate::binary64::{lemma_rank_order, lemma_size_zero, Binary64};
use crate::order::{is_stable_order, lemma_push_keeps, precedes, stable_order, SortKey};
use vstd::prelude::*;

verus! {

/// Whether the values ascend and none is a NaN.
pub open spec fn ascends(times: Seq<Binary64>) -> bool {
    forall|i: int, j: int| 0 <= i <= j < times.len() ==> (#[trigger] times[i]).le(#[trigger] times[j])
}

/// Whether the values strictly ascend in the total order.
pub open spec fn strictly_ascends(times: Seq<Binary64>) -> bool {
    forall|i: int, j: int|
        0 <= i < j < times.len() ==> (#[trigger] times[i]).total_rank() < (
        #[trigger] times[j]).total_rank()
}

/// Whether no value comes after a later one in the total order.
pub open spec fn climbs(times: Seq<Binary64>) -> bool {
    forall|i: int, j: int|
        0 <= i < j < times.len() ==> (#[trigger] times[i]).total_rank() <= (
        #[trigger] times[j]).total_rank()
}

/// Picks the values that are no NaNs.
pub open spec fn is_number() -> spec_fn(Binary64) -> bool {
    |value: Binary64| !value.is_nan()
}

/// How many of the values are less than `x`.
pub open spec fn below(times: Seq<Binary64>, x: Binary64) -> nat
    decreases times.len(),
{
    if times.len() == 0 {
        0
    } else {
        below(times.drop_last(), x) + if times.last().lt(x) {
            1nat
        } else {
            0nat
        }
    }
}

/// How many of the values are at most `x`.
pub open spec fn up_to(times: Seq<Binary64>, x: Binary64) -> nat
    decreases times.len(),
{
    if times.len() == 0 {
        0
    } else {
        up_to(times.drop_last(), x) + if times.last().le(x) {
            1nat
        } else {
            0nat
        }
    }
}

/// A later time has no fewer values below it.
pub proof fn lemma_below_monotone(times: Seq<Binary64>, a: Binary64, b: Binary64)
    requires
        a.le(b),
    ensures
        below(times, a) <= below(times, b),
    decreases times.len(),
{
    if times.len() > 0 {
        lemma_below_monotone(times.drop_last(), a, b);
    }
}

/// Where the first of ascending values stands that is not below `x`, else the last.
pub open spec fn lower_or_last_of(times: Seq<Binary64>, x: Binary64) -> int {
    if below(times, x) < times.len() {
        below(times, x) as int
    } else {
        times.len() - 1
    }
}

/// A sequence split at `r` into values less than `x` and others has `r` values below `x`.
pub proof fn lemma_below_is_split(times: Seq<Binary64>, x: Binary64, r: int)
    requires
        0 <= r <= times.len(),
        forall|i: int| 0 <= i < r ==> (#[trigger] times[i]).lt(x),
        forall|i: int| r <= i < times.len() ==> !(#[trigger] times[i]).lt(x),
    ensures
        below(times, x) == r,
    decreases times.len(),
{
    if times.len() > 0 {
        let rest = times.drop_last();
        let last = times.len() - 1;
        if r == times.len() {
            assert(times[last].lt(x));
            lemma_below_is_split(rest, x, r - 1);
        } else {
            assert(!times[last].lt(x));
            lemma_below_is_split(rest, x, r);
        }
    }
}

/// A sequence split at `r` into values at most `x` and others has `r` values up to `x`.
pub proof fn lemma_up_to_is_split(times: Seq<Binary64>, x: Binary64, r: int)
    requires
        0 <= r <= times.len(),
        forall|i: int| 0 <= i < r ==> (#[trigger] times[i]).le(x),
        forall|i: int| r <= i < times.len() ==> !(#[trigger] times[i]).le(x),
    ensures
        up_to(times, x) == r,
    decreases times.len(),
{
    if times.len() > 0 {
        let rest = times.drop_last();
        let last = times.len() - 1;
        if r == times.len() {
            assert(times[last].le(x));
            lemma_up_to_is_split(rest, x, r - 1);
        } else {
            assert(!times[last].le(x));
            lemma_up_to_is_split(rest, x, r);
        }
    }
}

/// Of ascending values, those up to `x` stand before the others.
pub proof fn lemma_up_to_splits(times: Seq<Binary64>, x: Binary64)
    requires
        ascends(times),
    ensures
        up_to(times, x) <= times.len(),
        forall|i: int| 0 <= i < up_to(times, x) ==> (#[trigger] times[i]).le(x),
        forall|i: int| up_to(times, x) <= i < times.len() ==> !(#[trigger] times[i]).le(x),
    decreases times.len(),
{
    if times.len() > 0 {
        let rest = times.drop_last();
        let n = rest.len() as int;
        assert(ascends(rest)) by {
            assert forall|i: int, j: int| 0 <= i <= j < rest.len() implies (
            #[trigger] rest[i]).le(#[trigger] rest[j]) by {
                assert(times[i].le(times[j]));
            }
        }
        lemma_up_to_splits(rest, x);
        if times[n].le(x) {
            if up_to(rest, x) < n {
                let k = up_to(rest, x) as int;
                assert(!rest[k].le(x));
                assert(times[k].le(times[n]));
            }
        }
        assert forall|i: int| 0 <= i < up_to(times, x) implies (#[trigger] times[i]).le(x) by {
            if i < n {
                assert(rest[i].le(x));
            }
        }
        assert forall|i: int| up_to(times, x) <= i < times.len() implies !(
        #[trigger] times[i]).le(x) by {
            if i < n {
                assert(!rest[i].le(x));
            }
        }
    }
}

/// Ascending times without NaNs.
pub struct Timeline {
    times: Vec<Binary64>,
}

impl View for Timeline {
    type V = Seq<Binary64>;

    closed spec fn view(&self) -> Seq<Binary64> {
        self.times@
    }
}

impl Timeline {
    #[verifier::type_invariant]
    spec fn inv(self) -> bool {
        ascends(self.times@)
    }

    pub fn len(&self) -> (len: usize)
        ensures
            len == self@.len(),
            ascends(self@),
    {
        proof {
            use_type_invariant(self);
        }
        self.times.len()
    }

    pub fn get(&self, i: usize) -> (time: Binary64)
        requires
            i < self@.len(),
        ensures
            time == self@[i as int],
            !time.is_nan(),
    {
        proof {
            use_type_invariant(self);
            assert(self.times@[i as int].le(self.times@[i as int]));
        }
        self.times[i]
    }

    /// The values, if they ascend and none is a NaN.
    pub fn from_sorted(times: Vec<Binary64>) -> (timeline: Option<Timeline>)
        ensures
            timeline is Some <==> ascends(times@),
            timeline is Some ==> timeline->0@ == times@,
    {
        let mut i: usize = 0;
        while i < times.len()
            invariant
                i <= times.len(),
                forall|j: int, k: int|
                    0 <= j <= k < i ==> (#[trigger] times[j]).le(#[trigger] times[k]),
            decreases times.len() - i,
        {
            if times[i].nan() {
                proof {
                    assert(!times@[i as int].le(times@[i as int]));
                }
                return None;
            }
            if i > 0 && !times[i - 1].at_most(times[i]) {
                proof {
                    assert(!times@[i - 1].le(times@[i as int]));
                }
                return None;
            }
            i = i + 1;
        }
        Some(Timeline { times })
    }

    /// The values that are no NaNs, where all are in order.
    pub fn numbers_of(times: &Vec<Binary64>) -> (timeline: Timeline)
        requires
            climbs(times@),
        ensures
            timeline@ == times@.filter(is_number()),
    {
        let mut kept: Vec<Binary64> = Vec::with_capacity(times.len());
        let mut i: usize = 0;
        proof {
            reveal(Seq::filter);
        }
        while i < times.len()
            invariant
                i <= times.len(),
                climbs(times@),
                kept@ == times@.take(i as int).filter(is_number()),
                ascends(kept@),
                forall|k: int|
                    0 <= k < kept.len() ==> i > 0 && (#[trigger] kept[k]).total_rank() <= times[i
                        - 1].total_rank(),
            decreases times.len() - i,
        {
            let ghost before = kept@;
            proof {
                reveal(Seq::filter);
                assert(times@.take(i + 1).drop_last() =~= times@.take(i as int));
                if i > 0 {
                    assert(times@[i - 1].total_rank() <= times@[i as int].total_rank());
                }
            }
            if !times[i].nan() {
                kept.push(times[i]);
                assert forall|j: int, k: int| 0 <= j <= k < kept.len() implies (
                #[trigger] kept[j]).le(#[trigger] kept[k]) by {
                    if k < before.len() {
                        assert(before[j].le(before[k]));
                    } else if j < before.len() {
                        assert(before[j].le(before[j]));
                        crate::binary64::lemma_rank_order(before[j], times[i as int]);
                    }
                }
            }
            i = i + 1;
        }
        assert(times@.take(i as int) =~= times@);
        Timeline { times: kept }
    }

    /// Appends the times to `values`.
    pub fn append_to(&self, values: &mut Vec<Binary64>)
        ensures
            final(values)@ == old(values)@ + self@,
    {
        let mut i: usize = 0;
        let ghost before = values@;
        while i < self.times.len()
            invariant
                i <= self.times.len(),
                values@ == before + self.times@.take(i as int),
            decreases self.times.len() - i,
        {
            values.push(self.times[i]);
            proof {
                assert(self.times@.take(i + 1) =~= self.times@.take(i as int).push(
                    self.times@[i as int],
                ));
            }
            i = i + 1;
        }
        proof {
            assert(self.times@.take(i as int) =~= self.times@);
        }
    }

    /// The times as a list.
    pub fn to_vec(&self) -> (values: Vec<Binary64>)
        ensures
            values@ == self@,
    {
        let mut values: Vec<Binary64> = Vec::new();
        self.append_to(&mut values);
        assert(values@ =~= self@);
        values
    }

    /// How many times are before `target`; also where the first of the others stands.
    pub fn lower_bound(&self, target: Binary64) -> (index: usize)
        ensures
            index == below(self@, target),
            ascends(self@),
            index <= self@.len(),
            forall|i: int| 0 <= i < index ==> (#[trigger] self@[i]).lt(target),
            forall|i: int| index <= i < self@.len() ==> !(#[trigger] self@[i]).lt(target),
    {
        proof {
            use_type_invariant(self);
        }
        let mut low: usize = 0;
        let mut high: usize = self.times.len();
        while low < high
            invariant
                low <= high <= self.times.len(),
                ascends(self.times@),
                forall|i: int| 0 <= i < low ==> (#[trigger] self.times@[i]).lt(target),
                forall|i: int|
                    high <= i < self.times.len() ==> !(#[trigger] self.times@[i]).lt(target),
            decreases high - low,
        {
            let middle: usize = low + (high - low) / 2;
            if self.times[middle].less(target) {
                proof {
                    assert forall|i: int| 0 <= i < middle + 1 implies (
                    #[trigger] self.times@[i]).lt(target) by {
                        assert(self.times@[i].le(self.times@[middle as int]));
                    }
                }
                low = middle + 1;
            } else {
                proof {
                    assert forall|i: int| middle <= i < self.times.len() implies !(
                    #[trigger] self.times@[i]).lt(target) by {
                        assert(self.times@[middle as int].le(self.times@[i]));
                    }
                }
                high = middle;
            }
        }
        proof {
            lemma_below_is_split(self@, target, low as int);
        }
        low
    }

    /// Where the first time stands that is not before `target`, else the last.
    pub fn lower_or_last(&self, target: Binary64) -> (index: usize)
        requires
            self@.len() > 0,
        ensures
            index == lower_or_last_of(self@, target),
            index < self@.len(),
    {
        let index: usize = self.lower_bound(target);
        if index < self.times.len() {
            index
        } else {
            self.times.len() - 1
        }
    }

    /// How many times are no later than `target`; also where the first of the others
    /// stands.
    pub fn upper_bound(&self, target: Binary64) -> (index: usize)
        ensures
            index == up_to(self@, target),
            ascends(self@),
            index <= self@.len(),
            forall|i: int| 0 <= i < index ==> (#[trigger] self@[i]).le(target),
            forall|i: int| index <= i < self@.len() ==> !(#[trigger] self@[i]).le(target),
    {
        proof {
            use_type_invariant(self);
        }
        let mut low: usize = 0;
        let mut high: usize = self.times.len();
        while low < high
            invariant
                low <= high <= self.times.len(),
                ascends(self.times@),
                forall|i: int| 0 <= i < low ==> (#[trigger] self.times@[i]).le(target),
                forall|i: int|
                    high <= i < self.times.len() ==> !(#[trigger] self.times@[i]).le(target),
            decreases high - low,
        {
            let middle: usize = low + (high - low) / 2;
            if self.times[middle].at_most(target) {
                proof {
                    assert forall|i: int| 0 <= i < middle + 1 implies (
                    #[trigger] self.times@[i]).le(target) by {
                        assert(self.times@[i].le(self.times@[middle as int]));
                    }
                }
                low = middle + 1;
            } else {
                proof {
                    assert forall|i: int| middle <= i < self.times.len() implies !(
                    #[trigger] self.times@[i]).le(target) by {
                        assert(self.times@[middle as int].le(self.times@[i]));
                    }
                }
                high = middle;
            }
        }
        proof {
            lemma_up_to_is_split(self@, target, low as int);
        }
        low
    }
}

/// Whether a corner lies in the map: from 0 to `t_end`.
pub open spec fn in_map(corner: Binary64, t_end: Binary64) -> bool {
    !corner.is_nan() && corner.units() >= 0 && corner.le(t_end)
}

/// The candidates that lie in the map, each once, in order.
pub fn sort_corners(candidates: &Vec<Binary64>, t_end: Binary64) -> (corners: Timeline)
    ensures
        strictly_ascends(corners@),
        forall|c: Binary64|
            #[trigger] corners@.contains(c) <==> candidates@.contains(c) && in_map(c, t_end),
{
    let zero: Binary64 = Binary64::from_bits(0);
    let mut kept: Vec<Binary64> = Vec::new();
    let mut keys: Vec<SortKey> = Vec::new();
    let mut i: usize = 0;
    proof {
        lemma_size_zero(0);
    }
    while i < candidates.len()
        invariant
            i <= candidates.len(),
            zero.bits == 0,
            zero.units() == 0,
            keys.len() == kept.len(),
            kept.len() <= i,
            forall|k: int|
                0 <= k < kept.len() ==> in_map(#[trigger] kept[k], t_end) && candidates@.contains(
                    kept[k],
                ),
            forall|k: int|
                0 <= k < i && in_map(#[trigger] candidates[k], t_end) ==> kept@.contains(
                    candidates[k],
                ),
            forall|k: int|
                0 <= k < keys.len() ==> (#[trigger] keys[k]).major == kept[k].total_rank()
                    && keys[k].minor == 0,
        decreases candidates.len() - i,
    {
        let corner: Binary64 = candidates[i];
        if zero.at_most(corner) && corner.at_most(t_end) {
            let ghost before = kept@;
            kept.push(corner);
            keys.push(SortKey { major: corner.rank(), minor: 0 });
            proof {
                lemma_push_keeps(before, corner);
            }
        }
        i = i + 1;
    }
    let order: Vec<usize> = stable_order(&keys);
    let mut times: Vec<Binary64> = Vec::new();
    let mut n: usize = 0;
    while n < order.len()
        invariant
            n <= order.len(),
            is_stable_order(keys@, order@),
            keys.len() == kept.len(),
            forall|k: int|
                0 <= k < keys.len() ==> (#[trigger] keys[k]).major == kept[k].total_rank()
                    && keys[k].minor == 0,
            times.len() <= n,
            n > 0 ==> times.len() > 0 && times@.last() == kept[order[n - 1] as int],
            strictly_ascends(times@),
            forall|k: int| 0 <= k < times.len() ==> kept@.contains(#[trigger] times[k]),
            forall|k: int| 0 <= k < n ==> times@.contains(kept[(#[trigger] order[k]) as int]),
        decreases order.len() - n,
    {
        let time: Binary64 = kept[order[n]];
        let ghost before = times@;
        if n > 0 {
            proof {
                assert(precedes(keys@, order[n - 1] as int, order[n as int] as int));
                assert(keys[order[n - 1] as int].major <= keys[order[n as int] as int].major);
                lemma_rank_order(times@.last(), time);
            }
            if times[times.len() - 1].rank() != time.rank() {
                times.push(time);
                proof {
                    lemma_push_keeps(before, time);
                }
            }
        } else {
            times.push(time);
            proof {
                lemma_push_keeps(before, time);
            }
        }
        n = n + 1;
    }
    proof {
        assert forall|c: Binary64| times@.contains(c) <==> candidates@.contains(c) && in_map(
            c,
            t_end,
        ) by {
            if candidates@.contains(c) && in_map(c, t_end) {
                assert(kept@.contains(c));
                let k = choose|k: int| 0 <= k < kept.len() && kept[k] == c;
                assert(order@.contains(k as usize));
                let l = choose|l: int| 0 <= l < order.len() && order[l] == k as usize;
                assert(times@.contains(kept[order[l] as int]));
            }
        }
        assert forall|i: int, j: int| 0 <= i <= j < times.len() implies (#[trigger] times[i]).le(
            #[trigger] times[j],
        ) by {
            assert(times@.contains(times[i]) && times@.contains(times[j]));
            lemma_rank_order(times[i], times[j]);
        }
    }
    Timeline { times }
}

/// The corners of a map: where the curves may change.
pub struct CornerSets {
    pub all: Timeline,
    pub base: Timeline,
    pub awkwardness: Timeline,
}

/// The corners out of the candidates for the base curves and the awkwardness curve.
pub fn get_corners(
    base_candidates: &Vec<Binary64>,
    awkwardness_candidates: &Vec<Binary64>,
    t_end: Binary64,
) -> (corners: CornerSets)
    ensures
        strictly_ascends(corners.all@),
        strictly_ascends(corners.base@),
        strictly_ascends(corners.awkwardness@),
        forall|c: Binary64|
            #[trigger] corners.base@.contains(c) <==> base_candidates@.contains(c) && in_map(
                c,
                t_end,
            ),
        forall|c: Binary64|
            #[trigger] corners.awkwardness@.contains(c) <==> awkwardness_candidates@.contains(c)
                && in_map(c, t_end),
        forall|c: Binary64|
            #[trigger] corners.all@.contains(c) <==> corners.base@.contains(c)
                || corners.awkwardness@.contains(c),
{
    let base: Timeline = sort_corners(base_candidates, t_end);
    let awkwardness: Timeline = sort_corners(awkwardness_candidates, t_end);
    let mut both: Vec<Binary64> = Vec::new();
    base.append_to(&mut both);
    awkwardness.append_to(&mut both);
    let all: Timeline = sort_corners(&both, t_end);
    proof {
        assert(both@ =~= base@ + awkwardness@);
        assert forall|c: Binary64| all@.contains(c) <==> base@.contains(c) || awkwardness@.contains(
            c,
        ) by {
            lemma_concatenation_contains(base@, awkwardness@, c);
            if base@.contains(c) {
                assert(base_candidates@.contains(c) && in_map(c, t_end));
            }
            if awkwardness@.contains(c) {
                assert(awkwardness_candidates@.contains(c) && in_map(c, t_end));
            }
        }
    }
    CornerSets { all, base, awkwardness }
}

/// A concatenation contains what its parts contain.
proof fn lemma_concatenation_contains<T>(a: Seq<T>, b: Seq<T>, x: T)
    ensures
        (a + b).contains(x) <==> a.contains(x) || b.contains(x),
{
    let c = a + b;
    if a.contains(x) {
        let k = choose|k: int| 0 <= k < a.len() && a[k] == x;
        assert(c[k] == x);
    }
    if b.contains(x) {
        let k = choose|k: int| 0 <= k < b.len() && b[k] == x;
        assert(c[a.len() + k] == x);
    }
    if c.contains(x) {
        let k = choose|k: int| 0 <= k < c.len() && c[k] == x;
        if k < a.len() {
            assert(a[k] == x);
        } else {
            assert(b[k - a.len()] == x);
        }
    }
}

/// Among ascending values, as many stand in front as are below `x`: these are below it, and
/// none of the others is.
pub proof fn values_below_stand_in_front(times: Seq<Binary64>, x: Binary64)
    requires
        ascends(times),
    ensures
        below(times, x) <= times.len(),
        forall|i: int| 0 <= i < times.len() ==> (i < below(times, x) <==> (
        #[trigger] times[i]).lt(x)),
    decreases times.len(),
{
    if times.len() > 0 {
        let rest = times.drop_last();
        let n = rest.len() as int;
        assert(ascends(rest)) by {
            assert forall|i: int, j: int| 0 <= i <= j < rest.len() implies (
            #[trigger] rest[i]).le(#[trigger] rest[j]) by {
                assert(times[i].le(times[j]));
            }
        }
        values_below_stand_in_front(rest, x);
        if times[n].lt(x) && below(rest, x) < n {
            let k = below(rest, x) as int;
            assert(!rest[k].lt(x));
            assert(times[k].le(times[n]));
        }
        assert forall|i: int| 0 <= i < times.len() implies (i < below(times, x) <==> (
        #[trigger] times[i]).lt(x)) by {
            if i < n {
                assert(rest[i] == times[i]);
                assert(i < below(rest, x) <==> rest[i].lt(x));
            }
        }
    }
}

/// Among ascending values, as many stand in front as are at most `x`: these are, and none of
/// the others is.
pub proof fn values_up_to_stand_in_front(times: Seq<Binary64>, x: Binary64)
    requires
        ascends(times),
    ensures
        up_to(times, x) <= times.len(),
        forall|i: int| 0 <= i < times.len() ==> (i < up_to(times, x) <==> (
        #[trigger] times[i]).le(x)),
{
    lemma_up_to_splits(times, x);
}

/// A time is looked up at the first of ascending values that is not before it, and at the
/// last one if all are.
pub proof fn times_are_looked_up_at_the_next_value(times: Seq<Binary64>, x: Binary64)
    requires
        ascends(times),
        times.len() > 0,
    ensures
        0 <= lower_or_last_of(times, x) < times.len(),
        forall|i: int| 0 <= i < lower_or_last_of(times, x) ==> (#[trigger] times[i]).lt(x),
        times[lower_or_last_of(times, x)].lt(x) ==> lower_or_last_of(times, x) == times.len() - 1,
{
    values_below_stand_in_front(times, x);
}

/// A corner lies in the map exactly if it is neither before the time zero nor after the end.
pub proof fn corners_lie_from_zero_to_the_end(corner: Binary64, t_end: Binary64)
    ensures
        in_map(corner, t_end) <==> (Binary64 { bits: 0 }).le(corner) && corner.le(t_end),
{
    lemma_size_zero(0);
}

} // verus!
