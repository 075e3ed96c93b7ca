//! Long notes by how long they are held.

use crate::binary64::{one_in_units, Binary64};
use crate::order::lemma_push_keeps;
use crate::surface::{is_positive, positive};
use vstd::prelude::*;

verus! {

/// How many duration bins there are.
pub const LN_DURATION_BUCKETS: usize = 8;

/// The upper edges, in ms, of all duration bins but the last, which is open.
///
/// The bins are a quadrature grid: log-spaced, as the durations of real long notes
/// are distributed.
pub const LN_DURATION_EDGES: [u32; 7] = [45, 70, 100, 145, 210, 320, 550];

/// The duration, in ms, at which each bin's judgement unit is evaluated.
pub const LN_DURATION_REPRESENTATIVES: [u32; 8] = [34, 56, 84, 120, 175, 259, 419, 900];

/// The median duration, in ms, of a long note.
pub const LN_DURATION_MEDIAN: u32 = 100;

/// Whether a duration in ms is less than the whole number `ms`.
pub open spec fn shorter_than(duration: Binary64, ms: u32) -> bool {
    !duration.is_nan() && duration.units() < ms * one_in_units()
}

/// Whether `bucket` is the bin of `duration`: the first whose edge the duration stays
/// below, else the last.
pub open spec fn is_bucket_of(duration: Binary64, bucket: int) -> bool {
    &&& 0 <= bucket < LN_DURATION_BUCKETS
    &&& forall|i: int| 0 <= i < bucket ==> !shorter_than(duration, #[trigger] LN_DURATION_EDGES[i])
    &&& bucket < LN_DURATION_BUCKETS - 1 ==> shorter_than(duration, LN_DURATION_EDGES[bucket])
}

/// Which bin a long note of `duration` ms belongs to.
pub fn ln_duration_bucket(duration: Binary64) -> (bucket: usize)
    ensures
        is_bucket_of(duration, bucket as int),
{
    let mut i: usize = 0;
    while i < LN_DURATION_BUCKETS - 1
        invariant
            0 <= i <= LN_DURATION_BUCKETS - 1,
            forall|j: int| 0 <= j < i ==> !shorter_than(duration, #[trigger] LN_DURATION_EDGES[j]),
        decreases LN_DURATION_BUCKETS - i,
    {
        if duration.less(Binary64::from_u32(LN_DURATION_EDGES[i])) {
            return i;
        }
        i = i + 1;
    }
    LN_DURATION_BUCKETS - 1
}

/// Every long note in the bin of the median duration, for callers that know how many
/// long notes a map has but not how long they are.
pub fn modal_ln_duration_histogram(n_long_notes: usize) -> (buckets: [usize; 8])
    ensures
        buckets@ =~= seq![0, 0, 0, n_long_notes, 0, 0, 0, 0],
{
    let mut buckets: [usize; 8] = [0; 8];
    let modal: usize = ln_duration_bucket(Binary64::from_u32(LN_DURATION_MEDIAN));
    proof {
        vstd::arithmetic::power2::lemma_pow2_pos(1074);
        let one = one_in_units();
        assert(100 * one < 145 * one && !(100 * one < 100 * one) && !(100 * one < 70 * one) && !(100
            * one < 45 * one)) by (nonlinear_arith)
            requires
                one > 0,
        ;
        assert(modal == 3) by {
            assert(LN_DURATION_EDGES[0] == 45 && LN_DURATION_EDGES[1] == 70 && LN_DURATION_EDGES[2]
                == 100 && LN_DURATION_EDGES[3] == 145);
        }
    }
    buckets[modal] = n_long_notes;
    buckets
}

/// How many of the durations are positive and in the given bin.
pub open spec fn held_in(durations: Seq<Binary64>, bucket: int) -> nat
    decreases durations.len(),
{
    if durations.len() == 0 {
        0
    } else {
        held_in(durations.drop_last(), bucket) + if is_positive(durations.last()) && is_bucket_of(
            durations.last(),
            bucket,
        ) {
            1nat
        } else {
            0nat
        }
    }
}

/// How many of the durations are positive.
pub open spec fn held_at_all(durations: Seq<Binary64>) -> nat
    decreases durations.len(),
{
    if durations.len() == 0 {
        0
    } else {
        held_at_all(durations.drop_last()) + if is_positive(durations.last()) {
            1nat
        } else {
            0nat
        }
    }
}

proof fn lemma_held_bounded(durations: Seq<Binary64>, bucket: int)
    ensures
        held_in(durations, bucket) <= durations.len(),
    decreases durations.len(),
{
    if durations.len() > 0 {
        lemma_held_bounded(durations.drop_last(), bucket);
    }
}

/// A duration has one bin.
pub proof fn bins_are_disjoint(duration: Binary64, a: int, b: int)
    requires
        is_bucket_of(duration, a),
        is_bucket_of(duration, b),
    ensures
        a == b,
{
    if a < b {
        assert(!shorter_than(duration, LN_DURATION_EDGES[a]));
    } else if b < a {
        assert(!shorter_than(duration, LN_DURATION_EDGES[b]));
    }
}

/// The long notes by how long they are held, where `durations` says how long each is.
/// Notes that are not held at all count nowhere.
pub fn ln_duration_histogram(durations: &Vec<Binary64>) -> (buckets: [usize; 8])
    ensures
        forall|b: int| 0 <= b < 8 ==> #[trigger] buckets[b] == held_in(durations@, b),
{
    let mut buckets: [usize; 8] = [0; 8];
    let mut i: usize = 0;
    assert(durations@.take(0) =~= Seq::<Binary64>::empty());
    while i < durations.len()
        invariant
            i <= durations.len(),
            forall|b: int|
                0 <= b < 8 ==> #[trigger] buckets[b] == held_in(durations@.take(i as int), b),
        decreases durations.len() - i,
    {
        let duration: Binary64 = durations[i];
        let ghost before = buckets@;
        proof {
            assert(durations@.take(i + 1).drop_last() =~= durations@.take(i as int));
            assert(durations@.take(i + 1).last() == duration);
        }
        if positive(duration) {
            let bucket: usize = ln_duration_bucket(duration);
            proof {
                lemma_held_bounded(durations@.take(i as int), bucket as int);
                assert(buckets[bucket as int] == held_in(durations@.take(i as int), bucket as int));
            }
            buckets[bucket] = buckets[bucket] + 1;
            assert forall|b: int| 0 <= b < 8 implies #[trigger] buckets[b] == held_in(
                durations@.take(i + 1),
                b,
            ) by {
                if b != bucket && is_bucket_of(duration, b) {
                    bins_are_disjoint(duration, b, bucket as int);
                }
                assert(before[b] == held_in(durations@.take(i as int), b));
            }
        } else {
            assert forall|b: int| 0 <= b < 8 implies #[trigger] buckets[b] == held_in(
                durations@.take(i + 1),
                b,
            ) by {
                assert(before[b] == held_in(durations@.take(i as int), b));
            }
        }
        i = i + 1;
    }
    assert(durations@.take(i as int) =~= durations@);
    buckets
}

/// Every duration is in one of the bins.
proof fn lemma_bucket_exists(duration: Binary64)
    ensures
        exists|b: int| #[trigger] is_bucket_of(duration, b),
{
    lemma_bucket_from(duration, 0);
}

proof fn lemma_bucket_from(duration: Binary64, from: int)
    requires
        0 <= from < LN_DURATION_BUCKETS,
        forall|i: int| 0 <= i < from ==> !shorter_than(duration, #[trigger] LN_DURATION_EDGES[i]),
    ensures
        exists|b: int| #[trigger] is_bucket_of(duration, b),
    decreases LN_DURATION_BUCKETS - from,
{
    if from == LN_DURATION_BUCKETS - 1 || shorter_than(duration, LN_DURATION_EDGES[from]) {
        assert(is_bucket_of(duration, from));
    } else {
        lemma_bucket_from(duration, from + 1);
    }
}

/// The histogram counts every note that is held, once.
pub proof fn histogram_is_complete(durations: Seq<Binary64>)
    ensures
        held_in(durations, 0) + held_in(durations, 1) + held_in(durations, 2) + held_in(durations, 3)
            + held_in(durations, 4) + held_in(durations, 5) + held_in(durations, 6) + held_in(
            durations,
            7,
        ) == held_at_all(durations),
    decreases durations.len(),
{
    if durations.len() > 0 {
        histogram_is_complete(durations.drop_last());
        let last = durations.last();
        lemma_bucket_exists(last);
        let b = choose|b: int| #[trigger] is_bucket_of(last, b);
        assert forall|c: int| 0 <= c < 8 implies (#[trigger] is_bucket_of(last, c) <==> c == b) by {
            if is_bucket_of(last, c) {
                bins_are_disjoint(last, c, b);
            }
        }
        assert(is_bucket_of(last, 0) <==> 0 == b);
        assert(is_bucket_of(last, 1) <==> 1 == b);
        assert(is_bucket_of(last, 2) <==> 2 == b);
        assert(is_bucket_of(last, 3) <==> 3 == b);
        assert(is_bucket_of(last, 4) <==> 4 == b);
        assert(is_bucket_of(last, 5) <==> 5 == b);
        assert(is_bucket_of(last, 6) <==> 6 == b);
        assert(is_bucket_of(last, 7) <==> 7 == b);
    }
}

/// The histogram of notes that are all held counts every one of them.
pub proof fn every_hold_is_counted(durations: Seq<Binary64>)
    requires
        forall|i: int| 0 <= i < durations.len() ==> is_positive(#[trigger] durations[i]),
    ensures
        held_in(durations, 0) + held_in(durations, 1) + held_in(durations, 2) + held_in(durations, 3)
            + held_in(durations, 4) + held_in(durations, 5) + held_in(durations, 6) + held_in(
            durations,
            7,
        ) == durations.len(),
{
    histogram_is_complete(durations);
    lemma_all_held(durations);
}

proof fn lemma_all_held(durations: Seq<Binary64>)
    requires
        forall|i: int| 0 <= i < durations.len() ==> is_positive(#[trigger] durations[i]),
    ensures
        held_at_all(durations) == durations.len(),
    decreases durations.len(),
{
    if durations.len() > 0 {
        let rest = durations.drop_last();
        assert forall|i: int| 0 <= i < rest.len() implies is_positive(#[trigger] rest[i]) by {
            assert(rest[i] == durations[i]);
        }
        lemma_all_held(rest);
        assert(is_positive(durations[durations.len() - 1]));
    }
}

/// Long notes of one bin, as one unit of the judgement model.
#[derive(Clone, Copy, Debug, PartialEq, Eq, Structural)]
pub struct HeldUnit {
    /// How long the notes are taken to be held, in ms.
    pub duration: u32,
    pub count: usize,
}

/// The first `n` bins that hold notes, shortest first.
pub open spec fn held_units_of(buckets: Seq<usize>, n: int) -> Seq<HeldUnit>
    decreases n,
{
    if n <= 0 {
        Seq::empty()
    } else if buckets[n - 1] == 0 {
        held_units_of(buckets, n - 1)
    } else {
        held_units_of(buckets, n - 1).push(
            HeldUnit { duration: LN_DURATION_REPRESENTATIVES[n - 1], count: buckets[n - 1] },
        )
    }
}

/// The units of long notes that a score's judgements are fitted against, shortest first: none
/// where all judgements are alike.
pub open spec fn fitted_units(
    ln_judged_as_one: bool,
    n_long_notes: usize,
    n_objects: usize,
    split_disabled: bool,
    buckets: Seq<usize>,
) -> Seq<HeldUnit> {
    if !ln_judged_as_one || n_long_notes == 0 || n_objects == 0 || split_disabled {
        Seq::empty()
    } else {
        held_units_of(buckets, 8)
    }
}

/// The units of long notes that a score's judgements are fitted against, shortest first.
///
/// There are none where long notes give two judgements, each an ordinary one, where the map
/// has no long notes, or where the split is switched off: then all judgements are alike.
pub fn held_units(
    ln_judged_as_one: bool,
    n_long_notes: usize,
    n_objects: usize,
    split_disabled: bool,
    buckets: &[usize; 8],
) -> (units: Vec<HeldUnit>)
    ensures
        units@ == fitted_units(
            ln_judged_as_one,
            n_long_notes,
            n_objects,
            split_disabled,
            buckets@,
        ),
{
    let mut units: Vec<HeldUnit> = Vec::new();
    if !ln_judged_as_one || n_long_notes == 0 || n_objects == 0 || split_disabled {
        return units;
    }
    let mut bin: usize = 0;
    while bin < LN_DURATION_BUCKETS
        invariant
            bin <= 8,
            units@ == held_units_of(buckets@, bin as int),
        decreases 8 - bin,
    {
        if buckets[bin] != 0 {
            units.push(
                HeldUnit { duration: LN_DURATION_REPRESENTATIVES[bin], count: buckets[bin] },
            );
        }
        bin = bin + 1;
    }
    units
}

/// How many notes the units stand for.
pub open spec fn unit_total(units: Seq<HeldUnit>) -> nat
    decreases units.len(),
{
    if units.len() == 0 {
        0
    } else {
        unit_total(units.drop_last()) + units.last().count as nat
    }
}

proof fn lemma_unit_total_push(units: Seq<HeldUnit>, unit: HeldUnit)
    ensures
        unit_total(units.push(unit)) == unit_total(units) + unit.count,
{
    assert(units.push(unit).drop_last() =~= units);
}

/// The units stand for every note in the histogram.
pub proof fn units_cover_the_histogram(buckets: Seq<usize>)
    requires
        buckets.len() == 8,
    ensures
        unit_total(held_units_of(buckets, 8)) == buckets[0] + buckets[1] + buckets[2] + buckets[3]
            + buckets[4] + buckets[5] + buckets[6] + buckets[7],
{
    lemma_units_cover(buckets, 8);
    reveal_with_fuel(first_total, 9);
}

spec fn first_total(buckets: Seq<usize>, n: int) -> nat
    decreases n,
{
    if n <= 0 {
        0
    } else {
        first_total(buckets, n - 1) + buckets[n - 1] as nat
    }
}

proof fn lemma_units_cover(buckets: Seq<usize>, n: int)
    requires
        0 <= n <= buckets.len(),
    ensures
        unit_total(held_units_of(buckets, n)) == first_total(buckets, n),
    decreases n,
{
    if n > 0 {
        lemma_units_cover(buckets, n - 1);
        if buckets[n - 1] != 0 {
            lemma_unit_total_push(
                held_units_of(buckets, n - 1),
                HeldUnit { duration: LN_DURATION_REPRESENTATIVES[n - 1], count: buckets[n - 1] },
            );
        }
    }
}

/// The bins begin at 0, 45, 70, 100, 145, 210, 320 and 550 ms: a duration is in one of the first
/// bins exactly if it is below the beginning of the next.
pub proof fn durations_fall_into_bins(duration: Binary64, bucket: int)
    requires
        is_bucket_of(duration, bucket),
    ensures
        0 <= bucket < 8,
        duration.is_nan() ==> bucket == 7,
        !duration.is_nan() ==> {
            &&& bucket <= 0 <==> duration.units() < 45 * one_in_units()
            &&& bucket <= 1 <==> duration.units() < 70 * one_in_units()
            &&& bucket <= 2 <==> duration.units() < 100 * one_in_units()
            &&& bucket <= 3 <==> duration.units() < 145 * one_in_units()
            &&& bucket <= 4 <==> duration.units() < 210 * one_in_units()
            &&& bucket <= 5 <==> duration.units() < 320 * one_in_units()
            &&& bucket <= 6 <==> duration.units() < 550 * one_in_units()
        },
{
    vstd::arithmetic::power2::lemma_pow2_pos(1074);
    let edges = LN_DURATION_EDGES;
    assert(edges[0] == 45 && edges[1] == 70 && edges[2] == 100 && edges[3] == 145 && edges[4] == 210
        && edges[5] == 320 && edges[6] == 550);
    assert(LN_DURATION_EDGES[0] == 45 && LN_DURATION_EDGES[1] == 70 && LN_DURATION_EDGES[2] == 100
        && LN_DURATION_EDGES[3] == 145 && LN_DURATION_EDGES[4] == 210 && LN_DURATION_EDGES[5] == 320
        && LN_DURATION_EDGES[6] == 550);
}

/// The histogram of two groups of notes is the sum of their histograms, and a single note that
/// is held counts in its bin alone.
pub proof fn histograms_add_up(a: Seq<Binary64>, b: Seq<Binary64>, bucket: int)
    ensures
        held_in(a + b, bucket) == held_in(a, bucket) + held_in(b, bucket),
        a.len() == 0 ==> held_in(a, bucket) == 0,
        a.len() == 1 ==> (held_in(a, bucket) == 1 <==> is_positive(a[0]) && is_bucket_of(
            a[0],
            bucket,
        )) && held_in(a, bucket) <= 1,
    decreases b.len(),
{
    if a.len() == 1 {
        assert(a.drop_last() =~= Seq::empty());
        assert(held_in(a.drop_last(), bucket) == 0);
    }
    if b.len() == 0 {
        assert(a + b =~= a);
    } else {
        assert((a + b).drop_last() =~= a + b.drop_last());
        histograms_add_up(a, b.drop_last(), bucket);
    }
}

/// How long the notes of a bin are taken to be held, in ms.
pub open spec fn held_for(bin: int) -> int {
    if bin == 0 {
        34
    } else if bin == 1 {
        56
    } else if bin == 2 {
        84
    } else if bin == 3 {
        120
    } else if bin == 4 {
        175
    } else if bin == 5 {
        259
    } else if bin == 6 {
        419
    } else {
        900
    }
}

/// Whether a unit stands for the notes of a bin.
pub open spec fn is_unit_of(unit: HeldUnit, buckets: Seq<usize>, bin: int) -> bool {
    0 <= bin < 8 && unit.count == buckets[bin] && unit.duration == held_for(bin)
}

proof fn lemma_representatives(bin: int)
    requires
        0 <= bin < 8,
    ensures
        LN_DURATION_REPRESENTATIVES[bin] == held_for(bin),
{
    let table = LN_DURATION_REPRESENTATIVES@;
    assert(table[0] == 34 && table[1] == 56 && table[2] == 84 && table[3] == 120 && table[4] == 175
        && table[5] == 259 && table[6] == 419 && table[7] == 900);
    assert(LN_DURATION_REPRESENTATIVES[bin] == table[bin]);
}

/// The bins behind the units of the first `n` bins, in order.
proof fn lemma_units_of_bins(buckets: Seq<usize>, n: int) -> (bins: Seq<int>)
    requires
        buckets.len() == 8,
        0 <= n <= 8,
    ensures
        bins.len() == held_units_of(buckets, n).len(),
        forall|k: int|
            0 <= k < bins.len() ==> 0 <= (#[trigger] bins[k]) < n && buckets[bins[k]] > 0
                && is_unit_of(held_units_of(buckets, n)[k], buckets, bins[k]),
        forall|i: int, j: int|
            0 <= i < j < bins.len() ==> (#[trigger] bins[i]) < (#[trigger] bins[j]),
        forall|bin: int| 0 <= bin < n && #[trigger] buckets[bin] > 0 ==> bins.contains(bin),
    decreases n,
{
    if n <= 0 {
        Seq::empty()
    } else {
        let fewer = lemma_units_of_bins(buckets, n - 1);
        let before = held_units_of(buckets, n - 1);
        let units = held_units_of(buckets, n);
        lemma_representatives(n - 1);
        if buckets[n - 1] == 0 {
            fewer
        } else {
            let bins = fewer.push(n - 1);
            lemma_push_keeps(fewer, n - 1);
            assert forall|k: int| 0 <= k < bins.len() implies 0 <= (#[trigger] bins[k]) < n
                && buckets[bins[k]] > 0 && is_unit_of(units[k], buckets, bins[k]) by {
                if k < fewer.len() {
                    assert(bins[k] == fewer[k] && units[k] == before[k]);
                }
            }
            bins
        }
    }
}

/// Whether a bin holds notes.
pub open spec fn holds_notes(buckets: Seq<usize>, bin: int) -> bool {
    buckets[bin] > 0
}

/// Whether there is one unit for every bin that holds notes, and no other, shortest first.
pub open spec fn stand_for_the_bins(units: Seq<HeldUnit>, buckets: Seq<usize>) -> bool {
    &&& forall|k: int|
        0 <= k < units.len() ==> (#[trigger] units[k]).count > 0 && exists|bin: int| #[trigger]
            is_unit_of(units[k], buckets, bin)
    &&& forall|bin: int|
        0 <= bin < 8 && #[trigger] holds_notes(buckets, bin) ==> exists|k: int|
            0 <= k < units.len() && is_unit_of(#[trigger] units[k], buckets, bin)
    &&& forall|i: int, j: int|
        0 <= i < j < units.len() ==> (#[trigger] units[i]).duration < (#[trigger] units[j]).duration
}

/// A score with holds that give a single judgement is fitted against one unit for every bin
/// that holds notes, and no other, shortest first; any other score is fitted against none.
pub proof fn every_bin_with_notes_is_fitted(
    ln_judged_as_one: bool,
    n_long_notes: usize,
    n_objects: usize,
    split_disabled: bool,
    buckets: Seq<usize>,
)
    requires
        buckets.len() == 8,
    ensures
        ({
            let units = fitted_units(
                ln_judged_as_one,
                n_long_notes,
                n_objects,
                split_disabled,
                buckets,
            );
            &&& !ln_judged_as_one || split_disabled || n_long_notes == 0 || n_objects == 0
                ==> units.len() == 0
            &&& ln_judged_as_one && !split_disabled && n_long_notes > 0 && n_objects > 0
                ==> stand_for_the_bins(units, buckets)
        }),
{
    let units = held_units_of(buckets, 8);
    let bins = lemma_units_of_bins(buckets, 8);
    assert forall|k: int| 0 <= k < units.len() implies (#[trigger] units[k]).count > 0
        && exists|bin: int| #[trigger] is_unit_of(units[k], buckets, bin) by {
        assert(is_unit_of(units[k], buckets, bins[k]));
    }
    assert forall|bin: int| 0 <= bin < 8 && #[trigger] holds_notes(buckets, bin) implies exists|
        k: int,
    | 0 <= k < units.len() && is_unit_of(#[trigger] units[k], buckets, bin) by {
        assert(buckets[bin] > 0);
        let k = choose|k: int| 0 <= k < bins.len() && bins[k] == bin;
        assert(is_unit_of(units[k], buckets, bins[k]));
    }
    assert forall|i: int, j: int| 0 <= i < j < units.len() implies (#[trigger] units[i]).duration < (
    #[trigger] units[j]).duration by {
        assert(is_unit_of(units[i], buckets, bins[i]) && is_unit_of(units[j], buckets, bins[j]));
        assert(bins[i] < bins[j]);
    }
}

} // verus!
