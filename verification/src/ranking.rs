//! Orders of values.

use crate::binary64::Binary64;
use crate::order::{
    arranged, is_sorted_by, is_stable_order, lemma_picked_filtered, picked, precedes,
    sorting_keeps_what_is_picked, stable_order, SortKey,
};
use crate::timeline::{ascends, below, climbs, values_below_stand_in_front, Timeline};
use vstd::prelude::*;

verus! {

/// What values are sorted by when they ascend.
pub open spec fn ascending_keys(values: Seq<Binary64>) -> Seq<SortKey> {
    Seq::new(values.len(), |i: int| SortKey { major: values[i].total_rank() as i64, minor: 0 })
}

/// What values are sorted by when they descend.
pub open spec fn descending_keys(values: Seq<Binary64>) -> Seq<SortKey> {
    Seq::new(
        values.len(),
        |i: int| SortKey { major: (-1 - values[i].total_rank()) as i64, minor: 0 },
    )
}

/// The positions of the values in ascending order, equal values by position.
pub fn ascending_order(values: &Vec<Binary64>) -> (order: Vec<usize>)
    ensures
        is_stable_order(ascending_keys(values@), order@),
{
    let mut keys: Vec<SortKey> = Vec::with_capacity(values.len());
    let mut i: usize = 0;
    while i < values.len()
        invariant
            i <= values.len(),
            keys.len() == i,
            forall|k: int| 0 <= k < i ==> keys[k] == ascending_keys(values@)[k],
        decreases values.len() - i,
    {
        keys.push(SortKey { major: values[i].rank(), minor: 0 });
        i = i + 1;
    }
    assert(keys@ =~= ascending_keys(values@));
    stable_order(&keys)
}

/// The positions of the values in descending order, equal values by position.
pub fn descending_order(values: &Vec<Binary64>) -> (order: Vec<usize>)
    ensures
        is_stable_order(descending_keys(values@), order@),
{
    let mut keys: Vec<SortKey> = Vec::with_capacity(values.len());
    let mut i: usize = 0;
    while i < values.len()
        invariant
            i <= values.len(),
            keys.len() == i,
            forall|k: int| 0 <= k < i ==> keys[k] == descending_keys(values@)[k],
        decreases values.len() - i,
    {
        keys.push(SortKey { major: -1 - values[i].rank(), minor: 0 });
        i = i + 1;
    }
    assert(keys@ =~= descending_keys(values@));
    stable_order(&keys)
}

/// The values at the positions that `order` lists.
pub fn pick(values: &Vec<Binary64>, order: &Vec<usize>) -> (out: Vec<Binary64>)
    requires
        forall|i: int| 0 <= i < order.len() ==> (#[trigger] order[i]) < values.len(),
    ensures
        out@ == arranged(values@, order@),
{
    let mut out: Vec<Binary64> = Vec::with_capacity(order.len());
    let mut i: usize = 0;
    while i < order.len()
        invariant
            i <= order.len(),
            out.len() == i,
            forall|i: int| 0 <= i < order.len() ==> (#[trigger] order[i]) < values.len(),
            forall|k: int| 0 <= k < i ==> out[k] == values[order[k] as int],
        decreases order.len() - i,
    {
        out.push(values[order[i]]);
        i = i + 1;
    }
    assert(out@ =~= arranged(values@, order@));
    out
}

/// The values in ascending order.
pub fn sorted(values: &Vec<Binary64>) -> (out: Vec<Binary64>)
    ensures
        is_sorted_by(out@, values@, ascending_keys(values@)),
{
    let order: Vec<usize> = ascending_order(values);
    pick(values, &order)
}

/// Values in ascending order come one after another in the total order.
pub proof fn sorted_values_climb(sorted: Seq<Binary64>, values: Seq<Binary64>)
    requires
        is_sorted_by(sorted, values, ascending_keys(values)),
    ensures
        climbs(sorted),
{
    let keys = ascending_keys(values);
    let order = choose|order: Seq<usize>|
        #[trigger] is_stable_order(keys, order) && sorted == arranged(values, order);
    assert forall|i: int, j: int| 0 <= i < j < sorted.len() implies (
    #[trigger] sorted[i]).total_rank() <= (#[trigger] sorted[j]).total_rank() by {
        assert(precedes(keys, order[i] as int, order[j] as int));
        assert(sorted[i] == values[order[i] as int] && sorted[j] == values[order[j] as int]);
    }
}

/// Picks the values that are not zero.
pub open spec fn is_nonzero() -> spec_fn(Binary64) -> bool {
    |value: Binary64| !value.same_value(Binary64 { bits: 0 })
}

/// Whether `result` holds the nonzero values in descending order.
pub open spec fn is_ranked(result: Seq<Binary64>, values: Seq<Binary64>) -> bool {
    exists|sorted: Seq<Binary64>| #[trigger]
        is_sorted_by(sorted, values, descending_keys(values)) && result == sorted.filter(
            is_nonzero(),
        )
}

/// The nonzero values in descending order.
pub fn ranked_nonzero(values: &Vec<Binary64>) -> (out: Vec<Binary64>)
    ensures
        is_ranked(out@, values@),
{
    let order: Vec<usize> = descending_order(values);
    let sorted: Vec<Binary64> = pick(values, &order);
    let zero: Binary64 = Binary64::from_bits(0);
    let mut out: Vec<Binary64> = Vec::new();
    let mut i: usize = 0;
    proof {
        reveal(Seq::filter);
        assert(is_sorted_by(sorted@, values@, descending_keys(values@)));
    }
    while i < sorted.len()
        invariant
            i <= sorted.len(),
            zero.bits == 0,
            out@ == sorted@.take(i as int).filter(is_nonzero()),
        decreases sorted.len() - i,
    {
        proof {
            reveal(Seq::filter);
            assert(sorted@.take(i + 1).drop_last() =~= sorted@.take(i as int));
            assert(zero == Binary64 { bits: 0 });
        }
        if !sorted[i].equals(zero) {
            out.push(sorted[i]);
        }
        i = i + 1;
    }
    assert(sorted@.take(i as int) =~= sorted@);
    out
}

/// The bits of the shares of the total weight at which the difficulty is read: 0.945,
/// 0.935, 0.925 and 0.915, then 0.845, 0.835, 0.825 and 0.815.
pub const PERCENTILES: [u64; 8] = [
    0x3fee_3d70_a3d7_0a3d,
    0x3fed_eb85_1eb8_51ec,
    0x3fed_9999_9999_999a,
    0x3fed_47ae_147a_e148,
    0x3feb_0a3d_70a3_d70a,
    0x3fea_b851_eb85_1eb8,
    0x3fea_6666_6666_6666,
    0x3fea_147a_e147_ae14,
];

/// How many values stand before the first one that is not below `x`.
pub open spec fn leading_below(values: Seq<Binary64>, x: Binary64) -> nat
    decreases values.len(),
{
    if values.len() == 0 || !values[0].lt(x) {
        0
    } else {
        1 + leading_below(values.drop_first(), x)
    }
}

proof fn lemma_leading_below(values: Seq<Binary64>, x: Binary64, n: nat)
    requires
        n <= values.len(),
        forall|i: int| 0 <= i < n ==> (#[trigger] values[i]).lt(x),
        n == values.len() || !values[n as int].lt(x),
    ensures
        leading_below(values, x) == n,
    decreases n,
{
    if n > 0 {
        assert(values[0].lt(x));
        let rest = values.drop_first();
        assert forall|i: int| 0 <= i < n - 1 implies (#[trigger] rest[i]).lt(x) by {
            assert(rest[i] == values[i + 1]);
        }
        lemma_leading_below(rest, x, (n - 1) as nat);
    }
}

/// The place of the first share that is not below `x`, else the last place.
pub open spec fn percentile_place(shares: Seq<Binary64>, x: Binary64) -> int {
    let leading = leading_below(shares, x);
    if leading < shares.len() {
        leading as int
    } else {
        shares.len() - 1
    }
}

fn place_of(shares: &Vec<Binary64>, x: Binary64) -> (place: usize)
    requires
        shares.len() > 0,
    ensures
        place == percentile_place(shares@, x),
        place < shares.len(),
{
    let mut i: usize = 0;
    while i < shares.len() && shares[i].less(x)
        invariant
            i <= shares.len(),
            forall|k: int| 0 <= k < i ==> (#[trigger] shares@[k]).lt(x),
        decreases shares.len() - i,
    {
        i = i + 1;
    }
    proof {
        lemma_leading_below(shares@, x, i as nat);
    }
    if i < shares.len() {
        i
    } else {
        shares.len() - 1
    }
}

/// Where the difficulty is read, given the share of the total weight that each place
/// and those before it have.
pub fn percentile_indices(shares: &Vec<Binary64>) -> (indices: Vec<usize>)
    requires
        shares.len() > 0,
    ensures
        indices.len() == 8,
        forall|i: int|
            0 <= i < 8 ==> #[trigger] indices[i] == percentile_place(
                shares@,
                Binary64 { bits: PERCENTILES[i] },
            ),
        forall|i: int| 0 <= i < 8 ==> (#[trigger] indices[i]) < shares.len(),
{
    let mut indices: Vec<usize> = Vec::with_capacity(8);
    let mut i: usize = 0;
    while i < 8
        invariant
            i <= 8,
            shares.len() > 0,
            indices.len() == i,
            forall|k: int|
                0 <= k < i ==> #[trigger] indices[k] == percentile_place(
                    shares@,
                    Binary64 { bits: PERCENTILES[k] },
                ),
            forall|k: int| 0 <= k < i ==> (#[trigger] indices[k]) < shares.len(),
        decreases 8 - i,
    {
        indices.push(place_of(shares, Binary64::from_bits(PERCENTILES[i])));
        i = i + 1;
    }
    indices
}

/// How many gaps on either side of a gap its moving average covers.
pub const AVERAGE_REACH: usize = 50;

/// The gaps that the moving average around gap `i` of `n` covers: the first and the last.
pub open spec fn window_around(i: int, n: int) -> (int, int) {
    (
        if i < AVERAGE_REACH {
            0
        } else {
            i - AVERAGE_REACH
        },
        if i + AVERAGE_REACH < n {
            i + AVERAGE_REACH
        } else {
            n - 1
        },
    )
}

/// The gaps that the moving average around gap `i` of `n` covers: the first and the last.
pub fn average_window(i: usize, n: usize) -> (window: (usize, usize))
    requires
        i < n,
    ensures
        (window.0 as int, window.1 as int) == window_around(i as int, n as int),
        window.0 <= i <= window.1 < n,
{
    let first: usize = if i < AVERAGE_REACH {
        0
    } else {
        i - AVERAGE_REACH
    };
    let last: usize = if n - i > AVERAGE_REACH {
        i + AVERAGE_REACH
    } else {
        n - 1
    };
    (first, last)
}

/// Whether `indices` tells of each time but the last where it stands among the corners.
pub open spec fn are_corner_places(
    indices: Seq<usize>,
    times: Seq<Binary64>,
    corners: Seq<Binary64>,
) -> bool {
    &&& indices.len() == if times.len() == 0 {
        0
    } else {
        times.len() - 1
    }
    &&& forall|i: int|
        0 <= i < indices.len() ==> #[trigger] indices[i] == below(corners, times[i])
}

/// Where each time but the last stands among the corners.
pub fn corner_indices(times: &Vec<Binary64>, corners: &Timeline) -> (indices: Vec<usize>)
    ensures
        are_corner_places(indices@, times@, corners@),
{
    let mut indices: Vec<usize> = Vec::new();
    if times.len() == 0 {
        return indices;
    }
    let n: usize = times.len() - 1;
    let mut i: usize = 0;
    while i < n
        invariant
            i <= n,
            n + 1 == times.len(),
            indices.len() == i,
            forall|k: int|
                0 <= k < i ==> #[trigger] indices[k] == below(corners@, times[k]),
        decreases n - i,
    {
        indices.push(corners.lower_bound(times[i]));
        i = i + 1;
    }
    indices
}

/// Whether there are gaps between tails to measure: two tails, and the last one later
/// than the first.
pub open spec fn are_spread(tails: Seq<Binary64>) -> bool {
    tails.len() > 1 && tails[0].lt(tails.last())
}

/// Whether there are gaps between tails to measure: two tails, and the last one later
/// than the first.
pub fn has_tail_gaps(tails: &Vec<Binary64>) -> (answer: bool)
    ensures
        answer == are_spread(tails@),
{
    tails.len() > 1 && tails[0].less(tails[tails.len() - 1])
}

/// A moving average covers every gap that is at most 50 gaps away, and no other.
pub proof fn averages_cover_50_gaps_on_either_side(i: int, n: int, j: int)
    requires
        0 <= i < n,
    ensures
        window_around(i, n).0 <= j <= window_around(i, n).1 <==> 0 <= j < n && i - 50 <= j <= i + 50,
{
}

/// There is nothing to measure between fewer than two tails, nor where the last tail is no
/// later than the first; otherwise there is, however many tails there are.
pub proof fn later_tails_are_spread(tails: Seq<Binary64>)
    ensures
        tails.len() == 0 || tails.len() == 1 ==> !are_spread(tails),
        tails.len() >= 2 ==> (are_spread(tails) <==> tails[0].lt(tails[tails.len() - 1])),
{
}

/// A percentile is read where the share first reaches it: every share before is below it, and
/// the one there is not, unless it is the last. The percentiles are 0.945, 0.935, 0.925, 0.915,
/// 0.845, 0.835, 0.825 and 0.815.
pub proof fn percentiles_are_read_where_they_are_reached(shares: Seq<Binary64>, x: Binary64)
    requires
        shares.len() > 0,
    ensures
        0 <= percentile_place(shares, x) < shares.len(),
        forall|i: int| 0 <= i < percentile_place(shares, x) ==> (#[trigger] shares[i]).lt(x),
        shares[percentile_place(shares, x)].lt(x) ==> percentile_place(shares, x) == shares.len()
            - 1,
        PERCENTILES@ == seq![
            0x3fee_3d70_a3d7_0a3du64,
            0x3fed_eb85_1eb8_51ecu64,
            0x3fed_9999_9999_999au64,
            0x3fed_47ae_147a_e148u64,
            0x3feb_0a3d_70a3_d70au64,
            0x3fea_b851_eb85_1eb8u64,
            0x3fea_6666_6666_6666u64,
            0x3fea_147a_e147_ae14u64,
        ],
{
    lemma_leading_values(shares, x);
}

proof fn lemma_leading_values(values: Seq<Binary64>, x: Binary64)
    ensures
        leading_below(values, x) <= values.len(),
        forall|i: int| 0 <= i < leading_below(values, x) ==> (#[trigger] values[i]).lt(x),
        leading_below(values, x) < values.len() ==> !values[leading_below(values, x) as int].lt(x),
    decreases values.len(),
{
    if values.len() > 0 && values[0].lt(x) {
        let rest = values.drop_first();
        lemma_leading_values(rest, x);
        assert forall|i: int| 0 <= i < leading_below(values, x) implies (#[trigger] values[i]).lt(
            x,
        ) by {
            if i > 0 {
                assert(rest[i - 1] == values[i]);
            }
        }
    }
}

proof fn lemma_kept_values_descend(values: Seq<Binary64>)
    requires
        forall|i: int, j: int|
            0 <= i < j < values.len() ==> (#[trigger] values[j]).total_rank() <= (
            #[trigger] values[i]).total_rank(),
    ensures
        ({
            let kept = values.filter(is_nonzero());
            &&& forall|i: int, j: int|
                0 <= i < j < kept.len() ==> (#[trigger] kept[j]).total_rank() <= (
                #[trigger] kept[i]).total_rank()
            &&& forall|i: int|
                0 <= i < kept.len() ==> !(#[trigger] kept[i]).same_value(Binary64 { bits: 0 })
            &&& forall|i: int, j: int|
                0 <= i < kept.len() && j == values.len() - 1 >= 0 ==> (
                #[trigger] values[j]).total_rank() <= (#[trigger] kept[i]).total_rank()
        }),
    decreases values.len(),
{
    reveal(Seq::filter);
    if values.len() > 0 {
        let rest = values.drop_last();
        assert forall|i: int, j: int| 0 <= i < j < rest.len() implies (
        #[trigger] rest[j]).total_rank() <= (#[trigger] rest[i]).total_rank() by {
            assert(rest[i] == values[i] && rest[j] == values[j]);
        }
        lemma_kept_values_descend(rest);
        let before = rest.filter(is_nonzero());
        let kept = values.filter(is_nonzero());
        let last = values.last();
        assert forall|i: int| 0 <= i < before.len() implies last.total_rank() <= (
        #[trigger] before[i]).total_rank() by {
            if rest.len() > 0 {
                assert(rest[rest.len() - 1].total_rank() <= before[i].total_rank());
                assert(values[values.len() - 1].total_rank() <= values[rest.len()
                    - 1].total_rank());
            }
        }
        assert forall|i: int, j: int| 0 <= i < j < kept.len() implies (
        #[trigger] kept[j]).total_rank() <= (#[trigger] kept[i]).total_rank() by {
            if j < before.len() {
                assert(kept[i] == before[i] && kept[j] == before[j]);
            } else {
                assert(kept[i] == before[i] && kept[j] == last);
            }
        }
        assert forall|i: int| 0 <= i < kept.len() implies !(#[trigger] kept[i]).same_value(
            Binary64 { bits: 0 },
        ) by {
            if i < before.len() {
                assert(kept[i] == before[i]);
            }
        }
        assert forall|i: int, j: int|
            0 <= i < kept.len() && j == values.len() - 1 >= 0 implies (
        #[trigger] values[j]).total_rank() <= (#[trigger] kept[i]).total_rank() by {
            if i < before.len() {
                assert(kept[i] == before[i]);
            }
        }
    }
}

/// Ranked values descend, none of them is zero, and each value that is not zero is among them
/// as often as among the values.
pub proof fn ranked_values_descend(
    ranked: Seq<Binary64>,
    values: Seq<Binary64>,
    pick: spec_fn(Binary64) -> bool,
)
    requires
        values.len() <= usize::MAX,
        is_ranked(ranked, values),
    ensures
        forall|i: int, j: int|
            0 <= i < j < ranked.len() ==> (#[trigger] ranked[j]).total_rank() <= (
            #[trigger] ranked[i]).total_rank(),
        forall|i: int|
            0 <= i < ranked.len() ==> !(#[trigger] ranked[i]).same_value(Binary64 { bits: 0 }),
        picked(ranked, pick) == picked(
            values,
            |value: Binary64| !value.same_value(Binary64 { bits: 0 }) && pick(value),
        ),
{
    let keys = descending_keys(values);
    let sorted = choose|sorted: Seq<Binary64>| #[trigger]
        is_sorted_by(sorted, values, keys) && ranked == sorted.filter(is_nonzero());
    let order = choose|order: Seq<usize>|
        #[trigger] is_stable_order(keys, order) && sorted == arranged(values, order);
    assert forall|i: int, j: int| 0 <= i < j < sorted.len() implies (
    #[trigger] sorted[j]).total_rank() <= (#[trigger] sorted[i]).total_rank() by {
        assert(precedes(keys, order[i] as int, order[j] as int));
        assert(sorted[i] == values[order[i] as int] && sorted[j] == values[order[j] as int]);
    }
    lemma_kept_values_descend(sorted);
    let both = |value: Binary64| is_nonzero()(value) && pick(value);
    let law = |value: Binary64| !value.same_value(Binary64 { bits: 0 }) && pick(value);
    lemma_picked_filtered(sorted, is_nonzero(), pick);
    sorting_keeps_what_is_picked(sorted, values, keys, both);
    crate::order::lemma_picked_alike(values, both, law);
}

/// A sort in ascending order keeps every value as often as it occurs.
pub proof fn sorted_values_are_kept(
    sorted: Seq<Binary64>,
    values: Seq<Binary64>,
    pick: spec_fn(Binary64) -> bool,
)
    requires
        values.len() <= usize::MAX,
        is_sorted_by(sorted, values, ascending_keys(values)),
    ensures
        sorted.len() == values.len(),
        picked(sorted, pick) == picked(values, pick),
{
    sorting_keeps_what_is_picked(sorted, values, ascending_keys(values), pick);
}

/// Each time but the last stands among the corners behind those that are earlier, and before
/// all others.
pub proof fn times_stand_behind_the_earlier_corners(
    indices: Seq<usize>,
    times: Seq<Binary64>,
    corners: Seq<Binary64>,
    i: int,
    c: int,
)
    requires
        ascends(corners),
        are_corner_places(indices, times, corners),
    ensures
        times.len() > 0 ==> indices.len() == times.len() - 1,
        times.len() == 0 ==> indices.len() == 0,
        0 <= i < times.len() - 1 ==> indices[i] <= corners.len(),
        0 <= i < times.len() - 1 && 0 <= c < corners.len() ==> (c < indices[i] <==> corners[c].lt(
            times[i],
        )),
{
    if 0 <= i < times.len() - 1 {
        values_below_stand_in_front(corners, times[i]);
    }
}

} // verus!
