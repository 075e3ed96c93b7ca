//! How varied the rhythm of a map is: gaps in whole ms and how often each occurs.

use crate::notes::{Note, RebirthData};
use crate::binary64::one_in_units;
use crate::conversion::conversions_round_down;
use crate::order::{
    arranged, is_stable_order, lemma_push_keeps, picked, precedes, sorting_keeps_what_is_picked,
    stable_order, SortKey,
};
use std::collections::HashMap;
use vstd::prelude::*;

verus! {

/// Differences of neighbours.
pub open spec fn gaps_of(values: Seq<i64>) -> Seq<int> {
    Seq::new(
        if values.len() == 0 {
            0
        } else {
            (values.len() - 1) as nat
        },
        |i: int| values[i + 1] - values[i],
    )
}

/// Machine integers as mathematical ones.
pub open spec fn numbers(values: Seq<i64>) -> Seq<int> {
    values.map_values(|value: i64| value as int)
}

/// Whether the differences of neighbours are in the range of `i64`.
pub open spec fn gaps_fit(values: Seq<i64>) -> bool {
    forall|i: int|
        0 <= i < gaps_of(values).len() ==> i64::MIN <= #[trigger] gaps_of(values)[i] <= i64::MAX
}

/// Differences of neighbours, if they are in the range of `i64`.
pub fn gaps(values: &Vec<i64>) -> (out: Option<Vec<i64>>)
    ensures
        out is Some <==> gaps_fit(values@),
        out is Some ==> numbers(out->0@) == gaps_of(values@),
{
    let mut out: Vec<i64> = Vec::new();
    let mut i: usize = 1;
    while i < values.len()
        invariant
            1 <= i,
            out.len() == i - 1,
            values.len() == 0 ==> i == 1,
            i <= values.len() || values.len() == 0,
            forall|k: int| 0 <= k < i - 1 ==> #[trigger] out[k] == gaps_of(values@)[k],
        decreases values.len() - i,
    {
        match values[i].checked_sub(values[i - 1]) {
            Some(gap) => {
                out.push(gap);
            },
            None => {
                proof {
                    let gap = gaps_of(values@)[i - 1];
                    assert(!(i64::MIN <= gap <= i64::MAX));
                }
                return None;
            },
        }
        i = i + 1;
    }
    proof {
        assert(numbers(out@) =~= gaps_of(values@));
        assert forall|k: int| 0 <= k < gaps_of(values@).len() implies i64::MIN <= #[trigger] gaps_of(
            values@,
        )[k] <= i64::MAX by {
            assert(out[k] == gaps_of(values@)[k]);
        }
    }
    Some(out)
}

/// When the notes start, in whole ms.
pub open spec fn head_values_of(notes: Seq<Note>) -> Seq<i64> {
    notes.map_values(|note: Note| note.head.as_i64() as i64)
}

/// When a hold ends in whole ms; -1 for any other note.
pub open spec fn tail_value_of(note: Note) -> int {
    match note.tail {
        Some(tail) => tail.as_i64(),
        None => -1,
    }
}

/// When a hold ends in whole ms; -1 for any other note.
pub fn tail_value(note: &Note) -> (value: i64)
    ensures
        value == tail_value_of(*note),
{
    match note.tail {
        Some(tail) => tail.to_i64(),
        None => -1,
    }
}

/// When the notes start, in whole ms.
pub fn head_values(notes: &Vec<Note>) -> (values: Vec<i64>)
    ensures
        values@ == head_values_of(notes@),
{
    let mut values: Vec<i64> = Vec::with_capacity(notes.len());
    let mut i: usize = 0;
    while i < notes.len()
        invariant
            i <= notes.len(),
            values.len() == i,
            forall|k: int| 0 <= k < i ==> values[k] == notes[k].head.as_i64(),
        decreases notes.len() - i,
    {
        values.push(notes[i].head.to_i64());
        i = i + 1;
    }
    assert(values@ =~= head_values_of(notes@));
    values
}

/// What numbers are sorted by.
pub open spec fn number_keys(values: Seq<i64>) -> Seq<SortKey> {
    Seq::new(values.len(), |i: int| SortKey { major: values[i], minor: 0 })
}

/// When the notes end in whole ms, -1 for notes that are no holds.
pub open spec fn tail_values_of(notes: Seq<Note>) -> Seq<i64> {
    notes.map_values(|note: Note| tail_value_of(note) as i64)
}

/// When the notes end in whole ms, -1 for notes that are no holds, in ascending order.
pub fn sorted_tail_values(notes: &Vec<Note>) -> (values: Vec<i64>)
    ensures
        crate::order::is_sorted_by(
            values@,
            tail_values_of(notes@),
            number_keys(tail_values_of(notes@)),
        ),
{
    let mut raw: Vec<i64> = Vec::with_capacity(notes.len());
    let mut i: usize = 0;
    while i < notes.len()
        invariant
            i <= notes.len(),
            raw.len() == i,
            forall|k: int| 0 <= k < i ==> raw[k] == tail_value_of(notes[k]),
        decreases notes.len() - i,
    {
        raw.push(tail_value(&notes[i]));
        i = i + 1;
    }
    assert(raw@ =~= tail_values_of(notes@));
    sorted_numbers(&raw)
}

/// The numbers in ascending order.
pub fn sorted_numbers(values: &Vec<i64>) -> (out: Vec<i64>)
    ensures
        crate::order::is_sorted_by(out@, values@, number_keys(values@)),
{
    let mut keys: Vec<SortKey> = Vec::with_capacity(values.len());
    let mut i: usize = 0;
    while i < values.len()
        invariant
            i <= values.len(),
            keys.len() == i,
            forall|k: int| 0 <= k < i ==> keys[k] == number_keys(values@)[k],
        decreases values.len() - i,
    {
        keys.push(SortKey { major: values[i], minor: 0 });
        i = i + 1;
    }
    assert(keys@ =~= number_keys(values@));
    let order: Vec<usize> = stable_order(&keys);
    let mut out: Vec<i64> = Vec::with_capacity(values.len());
    let mut n: usize = 0;
    while n < order.len()
        invariant
            n <= order.len(),
            keys@ == number_keys(values@),
            is_stable_order(keys@, order@),
            out.len() == n,
            forall|k: int| 0 <= k < n ==> out[k] == values[order[k] as int],
        decreases order.len() - n,
    {
        out.push(values[order[n]]);
        n = n + 1;
    }
    assert(out@ =~= crate::order::arranged(values@, order@));
    out
}

/// How often a number occurs.
pub open spec fn occurrences(values: Seq<i64>, x: i64) -> nat
    decreases values.len(),
{
    if values.len() == 0 {
        0
    } else {
        occurrences(values.drop_last(), x) + if values.last() == x {
            1nat
        } else {
            0nat
        }
    }
}

/// Whether the list ascends strictly.
pub open spec fn strictly_ascending(values: Seq<i64>) -> bool {
    forall|i: int, j: int|
        0 <= i < j < values.len() ==> (#[trigger] values[i]) < (#[trigger] values[j])
}

/// The distinct numbers in ascending order.
pub fn distinct(values: &Vec<i64>) -> (out: Vec<i64>)
    ensures
        strictly_ascending(out@),
        forall|x: i64| #[trigger] out@.contains(x) <==> values@.contains(x),
{
    let sorted: Vec<i64> = sorted_numbers(values);
    let ghost order = choose|order: Seq<usize>|
        #[trigger] is_stable_order(number_keys(values@), order) && sorted@
            == crate::order::arranged(values@, order);
    let mut out: Vec<i64> = Vec::new();
    let mut n: usize = 0;
    while n < sorted.len()
        invariant
            n <= sorted.len(),
            is_stable_order(number_keys(values@), order),
            sorted@ == crate::order::arranged(values@, order),
            n > 0 ==> out.len() > 0 && out@.last() == sorted[n - 1],
            n == 0 ==> out.len() == 0,
            strictly_ascending(out@),
            forall|k: int| 0 <= k < out.len() ==> sorted@.contains(#[trigger] out[k]),
            forall|k: int| 0 <= k < n ==> out@.contains(#[trigger] sorted[k]),
        decreases sorted.len() - n,
    {
        let value: i64 = sorted[n];
        let ghost before = out@;
        proof {
            lemma_push_keeps(before, value);
            assert(sorted@.contains(value));
            if n > 0 {
                assert(precedes(number_keys(values@), order[n - 1] as int, order[n as int] as int));
            }
        }
        if n == 0 || sorted[n - 1] != value {
            out.push(value);
        } else {
            assert(out@.contains(value)) by {
                assert(before[before.len() - 1] == value);
            }
        }
        n = n + 1;
    }
    proof {
        assert forall|x: i64| #[trigger] out@.contains(x) <==> values@.contains(x) by {
            if values@.contains(x) {
                let k = choose|k: int| 0 <= k < values.len() && values[k] == x;
                assert(order.contains(k as usize));
                let l = choose|l: int| 0 <= l < order.len() && order[l] == k as usize;
                assert(sorted[l] == x);
                assert(out@.contains(sorted[l]));
            }
            if out@.contains(x) {
                let k = choose|k: int| 0 <= k < out.len() && out[k] == x;
                assert(sorted@.contains(out[k]));
                let l = choose|l: int| 0 <= l < sorted.len() && sorted[l] == x;
                assert(order[l] < values.len());
                assert(values[order[l] as int] == x);
            }
        }
    }
    out
}

/// How often each number occurs; a number that is not there does not occur.
fn counted(values: &Vec<i64>) -> (counts: HashMap<i64, usize>)
    ensures
        forall|x: i64| #[trigger]
            occurrences(values@, x) == if counts@.contains_key(x) {
                counts@[x] as nat
            } else {
                0
            },
{
    broadcast use vstd::std_specs::hash::group_hash_axioms;

    let mut counts: HashMap<i64, usize> = HashMap::new();
    let mut i: usize = 0;
    assert(values@.take(0) =~= Seq::<i64>::empty());
    while i < values.len()
        invariant
            i <= values.len(),
            forall|x: i64| #[trigger]
                occurrences(values@.take(i as int), x) == if counts@.contains_key(x) {
                    counts@[x] as nat
                } else {
                    0
                },
            forall|x: i64| #[trigger] counts@.contains_key(x) ==> counts@[x] <= i,
        decreases values.len() - i,
    {
        broadcast use vstd::std_specs::hash::group_hash_axioms;

        let value: i64 = values[i];
        let seen: usize = match counts.get(&value) {
            Some(n) => *n,
            None => 0,
        };
        let ghost before = counts@;
        counts.insert(value, seen + 1);
        proof {
            assert(values@.take(i + 1).drop_last() =~= values@.take(i as int));
            assert(values@.take(i + 1).last() == value);
            assert forall|x: i64| #[trigger]
                occurrences(values@.take(i + 1), x) == if counts@.contains_key(x) {
                    counts@[x] as nat
                } else {
                    0
                } by {
                assert(occurrences(values@.take(i as int), x) == if before.contains_key(x) {
                    before[x] as nat
                } else {
                    0
                });
            }
        }
        i = i + 1;
    }
    assert(values@.take(i as int) =~= values@);
    counts
}

/// The numbers of a tally.
pub open spec fn tallied(counts: Seq<(i64, usize)>) -> Seq<i64> {
    counts.map_values(|entry: (i64, usize)| entry.0)
}

/// Whether `counts` tells how often each number occurs, in ascending order.
pub open spec fn is_tally(values: Seq<i64>, counts: Seq<(i64, usize)>) -> bool {
    &&& strictly_ascending(tallied(counts))
    &&& forall|x: i64| #[trigger] tallied(counts).contains(x) <==> values.contains(x)
    &&& forall|k: int|
        0 <= k < counts.len() ==> (#[trigger] counts[k]).1 == occurrences(values, counts[k].0)
}

/// How often each number occurs, in ascending order.
pub fn value_counts(values: &Vec<i64>) -> (counts: Vec<(i64, usize)>)
    ensures
        is_tally(values@, counts@),
{
    broadcast use vstd::std_specs::hash::group_hash_axioms;

    let uniques: Vec<i64> = distinct(values);
    let seen: HashMap<i64, usize> = counted(values);
    let mut counts: Vec<(i64, usize)> = Vec::with_capacity(uniques.len());
    let mut i: usize = 0;
    while i < uniques.len()
        invariant
            i <= uniques.len(),
            counts.len() == i,
            forall|x: i64| #[trigger]
                occurrences(values@, x) == if seen@.contains_key(x) {
                    seen@[x] as nat
                } else {
                    0
                },
            forall|k: int|
                0 <= k < i ==> (#[trigger] counts[k]).0 == uniques[k] && counts[k].1 == occurrences(
                    values@,
                    counts[k].0,
                ),
        decreases uniques.len() - i,
    {
        broadcast use vstd::std_specs::hash::group_hash_axioms;

        let count: usize = match seen.get(&uniques[i]) {
            Some(n) => *n,
            None => 0,
        };
        counts.push((uniques[i], count));
        i = i + 1;
    }
    assert(tallied(counts@) =~= uniques@);
    counts
}

/// The sum of the counts.
pub open spec fn tally_total(counts: Seq<(i64, usize)>) -> nat
    decreases counts.len(),
{
    if counts.len() == 0 {
        0
    } else {
        tally_total(counts.drop_last()) + counts.last().1 as nat
    }
}

proof fn lemma_tally_split(values: Seq<i64>, counts: Seq<(i64, usize)>, rest: Seq<(i64, usize)>)
    requires
        values.len() > 0,
        counts.len() == rest.len(),
        strictly_ascending(tallied(counts)),
        forall|k: int|
            0 <= k < counts.len() ==> (#[trigger] rest[k]).0 == counts[k].0 && counts[k].1
                == rest[k].1 + if counts[k].0 == values.last() {
                1int
            } else {
                0int
            },
    ensures
        tally_total(counts) == tally_total(rest) + if tallied(counts).contains(values.last()) {
            1nat
        } else {
            0nat
        },
    decreases counts.len(),
{
    if counts.len() > 0 {
        let c = counts.drop_last();
        let r = rest.drop_last();
        let n = counts.len() - 1;
        assert forall|k: int| 0 <= k < c.len() implies (#[trigger] r[k]).0 == c[k].0 && c[k].1
            == r[k].1 + if c[k].0 == values.last() {
            1int
        } else {
            0int
        } by {
            assert(r[k] == rest[k]);
        }
        assert(tallied(c) =~= tallied(counts).drop_last());
        lemma_tally_split(values, c, r);
        assert(rest[n].0 == counts[n].0);
        let last = values.last();
        assert(tallied(counts)[n] == counts[n].0);
        if tallied(c).contains(last) {
            let k = choose|k: int| 0 <= k < tallied(c).len() && tallied(c)[k] == last;
            assert(tallied(counts)[k] == last);
            assert(tallied(counts)[k] < tallied(counts)[n]);
        }
        if tallied(counts).contains(last) {
            let k = choose|k: int| 0 <= k < tallied(counts).len() && tallied(counts)[k] == last;
            if k < n {
                assert(tallied(c)[k] == last);
            }
        }
    }
}

proof fn lemma_tally_total(values: Seq<i64>, counts: Seq<(i64, usize)>)
    requires
        strictly_ascending(tallied(counts)),
        forall|x: i64| values.contains(x) ==> #[trigger] tallied(counts).contains(x),
        forall|k: int|
            0 <= k < counts.len() ==> (#[trigger] counts[k]).1 == occurrences(values, counts[k].0),
    ensures
        tally_total(counts) == values.len(),
    decreases values.len(),
{
    if values.len() == 0 {
        lemma_tally_of_nothing(counts);
    } else {
        let fewer = values.drop_last();
        let rest = counts.map_values(
            |entry: (i64, usize)| (entry.0, occurrences(fewer, entry.0) as usize),
        );
        assert forall|k: int| 0 <= k < counts.len() implies (#[trigger] rest[k]).0 == counts[k].0
            && rest[k].1 == occurrences(fewer, counts[k].0) by {
            assert(counts[k].1 == occurrences(values, counts[k].0));
        }
        assert(tallied(rest) =~= tallied(counts));
        assert forall|x: i64| fewer.contains(x) implies #[trigger] tallied(rest).contains(x) by {
            let k = choose|k: int| 0 <= k < fewer.len() && fewer[k] == x;
            assert(values[k] == x);
        }
        lemma_tally_total(fewer, rest);
        assert forall|k: int| 0 <= k < counts.len() implies (#[trigger] rest[k]).0 == counts[k].0
            && counts[k].1 == rest[k].1 + if counts[k].0 == values.last() {
            1int
        } else {
            0int
        } by {
            assert(counts[k].1 == occurrences(values, counts[k].0));
        }
        lemma_tally_split(values, counts, rest);
        assert(values[values.len() - 1] == values.last());
        assert(values.contains(values.last()));
    }
}

proof fn lemma_tally_of_nothing(counts: Seq<(i64, usize)>)
    requires
        forall|k: int| 0 <= k < counts.len() ==> (#[trigger] counts[k]).1 == 0,
    ensures
        tally_total(counts) == 0,
    decreases counts.len(),
{
    if counts.len() > 0 {
        assert(counts[counts.len() - 1].1 == 0);
        let c = counts.drop_last();
        assert forall|k: int| 0 <= k < c.len() implies (#[trigger] c[k]).1 == 0 by {
            assert(c[k] == counts[k]);
        }
        lemma_tally_of_nothing(c);
    }
}

/// The counts of a tally add up to how many numbers were tallied.
pub proof fn tally_is_complete(values: Seq<i64>, counts: Seq<(i64, usize)>)
    requires
        is_tally(values, counts),
    ensures
        tally_total(counts) == values.len(),
{
    lemma_tally_total(values, counts);
}

/// The gaps between the notes of each column, column after column.
pub open spec fn column_gaps_of(columns: Seq<Vec<Note>>) -> Seq<int>
    decreases columns.len(),
{
    if columns.len() == 0 {
        Seq::empty()
    } else {
        column_gaps_of(columns.drop_last()) + gaps_of(head_values_of(columns.last()@))
    }
}

/// Whether the gaps between the notes of each column are in the range of `i64`.
pub open spec fn column_gaps_fit(columns: Seq<Vec<Note>>) -> bool {
    forall|c: int| 0 <= c < columns.len() ==> gaps_fit(head_values_of((#[trigger] columns[c])@))
}

/// The gaps between the notes of each column, if they are in the range of `i64`.
pub fn column_gaps(columns: &Vec<Vec<Note>>) -> (out: Option<Vec<i64>>)
    ensures
        out is Some <==> column_gaps_fit(columns@),
        out is Some ==> numbers(out->0@) == column_gaps_of(columns@),
{
    let mut out: Vec<i64> = Vec::new();
    let mut column: usize = 0;
    assert(columns@.take(0) =~= Seq::<Vec<Note>>::empty());
    assert(numbers(out@) =~= Seq::<int>::empty());
    while column < columns.len()
        invariant
            column <= columns.len(),
            column_gaps_fit(columns@.take(column as int)),
            numbers(out@) == column_gaps_of(columns@.take(column as int)),
        decreases columns.len() - column,
    {
        let values: Vec<i64> = head_values(&columns[column]);
        let ghost longer = columns@.take(column + 1);
        proof {
            assert(longer.drop_last() =~= columns@.take(column as int));
            assert(longer.last() == columns@[column as int]);
        }
        match gaps(&values) {
            None => {
                assert(!gaps_fit(head_values_of(columns@[column as int]@)));
                return None;
            },
            Some(row) => {
                let ghost before = out@;
                append_numbers(&mut out, &row);
                proof {
                    assert(numbers(out@) =~= numbers(before) + numbers(row@));
                    assert forall|c: int| 0 <= c < longer.len() implies gaps_fit(
                        head_values_of((#[trigger] longer[c])@),
                    ) by {
                        if c < column {
                            assert(longer[c] == columns@.take(column as int)[c]);
                        }
                    }
                }
            },
        }
        column = column + 1;
    }
    assert(columns@.take(column as int) =~= columns@);
    Some(out)
}

fn append_numbers(out: &mut Vec<i64>, values: &Vec<i64>)
    ensures
        final(out)@ == old(out)@ + values@,
{
    let ghost before = out@;
    let mut i: usize = 0;
    while i < values.len()
        invariant
            i <= values.len(),
            out@ == before + values@.take(i as int),
        decreases values.len() - i,
    {
        out.push(values[i]);
        proof {
            assert(values@.take(i + 1) =~= values@.take(i as int).push(values@[i as int]));
        }
        i = i + 1;
    }
    assert(values@.take(i as int) =~= values@);
}

/// How often each gap occurs in a map.
pub struct GapCounts {
    /// Between the heads of consecutive notes.
    pub heads: Vec<(i64, usize)>,
    /// Between consecutive tails, where notes that are no holds have the tail -1.
    pub tails: Vec<(i64, usize)>,
    /// Between the heads of consecutive notes of a column.
    pub columns: Vec<(i64, usize)>,
}

/// Whether `counts` tells how often each of `gaps` occurs.
pub open spec fn counts_gaps(gaps: Seq<int>, counts: Seq<(i64, usize)>) -> bool {
    exists|values: Seq<i64>| #[trigger] numbers(values) == gaps && is_tally(values, counts)
}

/// Whether `values` are the tail values of the notes in ascending order.
pub open spec fn are_sorted_tails(notes: Seq<Note>, values: Seq<i64>) -> bool {
    crate::order::is_sorted_by(values, tail_values_of(notes), number_keys(tail_values_of(notes)))
}

/// Whether `counts` tells how often each gap occurs in a map, if all gaps are in the range of
/// `i64`.
pub open spec fn tells_the_gaps(data: RebirthData, counts: Option<GapCounts>) -> bool {
    &&& counts is Some <==> {
        &&& gaps_fit(head_values_of(data.notes@))
        &&& column_gaps_fit(data.notes_by_column@)
        &&& exists|tails: Seq<i64>| #[trigger]
            are_sorted_tails(data.notes@, tails) && gaps_fit(tails)
    }
    &&& counts matches Some(counts) ==> {
        &&& counts_gaps(gaps_of(head_values_of(data.notes@)), counts.heads@)
        &&& counts_gaps(column_gaps_of(data.notes_by_column@), counts.columns@)
        &&& exists|tails: Seq<i64>| #[trigger]
            are_sorted_tails(data.notes@, tails) && counts_gaps(gaps_of(tails), counts.tails@)
    }
}

/// How often each gap occurs in a map, if all gaps are in the range of `i64`.
pub fn gap_counts(data: &RebirthData) -> (counts: Option<GapCounts>)
    ensures
        tells_the_gaps(*data, counts),
{
    let head_times: Vec<i64> = head_values(&data.notes);
    let tail_times: Vec<i64> = sorted_tail_values(&data.notes);
    assert(are_sorted_tails(data.notes@, tail_times@));
    let head_gaps: Vec<i64> = match gaps(&head_times) {
        Some(found) => found,
        None => {
            return None;
        },
    };
    let tail_gaps: Vec<i64> = match gaps(&tail_times) {
        Some(found) => found,
        None => {
            proof {
                assert forall|tails: Seq<i64>| #[trigger]
                    are_sorted_tails(data.notes@, tails) implies !gaps_fit(tails) by {
                    crate::order::lemma_sorted_is_unique(
                        tails,
                        tail_times@,
                        tail_values_of(data.notes@),
                        number_keys(tail_values_of(data.notes@)),
                    );
                }
            }
            return None;
        },
    };
    let inner_gaps: Vec<i64> = match column_gaps(&data.notes_by_column) {
        Some(found) => found,
        None => {
            return None;
        },
    };
    let heads: Vec<(i64, usize)> = value_counts(&head_gaps);
    let tails: Vec<(i64, usize)> = value_counts(&tail_gaps);
    let columns: Vec<(i64, usize)> = value_counts(&inner_gaps);
    proof {
        assert(counts_gaps(gaps_of(head_times@), heads@));
        assert(counts_gaps(gaps_of(tail_times@), tails@));
        assert(counts_gaps(column_gaps_of(data.notes_by_column@), columns@));
    }
    Some(GapCounts { heads, tails, columns })
}

/// The sum of the first `k` of the numbers.
pub open spec fn sum_of(values: Seq<int>, k: int) -> int
    decreases k,
{
    if k <= 0 {
        0
    } else {
        sum_of(values, k - 1) + values[k - 1]
    }
}

/// Gaps lead from each number to the next: the first number and the gaps give all numbers
/// back.
pub proof fn gaps_lead_from_number_to_number(values: Seq<i64>, k: int)
    requires
        0 <= k < values.len(),
    ensures
        gaps_of(values).len() == values.len() - 1,
        values[0] + sum_of(gaps_of(values), k) == values[k],
    decreases k,
{
    if k > 0 {
        gaps_lead_from_number_to_number(values, k - 1);
    }
}

/// The gaps of some columns and of further ones are the gaps of all of them, and those of a
/// single column lead from note to note.
pub proof fn gaps_of_columns_join(a: Seq<Vec<Note>>, b: Seq<Vec<Note>>)
    ensures
        column_gaps_of(a + b) == column_gaps_of(a) + column_gaps_of(b),
        a.len() == 0 ==> column_gaps_of(a).len() == 0,
        a.len() == 1 ==> column_gaps_of(a) == gaps_of(head_values_of(a[0]@)),
    decreases b.len(),
{
    if a.len() == 1 {
        assert(a.drop_last() =~= Seq::empty());
        assert(column_gaps_of(a.drop_last()) =~= Seq::empty());
        assert(column_gaps_of(a) =~= gaps_of(head_values_of(a[0]@)));
    }
    if b.len() == 0 {
        assert(a + b =~= a);
        assert(column_gaps_of(a) + column_gaps_of(b) =~= column_gaps_of(a));
    } else {
        assert((a + b).drop_last() =~= a + b.drop_last());
        gaps_of_columns_join(a, b.drop_last());
        assert(column_gaps_of(a + b) =~= column_gaps_of(a) + column_gaps_of(b));
    }
}

/// Notes start and end in whole ms, cut towards zero: from `k` on and below `k + 1` at `k`, and
/// from `-k` down and above `-k - 1` at `-k`. A note that is no hold ends at -1.
pub proof fn times_are_cut_to_whole_ms(notes: Seq<Note>, i: int, k: nat)
    requires
        0 <= i < notes.len(),
        k <= 0x7fff_ffff_ffff_ffff,
    ensures
        head_values_of(notes).len() == notes.len(),
        !notes[i].head.is_nan() && k * one_in_units() <= notes[i].head.units() < (k + 1)
            * one_in_units() ==> head_values_of(notes)[i] == k,
        !notes[i].head.is_nan() && k * one_in_units() <= -notes[i].head.units() < (k + 1)
            * one_in_units() ==> head_values_of(notes)[i] == -k,
        notes[i].tail is None ==> tail_value_of(notes[i]) == -1,
        notes[i].tail matches Some(tail) ==> {
            &&& !tail.is_nan() && k * one_in_units() <= tail.units() < (k + 1) * one_in_units()
                ==> tail_value_of(notes[i]) == k
            &&& !tail.is_nan() && k * one_in_units() <= -tail.units() < (k + 1) * one_in_units()
                ==> tail_value_of(notes[i]) == -k
        },
{
    conversions_round_down(notes[i].head, 0, k);
    if let Some(tail) = notes[i].tail {
        conversions_round_down(tail, 0, k);
    }
}

/// How often a number occurs adds up over groups, and a single number occurs once.
pub proof fn occurrences_add_up(a: Seq<i64>, b: Seq<i64>, x: i64)
    ensures
        occurrences(a + b, x) == occurrences(a, x) + occurrences(b, x),
        a.len() == 0 ==> occurrences(a, x) == 0,
        a.len() == 1 ==> occurrences(a, x) <= 1 && (occurrences(a, x) == 1 <==> a[0] == x),
    decreases b.len(),
{
    if a.len() == 1 {
        assert(a.drop_last() =~= Seq::empty());
        assert(occurrences(a.drop_last(), x) == 0);
    }
    if b.len() == 0 {
        assert(a + b =~= a);
    } else {
        assert((a + b).drop_last() =~= a + b.drop_last());
        occurrences_add_up(a, b.drop_last(), x);
    }
}

proof fn lemma_occurrences_are_picked(values: Seq<i64>, x: i64)
    ensures
        occurrences(values, x) == picked(values, |value: i64| value == x),
    decreases values.len(),
{
    if values.len() > 0 {
        lemma_occurrences_are_picked(values.drop_last(), x);
    }
}

/// Sorted numbers ascend, and each occurs as often as before.
pub proof fn sorted_numbers_ascend(sorted: Seq<i64>, values: Seq<i64>, i: int, j: int, x: i64)
    requires
        values.len() <= usize::MAX,
        crate::order::is_sorted_by(sorted, values, number_keys(values)),
        0 <= i < j < sorted.len(),
    ensures
        sorted[i] <= sorted[j],
        occurrences(sorted, x) == occurrences(values, x),
{
    let keys = number_keys(values);
    let order = choose|order: Seq<usize>|
        #[trigger] is_stable_order(keys, order) && sorted == arranged(values, order);
    assert(precedes(keys, order[i] as int, order[j] as int));
    assert(sorted[i] == values[order[i] as int] && sorted[j] == values[order[j] as int]);
    lemma_occurrences_are_picked(sorted, x);
    lemma_occurrences_are_picked(values, x);
    sorting_keeps_what_is_picked(sorted, values, keys, |value: i64| value == x);
}

/// Every number is tallied as often as it occurs, and none that does not occur.
pub proof fn tallies_tell_how_often(values: Seq<i64>, counts: Seq<(i64, usize)>, x: i64)
    requires
        is_tally(values, counts),
    ensures
        values.contains(x) ==> exists|k: int|
            0 <= k < counts.len() && (#[trigger] counts[k]).0 == x && counts[k].1 == occurrences(
                values,
                x,
            ),
        forall|a: int, b: int|
            0 <= a < b < counts.len() ==> (#[trigger] counts[a]).0 < (#[trigger] counts[b]).0,
        forall|k: int| 0 <= k < counts.len() ==> values.contains((#[trigger] counts[k]).0),
{
    let numbers = tallied(counts);
    if values.contains(x) {
        assert(numbers.contains(x));
        let k = choose|k: int| 0 <= k < numbers.len() && numbers[k] == x;
        assert(counts[k].0 == x);
    }
    assert forall|a: int, b: int| 0 <= a < b < counts.len() implies (#[trigger] counts[a]).0 < (
    #[trigger] counts[b]).0 by {
        assert(numbers[a] < numbers[b]);
    }
    assert forall|k: int| 0 <= k < counts.len() implies values.contains((#[trigger] counts[k]).0) by {
        assert(numbers[k] == counts[k].0);
        assert(numbers.contains(numbers[k]));
    }
}

/// A tally of gaps counts every gap, as often as it occurs, and adds up to how many there are.
pub proof fn every_gap_is_counted(gaps: Seq<int>, counts: Seq<(i64, usize)>, i: int)
    requires
        counts_gaps(gaps, counts),
        0 <= i < gaps.len(),
    ensures
        tally_total(counts) == gaps.len(),
        exists|k: int| 0 <= k < counts.len() && (#[trigger] counts[k]).0 == gaps[i],
{
    let values = choose|values: Seq<i64>| #[trigger]
        numbers(values) == gaps && is_tally(values, counts);
    assert(numbers(values)[i] == values[i]);
    tally_is_complete(values, counts);
    assert(values.contains(values[i]));
    tallies_tell_how_often(values, counts, values[i]);
}

/// Every note has a tail value, in order; and gaps fit exactly if no two neighbours are further
/// apart than an `i64` can tell.
pub proof fn notes_have_tail_values(notes: Seq<Note>, values: Seq<i64>, i: int)
    ensures
        tail_values_of(notes).len() == notes.len(),
        0 <= i < notes.len() && notes[i].tail is None ==> tail_values_of(notes)[i] == -1,
        0 <= i < notes.len() ==> (notes[i].tail matches Some(tail) ==> tail_values_of(notes)[i]
            == tail.as_i64()),
        gaps_fit(values) && 0 <= i < values.len() - 1 ==> i64::MIN <= values[i + 1] - values[i]
            <= i64::MAX,
        (forall|k: int|
            0 <= k < gaps_of(values).len() ==> i64::MIN <= #[trigger] gaps_of(values)[k]
                <= i64::MAX) ==> gaps_fit(values),
{
    if gaps_fit(values) && 0 <= i < values.len() - 1 {
        assert(i64::MIN <= gaps_of(values)[i] <= i64::MAX);
    }
}

/// A map with notes has one gap between heads, and one between tails, less than it has notes.
/// The gap from each note to the next is counted, and so is the one from each note of a column
/// to the next of that column.
pub proof fn every_gap_of_a_map_is_counted(
    data: RebirthData,
    counts: GapCounts,
    column: int,
    i: int,
)
    requires
        tells_the_gaps(data, Some(counts)),
        data.notes@.len() >= 2,
    ensures
        tally_total(counts.heads@) == data.notes@.len() - 1,
        tally_total(counts.tails@) == data.notes@.len() - 1,
        0 <= i < data.notes@.len() - 1 ==> exists|k: int|
            0 <= k < counts.heads@.len() && (#[trigger] counts.heads@[k]).0 == head_values_of(
                data.notes@,
            )[i + 1] - head_values_of(data.notes@)[i],
        0 <= column < data.notes_by_column@.len() && 0 <= i
            < data.notes_by_column@[column]@.len() - 1 ==> exists|k: int|
            0 <= k < counts.columns@.len() && (#[trigger] counts.columns@[k]).0 == head_values_of(
                data.notes_by_column@[column]@,
            )[i + 1] - head_values_of(data.notes_by_column@[column]@)[i],
{
    let heads = gaps_of(head_values_of(data.notes@));
    every_gap_is_counted(heads, counts.heads@, 0);
    if 0 <= i < heads.len() {
        every_gap_is_counted(heads, counts.heads@, i);
    }
    let tails = choose|tails: Seq<i64>| #[trigger]
        are_sorted_tails(data.notes@, tails) && counts_gaps(gaps_of(tails), counts.tails@);
    crate::order::sorting_keeps_every_item(
        tails,
        tail_values_of(data.notes@),
        number_keys(tail_values_of(data.notes@)),
    );
    every_gap_is_counted(gaps_of(tails), counts.tails@, 0);
    if 0 <= column < data.notes_by_column@.len() && 0 <= i < data.notes_by_column@[column]@.len()
        - 1 {
        let columns = data.notes_by_column@;
        let before = columns.take(column);
        let after = columns.skip(column + 1);
        let own = seq![columns[column]];
        assert(columns =~= before + (own + after));
        gaps_of_columns_join(before, own + after);
        gaps_of_columns_join(own, after);
        let all = column_gaps_of(columns);
        let place = column_gaps_of(before).len() + i;
        assert(own[0] == columns[column]);
        assert(column_gaps_of(own)[i] == gaps_of(head_values_of(columns[column]@))[i]);
        assert(all[place] == column_gaps_of(own)[i]);
        every_gap_is_counted(all, counts.columns@, place);
    }
}

} // verus!
