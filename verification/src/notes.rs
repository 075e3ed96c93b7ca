//! The notes of a map, arranged for the calculation.

use crate::binary64::{lemma_size_order, lemma_size_zero, Binary64};
use crate::order::{
    arranged, is_sorted_by, is_stable_order, lemma_kept_apart, lemma_picked_filtered, lemma_picked_joined,
    lemma_sorted_is_unique, picked, precedes, sorting_keeps_what_is_picked, stable_order, SortKey,
};
use vstd::prelude::*;

verus! {

/// A note, or a hold note if it has a tail. Times are in ms.
#[derive(Clone, Copy, Debug, PartialEq, Eq, Structural)]
pub struct Note {
    pub column: usize,
    pub head: Binary64,
    pub tail: Option<Binary64>,
}

impl Note {
    pub open spec fn end(self) -> Binary64 {
        match self.tail {
            Some(tail) => tail,
            None => self.head,
        }
    }

    /// When the note ends.
    pub fn tail_or_head(self) -> (time: Binary64)
        ensures
            time == self.end(),
    {
        match self.tail {
            Some(tail) => tail,
            None => self.head,
        }
    }
}

/// What notes are sorted by: when they start, then their column.
pub open spec fn note_keys(notes: Seq<Note>) -> Seq<SortKey> {
    Seq::new(
        notes.len(),
        |i: int| SortKey { major: notes[i].head.total_rank() as i64, minor: notes[i].column },
    )
}

/// What hold notes are sorted by when their tails matter: when they end.
pub open spec fn tail_keys(notes: Seq<Note>) -> Seq<SortKey> {
    Seq::new(
        notes.len(),
        |i: int| SortKey { major: notes[i].end().total_rank() as i64, minor: 0 },
    )
}

/// Whether every note is in one of the columns.
pub open spec fn in_range(notes: Seq<Note>, total_columns: usize) -> bool {
    forall|i: int| 0 <= i < notes.len() ==> (#[trigger] notes[i]).column < total_columns
}

/// Picks the notes of a column.
pub open spec fn in_column(column: usize) -> spec_fn(Note) -> bool {
    |note: Note| note.column == column
}

/// Picks the hold notes.
pub open spec fn is_long() -> spec_fn(Note) -> bool {
    |note: Note| note.tail is Some
}

/// Whether the notes start one after another.
pub open spec fn start_in_order(notes: Seq<Note>) -> bool {
    forall|i: int, j: int|
        0 <= i < j < notes.len() ==> (#[trigger] notes[i]).head.total_rank() <= (
        #[trigger] notes[j]).head.total_rank()
}

/// Whether `time` is the latest head or tail of the notes, or zero if none is later.
pub open spec fn is_latest(notes: Seq<Note>, time: Binary64) -> bool {
    &&& !time.is_nan()
    &&& time.units() >= 0
    &&& forall|i: int|
        0 <= i < notes.len() ==> !time.lt((#[trigger] notes[i]).head) && !time.lt(notes[i].end())
    &&& time.bits == 0 || time.units() > 0 && exists|i: int|
        0 <= i < notes.len() && (time == (#[trigger] notes[i]).head || time == notes[i].end())
}

/// Notes have one latest time.
pub proof fn lemma_latest_is_unique(notes: Seq<Note>, a: Binary64, b: Binary64)
    requires
        is_latest(notes, a),
        is_latest(notes, b),
    ensures
        a == b,
{
    lemma_size_zero(0);
    lemma_size_order(a.magnitude(), b.magnitude());
    lemma_size_zero(a.magnitude());
    lemma_size_zero(b.magnitude());
    if a.bits != 0 {
        let i = choose|i: int|
            0 <= i < notes.len() && (a == (#[trigger] notes[i]).head || a == notes[i].end());
        assert(!b.lt(notes[i].head) && !b.lt(notes[i].end()));
    }
    if b.bits != 0 {
        let i = choose|i: int|
            0 <= i < notes.len() && (b == (#[trigger] notes[i]).head || b == notes[i].end());
        assert(!a.lt(notes[i].head) && !a.lt(notes[i].end()));
    }
}

/// Notes picked out of notes in the columns are in the columns.
pub proof fn lemma_filter_in_range(
    notes: Seq<Note>,
    pick: spec_fn(Note) -> bool,
    total_columns: usize,
)
    requires
        in_range(notes, total_columns),
    ensures
        in_range(notes.filter(pick), total_columns),
    decreases notes.len(),
{
    reveal(Seq::filter);
    if notes.len() > 0 {
        lemma_filter_in_range(notes.drop_last(), pick, total_columns);
        assert(notes[notes.len() - 1].column < total_columns);
    }
}

/// The items at the positions that `order` lists.
fn arrange(items: &Vec<Note>, order: &Vec<usize>) -> (out: Vec<Note>)
    requires
        forall|i: int| 0 <= i < order.len() ==> (#[trigger] order[i]) < items.len(),
    ensures
        out@ == arranged(items@, order@),
{
    let mut out: Vec<Note> = Vec::with_capacity(order.len());
    let mut i: usize = 0;
    while i < order.len()
        invariant
            i <= order.len(),
            out.len() == i,
            forall|i: int| 0 <= i < order.len() ==> (#[trigger] order[i]) < items.len(),
            forall|k: int| 0 <= k < i ==> out[k] == items[order[k] as int],
        decreases order.len() - i,
    {
        out.push(items[order[i]]);
        i = i + 1;
    }
    assert(out@ =~= arranged(items@, order@));
    out
}

/// The notes sorted by when they start, then by column.
pub fn sort_notes(notes: &Vec<Note>) -> (sorted: Vec<Note>)
    ensures
        is_sorted_by(sorted@, notes@, note_keys(notes@)),
{
    let mut keys: Vec<SortKey> = Vec::with_capacity(notes.len());
    let mut i: usize = 0;
    while i < notes.len()
        invariant
            i <= notes.len(),
            keys.len() == i,
            forall|k: int| 0 <= k < i ==> keys[k] == note_keys(notes@)[k],
        decreases notes.len() - i,
    {
        keys.push(SortKey { major: notes[i].head.rank(), minor: notes[i].column });
        i = i + 1;
    }
    let order: Vec<usize> = stable_order(&keys);
    assert(keys@ =~= note_keys(notes@));
    arrange(notes, &order)
}

/// The notes sorted by when they end.
pub fn sort_by_tail(notes: &Vec<Note>) -> (sorted: Vec<Note>)
    ensures
        is_sorted_by(sorted@, notes@, tail_keys(notes@)),
{
    let mut keys: Vec<SortKey> = Vec::with_capacity(notes.len());
    let mut i: usize = 0;
    while i < notes.len()
        invariant
            i <= notes.len(),
            keys.len() == i,
            forall|k: int| 0 <= k < i ==> keys[k] == tail_keys(notes@)[k],
        decreases notes.len() - i,
    {
        keys.push(SortKey { major: notes[i].tail_or_head().rank(), minor: 0 });
        i = i + 1;
    }
    let order: Vec<usize> = stable_order(&keys);
    assert(keys@ =~= tail_keys(notes@));
    arrange(notes, &order)
}

/// The notes of one column, in order.
fn notes_of_column(notes: &Vec<Note>, column: usize) -> (out: Vec<Note>)
    ensures
        out@ == notes@.filter(in_column(column)),
{
    let mut out: Vec<Note> = Vec::new();
    let mut i: usize = 0;
    proof {
        reveal(Seq::filter);
    }
    while i < notes.len()
        invariant
            i <= notes.len(),
            out@ == notes@.take(i as int).filter(in_column(column)),
        decreases notes.len() - i,
    {
        proof {
            reveal(Seq::filter);
            assert(notes@.take(i + 1).drop_last() =~= notes@.take(i as int));
        }
        if notes[i].column == column {
            out.push(notes[i]);
        }
        i = i + 1;
    }
    assert(notes@.take(i as int) =~= notes@);
    out
}

/// The hold notes, in order.
fn long_notes_of(notes: &Vec<Note>) -> (out: Vec<Note>)
    ensures
        out@ == notes@.filter(is_long()),
{
    let mut out: Vec<Note> = Vec::new();
    let mut i: usize = 0;
    proof {
        reveal(Seq::filter);
    }
    while i < notes.len()
        invariant
            i <= notes.len(),
            out@ == notes@.take(i as int).filter(is_long()),
        decreases notes.len() - i,
    {
        proof {
            reveal(Seq::filter);
            assert(notes@.take(i + 1).drop_last() =~= notes@.take(i as int));
        }
        if notes[i].tail.is_some() {
            out.push(notes[i]);
        }
        i = i + 1;
    }
    assert(notes@.take(i as int) =~= notes@);
    out
}

/// The latest head or tail, or zero.
fn latest_time(notes: &Vec<Note>) -> (time: Binary64)
    ensures
        is_latest(notes@, time),
{
    let mut time: Binary64 = Binary64::from_bits(0);
    let mut i: usize = 0;
    proof {
        lemma_size_zero(0);
    }
    while i < notes.len()
        invariant
            i <= notes.len(),
            !time.is_nan(),
            time.units() >= 0,
            forall|k: int|
                0 <= k < i ==> !time.lt((#[trigger] notes[k]).head) && !time.lt(notes[k].end()),
            time.bits == 0 || time.units() > 0 && exists|k: int|
                0 <= k < i && (time == (#[trigger] notes[k]).head || time == notes[k].end()),
        decreases notes.len() - i,
    {
        let head: Binary64 = notes[i].head;
        let end: Binary64 = notes[i].tail_or_head();
        if time.less(head) {
            time = head;
        }
        if time.less(end) {
            time = end;
        }
        i = i + 1;
    }
    time
}

/// A map's notes, sorted and split up.
pub struct RebirthData {
    /// How many columns the map has.
    pub total_columns: usize,
    /// When the last note ends, or zero.
    pub last_time: Binary64,
    /// All notes, by head and column.
    pub notes: Vec<Note>,
    /// The notes of each column.
    pub notes_by_column: Vec<Vec<Note>>,
    /// The hold notes.
    pub long_notes: Vec<Note>,
    /// The hold notes by tail.
    pub tails: Vec<Note>,
}

impl RebirthData {
    /// Whether the parts belong together.
    pub open spec fn wf(&self) -> bool {
        &&& self.notes_by_column.len() == self.total_columns
        &&& forall|c: usize|
            c < self.total_columns ==> (#[trigger] self.notes_by_column[c as int])@
                == self.notes@.filter(in_column(c))
        &&& self.long_notes@ == self.notes@.filter(is_long())
        &&& is_sorted_by(self.tails@, self.long_notes@, tail_keys(self.long_notes@))
        &&& is_latest(self.notes@, self.last_time)
        &&& start_in_order(self.notes@)
    }

    pub fn new(notes: &Vec<Note>, total_columns: usize) -> (data: RebirthData)
        ensures
            data.wf(),
            data.total_columns == total_columns,
            is_sorted_by(data.notes@, notes@, note_keys(notes@)),
    {
        let ghost given = notes@;
        let notes: Vec<Note> = sort_notes(notes);
        proof {
            sorted_notes_start_in_order(notes@, given);
        }
        let mut notes_by_column: Vec<Vec<Note>> = Vec::with_capacity(total_columns);
        let mut column: usize = 0;
        while column < total_columns
            invariant
                column <= total_columns,
                notes_by_column.len() == column,
                forall|c: usize|
                    c < column ==> (#[trigger] notes_by_column[c as int])@ == notes@.filter(
                        in_column(c),
                    ),
            decreases total_columns - column,
        {
            notes_by_column.push(notes_of_column(&notes, column));
            column = column + 1;
        }
        let long_notes: Vec<Note> = long_notes_of(&notes);
        let tails: Vec<Note> = sort_by_tail(&long_notes);
        let last_time: Binary64 = latest_time(&notes);
        RebirthData { total_columns, last_time, notes, notes_by_column, long_notes, tails }
    }
}

/// Whether two maps hold the same notes, sorted and split up alike.
pub open spec fn same_data(a: RebirthData, b: RebirthData) -> bool {
    &&& a.total_columns == b.total_columns
    &&& a.last_time == b.last_time
    &&& a.notes@ == b.notes@
    &&& a.notes_by_column.len() == b.notes_by_column.len()
    &&& forall|c: int|
        0 <= c < a.notes_by_column.len() ==> (#[trigger] a.notes_by_column[c])@
            == b.notes_by_column[c]@
    &&& a.long_notes@ == b.long_notes@
    &&& a.tails@ == b.tails@
}

/// The data of a map is a function of its notes and of the number of its columns.
pub proof fn data_is_settled_by_the_notes(a: RebirthData, b: RebirthData, notes: Seq<Note>)
    requires
        a.wf(),
        b.wf(),
        a.total_columns == b.total_columns,
        is_sorted_by(a.notes@, notes, note_keys(notes)),
        is_sorted_by(b.notes@, notes, note_keys(notes)),
    ensures
        same_data(a, b),
{
    lemma_sorted_is_unique(a.notes@, b.notes@, notes, note_keys(notes));
    lemma_sorted_is_unique(a.tails@, b.tails@, a.long_notes@, tail_keys(a.long_notes@));
    lemma_latest_is_unique(a.notes@, a.last_time, b.last_time);
    assert forall|c: int| 0 <= c < a.notes_by_column.len() implies (
    #[trigger] a.notes_by_column[c])@ == b.notes_by_column[c]@ by {
        let column = c as usize;
        assert(a.notes_by_column[column as int]@ == a.notes@.filter(in_column(column)));
        assert(b.notes_by_column[column as int]@ == b.notes@.filter(in_column(column)));
    }
}

/// Whether `result` holds the notes of the two columns on either side of the gap
/// `pair_column`; at the edges of the keyboard there is one column.
pub open spec fn is_pair(data: RebirthData, pair_column: usize, result: Seq<Note>) -> bool {
    let columns = data.notes_by_column@;
    if data.total_columns == 0 {
        result.len() == 0
    } else if pair_column == 0 {
        result == columns[0]@
    } else if pair_column == data.total_columns {
        result == columns[pair_column - 1]@
    } else {
        let both = columns[pair_column - 1]@ + columns[pair_column as int]@;
        is_sorted_by(result, both, note_keys(both))
    }
}

fn copied(notes: &Vec<Note>) -> (out: Vec<Note>)
    ensures
        out@ == notes@,
{
    let mut out: Vec<Note> = Vec::with_capacity(notes.len());
    append_notes(&mut out, notes);
    assert(out@ =~= notes@);
    out
}

fn append_notes(out: &mut Vec<Note>, notes: &Vec<Note>)
    ensures
        final(out)@ == old(out)@ + notes@,
{
    let ghost before = out@;
    let mut i: usize = 0;
    while i < notes.len()
        invariant
            i <= notes.len(),
            out@ == before + notes@.take(i as int),
        decreases notes.len() - i,
    {
        out.push(notes[i]);
        proof {
            assert(notes@.take(i + 1) =~= notes@.take(i as int).push(notes@[i as int]));
        }
        i = i + 1;
    }
    assert(notes@.take(i as int) =~= notes@);
}

/// The notes of the two columns on either side of the gap `pair_column`.
pub fn notes_in_pair(data: &RebirthData, pair_column: usize) -> (notes: Vec<Note>)
    requires
        data.wf(),
        pair_column <= data.total_columns,
    ensures
        is_pair(*data, pair_column, notes@),
{
    if data.total_columns == 0 {
        Vec::new()
    } else if pair_column == 0 {
        copied(&data.notes_by_column[0])
    } else if pair_column == data.total_columns {
        copied(&data.notes_by_column[pair_column - 1])
    } else {
        let mut both: Vec<Note> = copied(&data.notes_by_column[pair_column - 1]);
        append_notes(&mut both, &data.notes_by_column[pair_column]);
        sort_notes(&both)
    }
}

/// How many notes stand before the first one that does not start before `time`.
pub open spec fn starting_before(notes: Seq<Note>, time: Binary64) -> nat
    decreases notes.len(),
{
    if notes.len() == 0 || !notes[0].head.lt(time) {
        0
    } else {
        1 + starting_before(notes.drop_first(), time)
    }
}

proof fn lemma_starting_before(notes: Seq<Note>, time: Binary64, n: nat)
    requires
        n <= notes.len(),
        forall|i: int| 0 <= i < n ==> (#[trigger] notes[i]).head.lt(time),
        n == notes.len() || !notes[n as int].head.lt(time),
    ensures
        starting_before(notes, time) == n,
    decreases n,
{
    if n > 0 {
        assert(notes[0].head.lt(time));
        let rest = notes.drop_first();
        assert forall|i: int| 0 <= i < n - 1 implies (#[trigger] rest[i]).head.lt(time) by {
            assert(rest[i] == notes[i + 1]);
        }
        lemma_starting_before(rest, time, (n - 1) as nat);
    }
}

/// The note of the column that follows `note`, where `notes` are the column's notes by
/// head.
pub open spec fn note_after(note: Note, notes: Seq<Note>) -> Option<Note> {
    let index = starting_before(notes, note.head) + 1;
    if index < notes.len() {
        Some(notes[index as int])
    } else {
        None
    }
}

/// The note of the column that follows `note`, where `notes` are the column's notes by
/// head.
pub fn find_next_note_in_column(note: Note, notes: &Vec<Note>) -> (next: Option<Note>)
    ensures
        next == note_after(note, notes@),
{
    let mut index: usize = 0;
    while index < notes.len() && notes[index].head.less(note.head)
        invariant
            index <= notes.len(),
            forall|i: int| 0 <= i < index ==> (#[trigger] notes[i]).head.lt(note.head),
        decreases notes.len() - index,
    {
        index = index + 1;
    }
    proof {
        lemma_starting_before(notes@, note.head, index as nat);
    }
    if index < notes.len() && notes.len() - index > 1 {
        Some(notes[index + 1])
    } else {
        None
    }
}

/// Sorted notes start one after another.
pub proof fn sorted_notes_start_in_order(sorted: Seq<Note>, notes: Seq<Note>)
    requires
        is_sorted_by(sorted, notes, note_keys(notes)),
    ensures
        start_in_order(sorted),
{
    let keys = note_keys(notes);
    let order = choose|order: Seq<usize>|
        #[trigger] is_stable_order(keys, order) && sorted == arranged(notes, order);
    assert forall|i: int, j: int| 0 <= i < j < sorted.len() implies (
    #[trigger] sorted[i]).head.total_rank() <= (#[trigger] sorted[j]).head.total_rank() by {
        let a = order[i] as int;
        let b = order[j] as int;
        assert(precedes(keys, a, b));
        assert(sorted[i] == notes[a] && sorted[j] == notes[b]);
    }
}

/// As many notes stand before a note as start before it, and after it comes the note that
/// starts next, where no two start at the same time.
pub proof fn notes_of_a_column_follow_one_another(notes: Seq<Note>, k: int)
    requires
        0 <= k < notes.len(),
        forall|i: int, j: int|
            0 <= i < j < notes.len() ==> (#[trigger] notes[i]).head.lt((#[trigger] notes[j]).head),
    ensures
        starting_before(notes, notes[k].head) == k,
        note_after(notes[k], notes) == if k + 1 < notes.len() {
            Some(notes[k + 1])
        } else {
            None::<Note>
        },
{
    lemma_starting_before(notes, notes[k].head, k as nat);
}

/// Notes are sorted by when they start, and those that start together by column.
pub proof fn sorted_notes_are_in_order(sorted: Seq<Note>, notes: Seq<Note>, i: int, j: int)
    requires
        is_sorted_by(sorted, notes, note_keys(notes)),
        0 <= i < j < sorted.len(),
    ensures
        sorted[i].head.total_rank() <= sorted[j].head.total_rank(),
        sorted[i].head.total_rank() == sorted[j].head.total_rank() ==> sorted[i].column
            <= sorted[j].column,
        !sorted[j].head.lt(sorted[i].head),
{
    let keys = note_keys(notes);
    let order = choose|order: Seq<usize>|
        #[trigger] is_stable_order(keys, order) && sorted == arranged(notes, order);
    assert(precedes(keys, order[i] as int, order[j] as int));
    assert(sorted[i] == notes[order[i] as int] && sorted[j] == notes[order[j] as int]);
    crate::binary64::lemma_rank_order(sorted[j].head, sorted[i].head);
}

/// Holds are sorted by when they end.
pub proof fn sorted_tails_are_in_order(sorted: Seq<Note>, notes: Seq<Note>, i: int, j: int)
    requires
        is_sorted_by(sorted, notes, tail_keys(notes)),
        0 <= i < j < sorted.len(),
    ensures
        sorted[i].end().total_rank() <= sorted[j].end().total_rank(),
        sorted[i].tail matches Some(tail) ==> sorted[i].end() == tail,
        sorted[i].tail is None ==> sorted[i].end() == sorted[i].head,
{
    let keys = tail_keys(notes);
    let order = choose|order: Seq<usize>|
        #[trigger] is_stable_order(keys, order) && sorted == arranged(notes, order);
    assert(precedes(keys, order[i] as int, order[j] as int));
    assert(sorted[i] == notes[order[i] as int] && sorted[j] == notes[order[j] as int]);
}

/// A map has in each column the notes of that column, each as often as it has it at all; as
/// hold notes those with a tail; and by tail the hold notes.
pub proof fn notes_are_split_up_completely(
    data: RebirthData,
    column: usize,
    pick: spec_fn(Note) -> bool,
)
    requires
        data.wf(),
        column < data.total_columns,
    ensures
        picked(data.notes_by_column[column as int]@, pick) == picked(
            data.notes@,
            |note: Note| note.column == column && pick(note),
        ),
        picked(data.long_notes@, pick) == picked(
            data.notes@,
            |note: Note| note.tail is Some && pick(note),
        ),
        picked(data.tails@, pick) == picked(data.long_notes@, pick),
{
    let notes = data.notes@;
    lemma_picked_filtered(notes, in_column(column), pick);
    crate::order::lemma_picked_alike(
        notes,
        |note: Note| in_column(column)(note) && pick(note),
        |note: Note| note.column == column && pick(note),
    );
    lemma_picked_filtered(notes, is_long(), pick);
    crate::order::lemma_picked_alike(
        notes,
        |note: Note| is_long()(note) && pick(note),
        |note: Note| note.tail is Some && pick(note),
    );
    let holds = data.long_notes@;
    assert(data.long_notes.len() == holds.len());
    sorting_keeps_what_is_picked(data.tails@, holds, tail_keys(holds), pick);
}

/// Beside a gap are the notes of the columns on either side, each as often as the columns have
/// it; at an edge of the keyboard there is one such column.
pub proof fn pairs_hold_the_notes_of_both_columns(
    data: RebirthData,
    gap: usize,
    result: Seq<Note>,
    pick: spec_fn(Note) -> bool,
)
    requires
        data.wf(),
        gap <= data.total_columns,
        is_pair(data, gap, result),
    ensures
        picked(result, pick) == (if gap > 0 {
            picked(data.notes_by_column[gap - 1]@, pick)
        } else {
            0
        }) + (if gap < data.total_columns {
            picked(data.notes_by_column[gap as int]@, pick)
        } else {
            0
        }),
{
    if 0 < gap < data.total_columns {
        let left = data.notes_by_column[gap - 1]@;
        let right = data.notes_by_column[gap as int]@;
        let both = left + right;
        lemma_kept_apart(data.notes@, in_column((gap - 1) as usize), in_column(gap));
        assert(left == data.notes@.filter(in_column((gap - 1) as usize)));
        assert(data.notes.len() == data.notes@.len());
        sorting_keeps_what_is_picked(result, both, note_keys(both), pick);
        lemma_picked_joined(left, right, pick);
    }
}

/// The last time of a map is no earlier than any head or tail, nor than zero, and it is the head
/// or the tail of a note, unless it is zero.
pub proof fn the_last_time_is_the_latest(notes: Seq<Note>, time: Binary64, i: int)
    requires
        is_latest(notes, time),
    ensures
        !time.is_nan() && time.units() >= 0,
        0 <= i < notes.len() ==> !time.lt(notes[i].head),
        0 <= i < notes.len() ==> (notes[i].tail matches Some(tail) ==> !time.lt(tail)),
        time.units() > 0 ==> exists|k: int|
            0 <= k < notes.len() && (time == (#[trigger] notes[k]).head || notes[k].tail == Some(
                time,
            )),
        time.units() == 0 ==> time.bits == 0,
{
    lemma_size_zero(time.magnitude());
    lemma_size_zero(0);
    if 0 <= i < notes.len() {
        assert(!time.lt(notes[i].head) && !time.lt(notes[i].end()));
    }
}

/// The notes beside a gap start one after another.
pub proof fn pairs_start_in_order(data: RebirthData, gap: usize, result: Seq<Note>)
    requires
        data.wf(),
        0 < gap < data.total_columns,
        is_pair(data, gap, result),
    ensures
        start_in_order(result),
{
    let both = data.notes_by_column[gap - 1]@ + data.notes_by_column[gap as int]@;
    sorted_notes_start_in_order(result, both);
}

/// The note after another is the one behind the first that does not start before that, wherever
/// that is and whether or not several start together.
pub proof fn the_next_note_is_behind_the_first_not_earlier(note: Note, notes: Seq<Note>, p: int)
    requires
        0 <= p <= notes.len(),
        forall|i: int| 0 <= i < p ==> (#[trigger] notes[i]).head.lt(note.head),
        p < notes.len() ==> !notes[p].head.lt(note.head),
    ensures
        p + 1 < notes.len() ==> note_after(note, notes) == Some(notes[p + 1]),
        p + 1 >= notes.len() ==> note_after(note, notes) is None,
{
    lemma_starting_before(notes, note.head, p as nat);
}

} // verus!
