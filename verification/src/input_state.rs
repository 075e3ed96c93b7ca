//! Input-state bins: notes by what the player's hands were doing, and their flat form.

use crate::binary64::{one_in_units, Binary64};
use crate::codec::{all_finite, encodes, finite_values, lemma_exact_count, NOTE_DIFFICULTY_BINS};
use crate::conversion::lemma_small_numbers_are_exact;
use vstd::prelude::*;

verus! {

/// How many input-state bins there are: one for each class and bin of note difficulty.
pub const INPUT_STATE_BINS: usize = 112;

/// The version of the flat form that is written.
pub const INPUT_STATE_SERIAL_VERSION: u32 = 2;

/// How many numbers a bin takes in the version that is written.
pub const INPUT_STATE_FIELDS_PER_BIN: usize = 10;

/// What the player's hands were doing when a note came.
#[derive(Clone, Copy, Debug, PartialEq, Eq, Structural)]
pub enum InputClass {
    FreshPress,
    RapidRepress,
    Jack,
    Release,
    ReleaseToPress,
    PressUnderHold,
    ChordEntryOrExit,
}

/// Notes of one class and similar difficulty.
#[derive(Clone, Copy, Debug, PartialEq, Eq, Structural)]
pub struct InputStateBin {
    pub class: InputClass,
    pub count: u32,
    /// How many of the notes are long notes.
    pub long_count: u32,
    /// How many of the notes have a predecessor.
    pub predecessor_count: u32,
    pub mean_difficulty: Binary64,
    pub mean_duration_ms: Binary64,
    pub mean_gap_ms: Binary64,
    pub mean_next_gap_ms: Binary64,
    pub next_operation_count: u32,
    pub mean_chord_width: Binary64,
    pub mean_other_held: Binary64,
}

impl InputStateBin {
    /// No notes.
    pub open spec fn empty(class: InputClass) -> InputStateBin {
        let zero = Binary64 { bits: 0 };
        InputStateBin {
            class,
            count: 0,
            long_count: 0,
            predecessor_count: 0,
            mean_difficulty: zero,
            mean_duration_ms: zero,
            mean_gap_ms: zero,
            mean_next_gap_ms: zero,
            next_operation_count: 0,
            mean_chord_width: zero,
            mean_other_held: zero,
        }
    }
}

impl Default for InputStateBin {
    fn default() -> (bin: InputStateBin)
        ensures
            bin == InputStateBin::empty(InputClass::FreshPress),
    {
        let zero: Binary64 = Binary64::from_bits(0);
        InputStateBin {
            class: InputClass::FreshPress,
            count: 0,
            long_count: 0,
            predecessor_count: 0,
            mean_difficulty: zero,
            mean_duration_ms: zero,
            mean_gap_ms: zero,
            mean_next_gap_ms: zero,
            next_operation_count: 0,
            mean_chord_width: zero,
            mean_other_held: zero,
        }
    }
}

/// The class of the bins at a position: 16 bins for each class.
pub open spec fn class_of(index: int) -> InputClass {
    if index < 16 {
        InputClass::FreshPress
    } else if index < 32 {
        InputClass::RapidRepress
    } else if index < 48 {
        InputClass::Jack
    } else if index < 64 {
        InputClass::Release
    } else if index < 80 {
        InputClass::ReleaseToPress
    } else if index < 96 {
        InputClass::PressUnderHold
    } else {
        InputClass::ChordEntryOrExit
    }
}

/// The class of the bins at a position.
pub fn input_class(index: usize) -> (class: InputClass)
    ensures
        class == class_of(index as int),
{
    match index / NOTE_DIFFICULTY_BINS {
        0 => InputClass::FreshPress,
        1 => InputClass::RapidRepress,
        2 => InputClass::Jack,
        3 => InputClass::Release,
        4 => InputClass::ReleaseToPress,
        5 => InputClass::PressUnderHold,
        _ => InputClass::ChordEntryOrExit,
    }
}

/// Whether the `i`th ten numbers after the version hold a bin.
pub open spec fn encodes_bin(encoded: Seq<Binary64>, i: int, bin: InputStateBin) -> bool {
    &&& encodes(encoded[10 * i + 1], bin.count as nat)
    &&& encodes(encoded[10 * i + 2], bin.long_count as nat)
    &&& encodes(encoded[10 * i + 3], bin.predecessor_count as nat)
    &&& encoded[10 * i + 4] == bin.mean_difficulty
    &&& encoded[10 * i + 5] == bin.mean_duration_ms
    &&& encoded[10 * i + 6] == bin.mean_gap_ms
    &&& encoded[10 * i + 7] == bin.mean_next_gap_ms
    &&& encodes(encoded[10 * i + 8], bin.next_operation_count as nat)
    &&& encoded[10 * i + 9] == bin.mean_chord_width
    &&& encoded[10 * i + 10] == bin.mean_other_held
}

/// Whether a list holds the version and then the bins.
pub open spec fn encodes_bins(encoded: Seq<Binary64>, bins: Seq<InputStateBin>) -> bool {
    &&& encoded.len() == 1 + 10 * bins.len()
    &&& encodes(encoded[0], INPUT_STATE_SERIAL_VERSION as nat)
    &&& forall|i: int| 0 <= i < bins.len() ==> encodes_bin(encoded, i, #[trigger] bins[i])
}

/// The version and then the bins one after another; nothing where there are none.
pub fn encode_input_state_bins(bins: Option<&[InputStateBin; 112]>) -> (encoded: Vec<Binary64>)
    ensures
        bins is None ==> encoded@.len() == 0,
        bins matches Some(bins) ==> encodes_bins(encoded@, bins@),
{
    let bins: &[InputStateBin; 112] = match bins {
        Some(bins) => bins,
        None => {
            return Vec::new();
        },
    };
    let mut encoded: Vec<Binary64> = Vec::with_capacity(1121);
    proof {
        lemma_small_numbers_are_exact(2);
    }
    encoded.push(Binary64::from_u32(INPUT_STATE_SERIAL_VERSION));
    let mut i: usize = 0;
    while i < INPUT_STATE_BINS
        invariant
            i <= 112,
            encoded.len() == 1 + 10 * i,
            encodes(encoded@[0], INPUT_STATE_SERIAL_VERSION as nat),
            forall|k: int| 0 <= k < i ==> encodes_bin(encoded@, k, #[trigger] bins[k]),
        decreases 112 - i,
    {
        let bin: InputStateBin = bins[i];
        let ghost before = encoded@;
        proof {
            lemma_small_numbers_are_exact(bin.count as nat);
            lemma_small_numbers_are_exact(bin.long_count as nat);
            lemma_small_numbers_are_exact(bin.predecessor_count as nat);
            lemma_small_numbers_are_exact(bin.next_operation_count as nat);
        }
        encoded.push(Binary64::from_u32(bin.count));
        encoded.push(Binary64::from_u32(bin.long_count));
        encoded.push(Binary64::from_u32(bin.predecessor_count));
        encoded.push(bin.mean_difficulty);
        encoded.push(bin.mean_duration_ms);
        encoded.push(bin.mean_gap_ms);
        encoded.push(bin.mean_next_gap_ms);
        encoded.push(Binary64::from_u32(bin.next_operation_count));
        encoded.push(bin.mean_chord_width);
        encoded.push(bin.mean_other_held);
        proof {
            assert(encodes_bin(encoded@, i as int, bin));
            assert forall|k: int| 0 <= k < i + 1 implies encodes_bin(
                encoded@,
                k,
                #[trigger] bins[k],
            ) by {
                if k < i {
                    assert(encodes_bin(before, k, bins[k]));
                    lemma_longer_list(before, encoded@, k, bins[k]);
                }
            }
        }
        i = i + 1;
    }
    encoded
}

proof fn lemma_longer_list(
    before: Seq<Binary64>,
    after: Seq<Binary64>,
    k: int,
    bin: InputStateBin,
)
    requires
        0 <= k,
        10 * k + 10 < before.len(),
        before.len() <= after.len(),
        forall|j: int| 0 <= j < before.len() ==> #[trigger] after[j] == before[j],
        encodes_bin(before, k, bin),
    ensures
        encodes_bin(after, k, bin),
{
    assert(after[10 * k + 1] == before[10 * k + 1]);
    assert(after[10 * k + 2] == before[10 * k + 2]);
    assert(after[10 * k + 3] == before[10 * k + 3]);
    assert(after[10 * k + 4] == before[10 * k + 4]);
    assert(after[10 * k + 5] == before[10 * k + 5]);
    assert(after[10 * k + 6] == before[10 * k + 6]);
    assert(after[10 * k + 7] == before[10 * k + 7]);
    assert(after[10 * k + 8] == before[10 * k + 8]);
    assert(after[10 * k + 9] == before[10 * k + 9]);
    assert(after[10 * k + 10] == before[10 * k + 10]);
}

/// Whether a value is the whole number `n`.
pub open spec fn denotes(value: Binary64, n: nat) -> bool {
    !value.is_nan() && value.units() == n * one_in_units()
}

/// The bin in the `i`th numbers after the version. The first version had eight numbers
/// for a bin, without the next operation.
pub open spec fn bin_at(encoded: Seq<Binary64>, first_version: bool, i: int) -> InputStateBin {
    if first_version {
        InputStateBin {
            class: class_of(i),
            count: encoded[8 * i + 1].as_u32() as u32,
            long_count: encoded[8 * i + 2].as_u32() as u32,
            predecessor_count: encoded[8 * i + 3].as_u32() as u32,
            mean_difficulty: encoded[8 * i + 4],
            mean_duration_ms: encoded[8 * i + 5],
            mean_gap_ms: encoded[8 * i + 6],
            mean_next_gap_ms: Binary64 { bits: 0 },
            next_operation_count: 0,
            mean_chord_width: encoded[8 * i + 7],
            mean_other_held: encoded[8 * i + 8],
        }
    } else {
        InputStateBin {
            class: class_of(i),
            count: encoded[10 * i + 1].as_u32() as u32,
            long_count: encoded[10 * i + 2].as_u32() as u32,
            predecessor_count: encoded[10 * i + 3].as_u32() as u32,
            mean_difficulty: encoded[10 * i + 4],
            mean_duration_ms: encoded[10 * i + 5],
            mean_gap_ms: encoded[10 * i + 6],
            mean_next_gap_ms: encoded[10 * i + 7],
            next_operation_count: encoded[10 * i + 8].as_u32() as u32,
            mean_chord_width: encoded[10 * i + 9],
            mean_other_held: encoded[10 * i + 10],
        }
    }
}

/// Whether a bin counts no more long notes or predecessors than notes.
pub open spec fn is_bin(bin: InputStateBin) -> bool {
    bin.long_count <= bin.count && bin.predecessor_count <= bin.count
}

/// Whether a list is one of input-state bins: of the first or the second version, as
/// long as that version has it, finite throughout, and with counts that agree.
pub open spec fn holds_bins(encoded: Seq<Binary64>) -> bool {
    &&& encoded.len() > 0
    &&& denotes(encoded[0], 1) || denotes(encoded[0], 2)
    &&& encoded.len() == if denotes(encoded[0], 1) {
        897int
    } else {
        1121
    }
    &&& all_finite(encoded)
    &&& forall|i: int|
        0 <= i < 112 ==> is_bin(#[trigger] bin_at(encoded, denotes(encoded[0], 1), i))
}

/// The bin in the `i`th numbers after the version.
fn decode_bin(encoded: &[Binary64], first_version: bool, i: usize) -> (bin: InputStateBin)
    requires
        i < 112,
        encoded.len() == if first_version {
            897int
        } else {
            1121
        },
    ensures
        bin == bin_at(encoded@, first_version, i as int),
{
    let offset: usize = if first_version {
        8 * i + 1
    } else {
        10 * i + 1
    };
    InputStateBin {
        class: input_class(i),
        count: encoded[offset].to_u32(),
        long_count: encoded[offset + 1].to_u32(),
        predecessor_count: encoded[offset + 2].to_u32(),
        mean_difficulty: encoded[offset + 3],
        mean_duration_ms: encoded[offset + 4],
        mean_gap_ms: encoded[offset + 5],
        mean_next_gap_ms: if first_version {
            Binary64::from_bits(0)
        } else {
            encoded[offset + 6]
        },
        next_operation_count: if first_version {
            0
        } else {
            encoded[offset + 7].to_u32()
        },
        mean_chord_width: encoded[if first_version {
            offset + 6
        } else {
            offset + 8
        }],
        mean_other_held: encoded[if first_version {
            offset + 7
        } else {
            offset + 9
        }],
    }
}

/// The bins in a list, if it is one of input-state bins.
pub fn decode_input_state_bins(encoded: &[Binary64]) -> (bins: Option<[InputStateBin; 112]>)
    ensures
        bins is Some <==> holds_bins(encoded@),
        bins matches Some(bins) ==> forall|i: int|
            0 <= i < 112 ==> #[trigger] bins[i] == bin_at(encoded@, denotes(encoded@[0], 1), i),
{
    if encoded.len() == 0 {
        return None;
    }
    proof {
        vstd::arithmetic::power2::lemma_pow2_pos(1074);
    }
    let first_version: bool = encoded[0].equals(Binary64::from_u32(1));
    if !first_version && !encoded[0].equals(Binary64::from_u32(INPUT_STATE_SERIAL_VERSION)) {
        return None;
    }
    let expected: usize = if first_version {
        1 + INPUT_STATE_BINS * 8
    } else {
        1 + INPUT_STATE_BINS * INPUT_STATE_FIELDS_PER_BIN
    };
    if encoded.len() != expected || !finite_values(encoded) {
        return None;
    }
    let mut bins: [InputStateBin; 112] = [InputStateBin::default();112];
    let mut i: usize = 0;
    while i < INPUT_STATE_BINS
        invariant
            i <= 112,
            encoded.len() == if first_version {
                897int
            } else {
                1121
            },
            first_version == denotes(encoded@[0], 1),
            forall|k: int|
                0 <= k < i ==> is_bin(#[trigger] bin_at(encoded@, first_version, k)),
            forall|k: int| 0 <= k < i ==> #[trigger] bins[k] == bin_at(encoded@, first_version, k),
        decreases 112 - i,
    {
        let bin: InputStateBin = decode_bin(encoded, first_version, i);
        if bin.long_count > bin.count || bin.predecessor_count > bin.count {
            assert(!is_bin(bin_at(encoded@, first_version, i as int)));
            return None;
        }
        bins[i] = bin;
        i = i + 1;
    }
    Some(bins)
}

/// Whether the bin at a position can be written: its class is that of the position, its
/// counts agree and its averages are finite.
pub open spec fn bin_wf(bin: InputStateBin, i: int) -> bool {
    &&& bin.class == class_of(i)
    &&& is_bin(bin)
    &&& bin.mean_difficulty.is_finite()
    &&& bin.mean_duration_ms.is_finite()
    &&& bin.mean_gap_ms.is_finite()
    &&& bin.mean_next_gap_ms.is_finite()
    &&& bin.mean_chord_width.is_finite()
    &&& bin.mean_other_held.is_finite()
}

proof fn lemma_bin_round_trip(encoded: Seq<Binary64>, bin: InputStateBin, i: int)
    requires
        encodes_bin(encoded, i, bin),
        bin_wf(bin, i),
    ensures
        bin_at(encoded, false, i) == bin,
{
    lemma_exact_count(encoded[10 * i + 1], bin.count as nat);
    lemma_exact_count(encoded[10 * i + 2], bin.long_count as nat);
    lemma_exact_count(encoded[10 * i + 3], bin.predecessor_count as nat);
    lemma_exact_count(encoded[10 * i + 8], bin.next_operation_count as nat);
}

/// Reading back the bins that were written gives the same bins.
pub proof fn input_state_bins_round_trip(encoded: Seq<Binary64>, bins: Seq<InputStateBin>)
    requires
        bins.len() == 112,
        encodes_bins(encoded, bins),
        forall|i: int| 0 <= i < 112 ==> bin_wf(#[trigger] bins[i], i),
    ensures
        holds_bins(encoded),
        !denotes(encoded[0], 1),
        forall|i: int| 0 <= i < 112 ==> bin_at(encoded, false, i) == #[trigger] bins[i],
{
    vstd::arithmetic::power2::lemma_pow2_pos(1074);
    lemma_exact_count(encoded[0], 2);
    assert(denotes(encoded[0], 2));
    assert(!denotes(encoded[0], 1));
    assert forall|i: int| 0 <= i < 112 implies bin_at(encoded, false, i) == #[trigger] bins[i] by {
        assert(bin_wf(bins[i], i));
        lemma_bin_round_trip(encoded, bins[i], i);
    }
    assert forall|k: int| 0 <= k < encoded.len() implies (#[trigger] encoded[k]).is_finite() by {
        if k > 0 {
            let i = (k - 1) / 10;
            assert(0 <= i < 112);
            assert(bin_wf(bins[i], i));
            assert(encodes_bin(encoded, i, bins[i]));
            assert(10 * i + 1 <= k <= 10 * i + 10);
        }
    }
    assert forall|i: int| 0 <= i < 112 implies is_bin(#[trigger] bin_at(encoded, false, i)) by {
        assert(bin_wf(bins[i], i));
    }
}

/// There are sixteen bins for each class, class after class.
pub proof fn bins_are_grouped_by_class(r: int)
    requires
        0 <= r < 16,
    ensures
        class_of(r) == InputClass::FreshPress,
        class_of(16 + r) == InputClass::RapidRepress,
        class_of(32 + r) == InputClass::Jack,
        class_of(48 + r) == InputClass::Release,
        class_of(64 + r) == InputClass::ReleaseToPress,
        class_of(80 + r) == InputClass::PressUnderHold,
        class_of(96 + r) == InputClass::ChordEntryOrExit,
{
}

/// Ten numbers after the version hold a bin: how many notes, long notes and predecessors it
/// has, its mean difficulty, duration, gap and next gap, how many next operations, and its mean
/// chord width and number of other keys held. A list of the first version has the same numbers
/// in the same order, without the next gap and the next operations, which are then zero.
pub proof fn bins_take_ten_numbers(
    encoded: Seq<Binary64>,
    first: Seq<Binary64>,
    i: int,
    bin: InputStateBin,
)
    requires
        0 <= i < 112,
        bin.class == class_of(i),
        encodes_bin(encoded, i, bin),
        first.len() == 897,
        first.subrange(8 * i + 1, 8 * i + 9) == seq![
            encoded[10 * i + 1],
            encoded[10 * i + 2],
            encoded[10 * i + 3],
            encoded[10 * i + 4],
            encoded[10 * i + 5],
            encoded[10 * i + 6],
            encoded[10 * i + 9],
            encoded[10 * i + 10],
        ],
    ensures
        encoded[10 * i + 1].units() == bin.count * one_in_units(),
        encoded[10 * i + 2].units() == bin.long_count * one_in_units(),
        encoded[10 * i + 3].units() == bin.predecessor_count * one_in_units(),
        encoded[10 * i + 4] == bin.mean_difficulty,
        encoded[10 * i + 5] == bin.mean_duration_ms,
        encoded[10 * i + 6] == bin.mean_gap_ms,
        encoded[10 * i + 7] == bin.mean_next_gap_ms,
        encoded[10 * i + 8].units() == bin.next_operation_count * one_in_units(),
        encoded[10 * i + 9] == bin.mean_chord_width,
        encoded[10 * i + 10] == bin.mean_other_held,
        bin_at(encoded, false, i) == bin,
        bin_at(first, true, i) == (InputStateBin {
            mean_next_gap_ms: Binary64 { bits: 0 },
            next_operation_count: 0,
            ..bin
        }),
{
    lemma_small_numbers_are_exact(bin.count as nat);
    lemma_small_numbers_are_exact(bin.long_count as nat);
    lemma_small_numbers_are_exact(bin.predecessor_count as nat);
    lemma_small_numbers_are_exact(bin.next_operation_count as nat);
    lemma_exact_count(encoded[10 * i + 1], bin.count as nat);
    lemma_exact_count(encoded[10 * i + 2], bin.long_count as nat);
    lemma_exact_count(encoded[10 * i + 3], bin.predecessor_count as nat);
    lemma_exact_count(encoded[10 * i + 8], bin.next_operation_count as nat);
    let part = first.subrange(8 * i + 1, 8 * i + 9);
    assert(first[8 * i + 1] == part[0] && first[8 * i + 2] == part[1] && first[8 * i + 3] == part[2]
        && first[8 * i + 4] == part[3] && first[8 * i + 5] == part[4] && first[8 * i + 6] == part[5]
        && first[8 * i + 7] == part[6] && first[8 * i + 8] == part[7]);
}

/// A list of bins begins with its version, and is as long as that version has it: 897 numbers in
/// the first, 1121 in the second. It is one of bins exactly if besides all numbers are finite
/// and no bin counts more long notes or predecessors than notes.
pub proof fn lists_of_bins_are_told_by_their_version(encoded: Seq<Binary64>)
    ensures
        holds_bins(encoded) ==> {
            &&& encoded[0].units() == one_in_units() && encoded.len() == 897
                || encoded[0].units() == 2 * one_in_units() && encoded.len() == 1121
            &&& forall|k: int| 0 <= k < encoded.len() ==> (#[trigger] encoded[k]).is_finite()
        },
        (forall|k: int| 0 <= k < encoded.len() ==> (#[trigger] encoded[k]).is_finite()) ==> {
            &&& encoded.len() == 1121 && encoded[0].units() == 2 * one_in_units() ==> (holds_bins(
                encoded,
            ) <==> forall|i: int|
                0 <= i < 112 ==> (#[trigger] bin_at(encoded, false, i)).long_count <= bin_at(
                    encoded,
                    false,
                    i,
                ).count && bin_at(encoded, false, i).predecessor_count <= bin_at(
                    encoded,
                    false,
                    i,
                ).count)
            &&& encoded.len() == 897 && encoded[0].units() == one_in_units() ==> (holds_bins(
                encoded,
            ) <==> forall|i: int|
                0 <= i < 112 ==> (#[trigger] bin_at(encoded, true, i)).long_count <= bin_at(
                    encoded,
                    true,
                    i,
                ).count && bin_at(encoded, true, i).predecessor_count <= bin_at(
                    encoded,
                    true,
                    i,
                ).count)
        },
{
    vstd::arithmetic::power2::lemma_pow2_pos(1074);
    if encoded.len() > 0 {
        let one = denotes(encoded[0], 1);
        let two = denotes(encoded[0], 2);
        assert(!(one && two));
        if forall|k: int| 0 <= k < encoded.len() ==> (#[trigger] encoded[k]).is_finite() {
            assert(encoded[0].is_finite());
            assert(all_finite(encoded));
            if encoded.len() == 1121 && encoded[0].units() == 2 * one_in_units() {
                assert(two);
                assert forall|i: int| 0 <= i < 112 implies is_bin(
                    #[trigger] bin_at(encoded, false, i),
                ) == (bin_at(encoded, false, i).long_count <= bin_at(encoded, false, i).count
                    && bin_at(encoded, false, i).predecessor_count <= bin_at(
                    encoded,
                    false,
                    i,
                ).count) by {}
            }
            if encoded.len() == 897 && encoded[0].units() == one_in_units() {
                assert(one);
            }
        }
    }
}

/// A list that is written has the second version, and ten numbers for each bin.
pub proof fn lists_are_written_in_the_second_version(
    encoded: Seq<Binary64>,
    bins: Seq<InputStateBin>,
)
    requires
        encodes_bins(encoded, bins),
    ensures
        encoded.len() == 1 + 10 * bins.len(),
        encoded[0].units() == 2 * one_in_units(),
{
    lemma_small_numbers_are_exact(2);
}

/// A bin without notes has its class, and nothing else but zeros.
pub proof fn empty_bins_hold_nothing(class: InputClass)
    ensures
        InputStateBin::empty(class).class == class,
        InputStateBin::empty(class).count == 0 && InputStateBin::empty(class).long_count == 0
            && InputStateBin::empty(class).predecessor_count == 0 && InputStateBin::empty(
            class,
        ).next_operation_count == 0,
        InputStateBin::empty(class).mean_difficulty.bits == 0 && InputStateBin::empty(
            class,
        ).mean_duration_ms.bits == 0 && InputStateBin::empty(class).mean_gap_ms.bits == 0
            && InputStateBin::empty(class).mean_next_gap_ms.bits == 0 && InputStateBin::empty(
            class,
        ).mean_chord_width.bits == 0 && InputStateBin::empty(class).mean_other_held.bits == 0,
{
}

} // verus!
