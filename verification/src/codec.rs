//! Cached attributes as flat lists of doubles.

use crate::binary64::{
    lemma_size_zero, one_in_units, size_in_units, Binary64, FRACTION_SPAN,
};
use crate::conversion::{excess, lemma_small_numbers_are_exact, rounded, whole};
use crate::surface::{is_positive, positive};
use crate::windows::ManiaHitWindows;
use vstd::arithmetic::div_mod::lemma_fundamental_div_mod_converse;
use vstd::arithmetic::power2::lemma_pow2_pos;
use vstd::prelude::*;

verus! {

/// Whether a value is the double nearest to the whole number `n`.
pub open spec fn encodes(value: Binary64, n: nat) -> bool {
    value.is_finite() && !value.is_negative() && value.units() == rounded(n) * one_in_units()
}

/// Whether a value is at least zero.
pub open spec fn is_nonnegative(value: Binary64) -> bool {
    !value.is_nan() && value.units() >= 0
}

fn nonnegative(value: Binary64) -> (answer: bool)
    ensures
        answer == is_nonnegative(value),
{
    proof {
        lemma_size_zero(0);
    }
    Binary64::from_bits(0).at_most(value)
}

/// Whether every value is finite.
pub open spec fn all_finite(values: Seq<Binary64>) -> bool {
    forall|i: int| 0 <= i < values.len() ==> (#[trigger] values[i]).is_finite()
}

pub fn finite_values(values: &[Binary64]) -> (answer: bool)
    ensures
        answer == all_finite(values@),
{
    let mut i: usize = 0;
    while i < values.len()
        invariant
            i <= values.len(),
            forall|k: int| 0 <= k < i ==> (#[trigger] values@[k]).is_finite(),
        decreases values.len() - i,
    {
        if !values[i].finite() {
            return false;
        }
        i = i + 1;
    }
    true
}

/// A whole number of up to `2^53` survives being written as a double.
pub proof fn lemma_exact_count(value: Binary64, n: nat)
    requires
        encodes(value, n),
        n <= 2 * FRACTION_SPAN,
    ensures
        size_in_units(value.magnitude()) == n * one_in_units(),
        whole(size_in_units(value.magnitude())) == n,
        excess(size_in_units(value.magnitude())) == 0,
        value.is_integral(),
{
    let one = one_in_units();
    lemma_pow2_pos(1074);
    lemma_small_numbers_are_exact(n);
    lemma_fundamental_div_mod_converse((n * one) as int, one as int, n as int, 0);
}

// ---------------------------------------------------------------------------
// Windows
// ---------------------------------------------------------------------------

/// The windows, best judgement first.
pub fn encode_windows(windows: ManiaHitWindows) -> (encoded: Vec<Binary64>)
    ensures
        encoded@ == windows.listed(),
{
    let mut encoded: Vec<Binary64> = Vec::with_capacity(6);
    encoded.push(windows.perfect);
    encoded.push(windows.great);
    encoded.push(windows.good);
    encoded.push(windows.ok);
    encoded.push(windows.meh);
    encoded.push(windows.miss);
    assert(encoded@ =~= windows.listed());
    encoded
}

/// Whether a list is one of windows: six positive numbers.
pub open spec fn holds_windows(encoded: Seq<Binary64>) -> bool {
    encoded.len() == 6 && forall|i: int|
        0 <= i < 6 ==> (#[trigger] encoded[i]).is_finite() && is_positive(encoded[i])
}

/// The windows in a list, if it is one of windows.
pub fn decode_windows(encoded: &[Binary64]) -> (windows: Option<ManiaHitWindows>)
    ensures
        windows is Some <==> holds_windows(encoded@),
        windows matches Some(windows) ==> windows.listed() == encoded@,
{
    if encoded.len() != 6 {
        return None;
    }
    let mut i: usize = 0;
    while i < 6
        invariant
            i <= 6,
            encoded.len() == 6,
            forall|k: int|
                0 <= k < i ==> (#[trigger] encoded@[k]).is_finite() && is_positive(encoded@[k]),
        decreases 6 - i,
    {
        if !encoded[i].finite() || !positive(encoded[i]) {
            return None;
        }
        i = i + 1;
    }
    let windows: ManiaHitWindows = ManiaHitWindows {
        perfect: encoded[0],
        great: encoded[1],
        good: encoded[2],
        ok: encoded[3],
        meh: encoded[4],
        miss: encoded[5],
    };
    assert(windows.listed() =~= encoded@);
    Some(windows)
}

/// Reading back the windows that were written gives the same windows: a list stands for one
/// set of windows.
pub proof fn windows_round_trip(a: ManiaHitWindows, b: ManiaHitWindows)
    requires
        a.listed() == b.listed(),
    ensures
        a == b,
{
    let x = a.listed();
    let y = b.listed();
    assert(x[0] == y[0] && x[1] == y[1] && x[2] == y[2] && x[3] == y[3] && x[4] == y[4] && x[5]
        == y[5]);
}

// ---------------------------------------------------------------------------
// Long-note durations
// ---------------------------------------------------------------------------

/// Whether a list holds the counts of a histogram of long-note durations.
pub open spec fn encodes_buckets(encoded: Seq<Binary64>, buckets: Seq<usize>) -> bool {
    encoded.len() == 8 && buckets.len() == 8 && forall|i: int|
        0 <= i < 8 ==> encodes(#[trigger] encoded[i], buckets[i] as nat)
}

/// The counts of a histogram of long-note durations, shortest first.
pub fn encode_ln_duration_buckets(buckets: [usize; 8]) -> (encoded: Vec<Binary64>)
    ensures
        encodes_buckets(encoded@, buckets@),
{
    let mut encoded: Vec<Binary64> = Vec::with_capacity(8);
    let mut i: usize = 0;
    while i < 8
        invariant
            i <= 8,
            encoded.len() == i,
            forall|k: int| 0 <= k < i ==> encodes(#[trigger] encoded[k], buckets[k] as nat),
        decreases 8 - i,
    {
        encoded.push(Binary64::from_u64(buckets[i] as u64));
        i = i + 1;
    }
    encoded
}

/// Whether a list is one of counts of long-note durations: eight whole numbers.
pub open spec fn holds_buckets(encoded: Seq<Binary64>) -> bool {
    encoded.len() == 8 && forall|i: int|
        0 <= i < 8 ==> (#[trigger] encoded[i]).is_integral() && is_nonnegative(encoded[i])
}

/// The counts in a list, if it is one of counts of long-note durations.
pub fn decode_ln_duration_buckets(encoded: &[Binary64]) -> (buckets: Option<[usize; 8]>)
    ensures
        buckets is Some <==> holds_buckets(encoded@),
        buckets matches Some(buckets) ==> forall|i: int|
            0 <= i < 8 ==> #[trigger] buckets[i] == encoded@[i].saturated(usize::MAX as nat),
{
    if encoded.len() != 8 {
        return None;
    }
    let mut buckets: [usize; 8] = [0; 8];
    let mut i: usize = 0;
    while i < 8
        invariant
            i <= 8,
            encoded.len() == 8,
            forall|k: int|
                0 <= k < i ==> (#[trigger] encoded@[k]).is_integral() && is_nonnegative(
                    encoded@[k],
                ),
            forall|k: int|
                0 <= k < i ==> #[trigger] buckets[k] == encoded@[k].saturated(usize::MAX as nat),
        decreases 8 - i,
    {
        if !encoded[i].integral() || !nonnegative(encoded[i]) {
            return None;
        }
        buckets[i] = encoded[i].to_usize();
        i = i + 1;
    }
    Some(buckets)
}

/// Reading back the counts that were written gives the same counts, up to `2^53`.
pub proof fn buckets_round_trip(encoded: Seq<Binary64>, buckets: Seq<usize>)
    requires
        encodes_buckets(encoded, buckets),
        forall|i: int| 0 <= i < 8 ==> (#[trigger] buckets[i]) <= 2 * FRACTION_SPAN,
    ensures
        holds_buckets(encoded),
        forall|i: int|
            0 <= i < 8 ==> (#[trigger] encoded[i]).saturated(usize::MAX as nat) == buckets[i],
{
    assert forall|i: int| 0 <= i < 8 implies (#[trigger] encoded[i]).is_integral() && is_nonnegative(
        encoded[i],
    ) && encoded[i].saturated(usize::MAX as nat) == buckets[i] by {
        assert(encodes(encoded[i], buckets[i] as nat));
        assert(buckets[i] <= 2 * FRACTION_SPAN);
        lemma_exact_count(encoded[i], buckets[i] as nat);
    }
}

// ---------------------------------------------------------------------------
// Note difficulties
// ---------------------------------------------------------------------------

/// How many bins of note difficulty there are.
pub const NOTE_DIFFICULTY_BINS: usize = 16;

/// How many numbers a bin of note difficulty takes.
pub const NOTE_DIFFICULTY_FIELDS_PER_BIN: usize = 4;

/// Notes of similar difficulty.
#[derive(Clone, Copy, Debug, PartialEq, Eq, Structural)]
pub struct NoteDifficultyBin {
    pub difficulty: Binary64,
    /// How many notes are no long notes.
    pub rice: u32,
    /// How many notes are long notes.
    pub long: u32,
    /// How long the long notes last on average.
    pub mean_duration: Binary64,
}

/// Whether the `i`th four numbers hold a bin.
pub open spec fn encodes_note_bin(encoded: Seq<Binary64>, i: int, bin: NoteDifficultyBin) -> bool {
    &&& encoded[4 * i] == bin.difficulty
    &&& encodes(encoded[4 * i + 1], bin.rice as nat)
    &&& encodes(encoded[4 * i + 2], bin.long as nat)
    &&& encoded[4 * i + 3] == bin.mean_duration
}

/// Whether a list holds bins of note difficulty.
pub open spec fn encodes_note_bins(encoded: Seq<Binary64>, bins: Seq<NoteDifficultyBin>) -> bool {
    encoded.len() == 4 * bins.len() && forall|i: int|
        0 <= i < bins.len() ==> encodes_note_bin(encoded, i, #[trigger] bins[i])
}

/// The bins one after another; nothing where there are none.
pub fn encode_note_difficulty_bins(bins: Option<&[NoteDifficultyBin; 16]>) -> (encoded: Vec<
    Binary64,
>)
    ensures
        bins is None ==> encoded@.len() == 0,
        bins matches Some(bins) ==> encodes_note_bins(encoded@, bins@),
{
    let bins: &[NoteDifficultyBin; 16] = match bins {
        Some(bins) => bins,
        None => {
            return Vec::new();
        },
    };
    let mut encoded: Vec<Binary64> = Vec::with_capacity(64);
    let mut i: usize = 0;
    while i < NOTE_DIFFICULTY_BINS
        invariant
            i <= 16,
            encoded.len() == 4 * i,
            forall|k: int| 0 <= k < i ==> encodes_note_bin(encoded@, k, #[trigger] bins[k]),
        decreases 16 - i,
    {
        let bin: NoteDifficultyBin = bins[i];
        let ghost before = encoded@;
        proof {
            lemma_small_numbers_are_exact(bin.rice as nat);
            lemma_small_numbers_are_exact(bin.long as nat);
        }
        encoded.push(bin.difficulty);
        encoded.push(Binary64::from_u32(bin.rice));
        encoded.push(Binary64::from_u32(bin.long));
        encoded.push(bin.mean_duration);
        assert forall|k: int| 0 <= k < i + 1 implies encodes_note_bin(
            encoded@,
            k,
            #[trigger] bins[k],
        ) by {
            if k < i {
                assert(encodes_note_bin(before, k, bins[k]));
                assert(encoded@[4 * k] == before[4 * k]);
                assert(encoded@[4 * k + 1] == before[4 * k + 1]);
                assert(encoded@[4 * k + 2] == before[4 * k + 2]);
                assert(encoded@[4 * k + 3] == before[4 * k + 3]);
            }
        }
        i = i + 1;
    }
    encoded
}

/// The bin in the `i`th four numbers.
pub open spec fn note_bin_at(encoded: Seq<Binary64>, i: int) -> NoteDifficultyBin {
    NoteDifficultyBin {
        difficulty: encoded[4 * i],
        rice: encoded[4 * i + 1].as_u32() as u32,
        long: encoded[4 * i + 2].as_u32() as u32,
        mean_duration: encoded[4 * i + 3],
    }
}

/// Whether a bin has no negative difficulty or duration.
pub open spec fn is_note_bin(bin: NoteDifficultyBin) -> bool {
    is_nonnegative(bin.difficulty) && is_nonnegative(bin.mean_duration)
}

/// Whether a list is one of bins of note difficulty: 64 finite numbers, with no negative
/// difficulty or duration.
pub open spec fn holds_note_bins(encoded: Seq<Binary64>) -> bool {
    &&& encoded.len() == 64
    &&& all_finite(encoded)
    &&& forall|i: int| 0 <= i < 16 ==> is_note_bin(#[trigger] note_bin_at(encoded, i))
}

/// The bins in a list, if it is one of bins of note difficulty.
pub fn decode_note_difficulty_bins(encoded: &[Binary64]) -> (bins: Option<[NoteDifficultyBin; 16]>)
    ensures
        bins is Some <==> holds_note_bins(encoded@),
        bins matches Some(bins) ==> forall|i: int|
            0 <= i < 16 ==> #[trigger] bins[i] == note_bin_at(encoded@, i),
{
    if encoded.len() != 64 || !finite_values(encoded) {
        return None;
    }
    let empty: NoteDifficultyBin = NoteDifficultyBin {
        difficulty: Binary64::from_bits(0),
        rice: 0,
        long: 0,
        mean_duration: Binary64::from_bits(0),
    };
    let mut bins: [NoteDifficultyBin; 16] = [empty;16];
    let mut i: usize = 0;
    while i < NOTE_DIFFICULTY_BINS
        invariant
            i <= 16,
            encoded.len() == 64,
            all_finite(encoded@),
            forall|k: int| 0 <= k < i ==> is_note_bin(#[trigger] note_bin_at(encoded@, k)),
            forall|k: int| 0 <= k < i ==> #[trigger] bins[k] == note_bin_at(encoded@, k),
        decreases 16 - i,
    {
        let offset: usize = 4 * i;
        let difficulty: Binary64 = encoded[offset];
        let mean_duration: Binary64 = encoded[offset + 3];
        if !nonnegative(difficulty) || !nonnegative(mean_duration) {
            assert(!is_note_bin(note_bin_at(encoded@, i as int)));
            return None;
        }
        bins[i] =
        NoteDifficultyBin {
            difficulty,
            rice: encoded[offset + 1].to_u32(),
            long: encoded[offset + 2].to_u32(),
            mean_duration,
        };
        i = i + 1;
    }
    Some(bins)
}

/// Whether a bin can be written: its averages are finite and not negative.
pub open spec fn note_bin_wf(bin: NoteDifficultyBin) -> bool {
    bin.difficulty.is_finite() && is_nonnegative(bin.difficulty) && bin.mean_duration.is_finite()
        && is_nonnegative(bin.mean_duration)
}

/// Reading back the bins that were written gives the same bins.
pub proof fn note_bins_round_trip(encoded: Seq<Binary64>, bins: Seq<NoteDifficultyBin>)
    requires
        bins.len() == 16,
        encodes_note_bins(encoded, bins),
        forall|i: int| 0 <= i < 16 ==> note_bin_wf(#[trigger] bins[i]),
    ensures
        holds_note_bins(encoded),
        forall|i: int| 0 <= i < 16 ==> note_bin_at(encoded, i) == #[trigger] bins[i],
{
    assert forall|i: int| 0 <= i < 16 implies note_bin_at(encoded, i) == #[trigger] bins[i] by {
        assert(note_bin_wf(bins[i]));
        assert(encodes_note_bin(encoded, i, bins[i]));
        lemma_exact_count(encoded[4 * i + 1], bins[i].rice as nat);
        lemma_exact_count(encoded[4 * i + 2], bins[i].long as nat);
    }
    assert forall|k: int| 0 <= k < encoded.len() implies (#[trigger] encoded[k]).is_finite() by {
        let i = k / 4;
        assert(0 <= i < 16);
        assert(note_bin_wf(bins[i]));
        assert(encodes_note_bin(encoded, i, bins[i]));
        assert(k == 4 * i || k == 4 * i + 1 || k == 4 * i + 2 || k == 4 * i + 3);
    }
    assert forall|i: int| 0 <= i < 16 implies is_note_bin(#[trigger] note_bin_at(encoded, i)) by {
        assert(note_bin_wf(bins[i]));
    }
}

/// Each bin of note difficulty takes four numbers: its difficulty, how many notes are no long
/// notes, how many are, and how long those last on average. What is read back out of them is
/// what they hold.
pub proof fn note_bins_take_four_numbers(encoded: Seq<Binary64>, i: int, bin: NoteDifficultyBin)
    requires
        encodes_note_bin(encoded, i, bin),
    ensures
        encoded[4 * i] == bin.difficulty,
        encoded[4 * i + 1].units() == bin.rice * one_in_units(),
        encoded[4 * i + 2].units() == bin.long * one_in_units(),
        encoded[4 * i + 3] == bin.mean_duration,
        note_bin_at(encoded, i) == bin,
{
    lemma_small_numbers_are_exact(bin.rice as nat);
    lemma_small_numbers_are_exact(bin.long as nat);
    lemma_exact_count(encoded[4 * i + 1], bin.rice as nat);
    lemma_exact_count(encoded[4 * i + 2], bin.long as nat);
}

/// Six numbers are windows exactly if each is finite and above zero, however large they are.
pub proof fn six_positive_numbers_are_windows(encoded: Seq<Binary64>)
    ensures
        holds_windows(encoded) <==> encoded.len() == 6 && forall|i: int|
            0 <= i < 6 ==> (#[trigger] encoded[i]).is_finite() && (Binary64 { bits: 0 }).lt(
                encoded[i],
            ),
{
    lemma_size_zero(0);
}

/// Eight numbers are a histogram exactly if each is a whole number and not below zero; a whole
/// number `n` counts `n` notes.
pub proof fn eight_whole_numbers_are_a_histogram(encoded: Seq<Binary64>, counts: Seq<usize>)
    ensures
        holds_buckets(encoded) ==> encoded.len() == 8 && forall|i: int|
            0 <= i < 8 ==> (#[trigger] encoded[i]).is_finite() && encoded[i].units() >= 0,
        encoded.len() == 8 && counts.len() == 8 && (forall|i: int|
            0 <= i < 8 ==> (#[trigger] encoded[i]).is_finite() && encoded[i].units() == counts[i]
                * one_in_units()) ==> holds_buckets(encoded) && forall|i: int|
            0 <= i < 8 ==> (#[trigger] encoded[i]).saturated(usize::MAX as nat) == counts[i],
        encodes_buckets(encoded, counts) ==> encoded.len() == 8 && counts.len() == 8 && forall|
            i: int,
        |
            0 <= i < 8 && counts[i] <= 0x20_0000_0000_0000 ==> (#[trigger] encoded[i]).units()
                == counts[i] * one_in_units(),
{
    if encoded.len() == 8 && counts.len() == 8 && (forall|i: int|
        0 <= i < 8 ==> (#[trigger] encoded[i]).is_finite() && encoded[i].units() == counts[i]
            * one_in_units()) {
        assert forall|i: int| 0 <= i < 8 implies (#[trigger] encoded[i]).is_integral()
            && is_nonnegative(encoded[i]) && encoded[i].saturated(usize::MAX as nat)
            == counts[i] by {
            let one = one_in_units();
            let n = counts[i] as nat;
            assert(encoded[i].units() == n * one);
            lemma_pow2_pos(1074);
            assert(n * one >= 0) by (nonlinear_arith);
            lemma_size_zero(encoded[i].magnitude());
            let size = size_in_units(encoded[i].magnitude());
            if encoded[i].is_negative() {
                assert(size == 0);
                assert(n == 0) by (nonlinear_arith)
                    requires
                        n * one <= 0,
                        one > 0,
                ;
            }
            lemma_fundamental_div_mod_converse(size as int, one as int, n as int, 0);
        }
    }
    if encodes_buckets(encoded, counts) {
        assert forall|i: int| 0 <= i < 8 && counts[i] <= 0x20_0000_0000_0000 implies (
        #[trigger] encoded[i]).units() == counts[i] * one_in_units() by {
            lemma_small_numbers_are_exact(counts[i] as nat);
        }
    }
}

/// Sixty-four numbers are bins of note difficulty exactly if all are finite and no difficulty or
/// duration is below zero; the counts may be any.
pub proof fn sixty_four_numbers_are_note_bins(encoded: Seq<Binary64>)
    ensures
        holds_note_bins(encoded) <==> encoded.len() == 64 && forall|k: int|
            0 <= k < 64 ==> (#[trigger] encoded[k]).is_finite() && (k % 4 == 0 || k % 4 == 3
                ==> encoded[k].units() >= 0),
{
    if holds_note_bins(encoded) {
        assert forall|k: int| 0 <= k < 64 implies (#[trigger] encoded[k]).is_finite() && (k % 4 == 0
            || k % 4 == 3 ==> encoded[k].units() >= 0) by {
            let bin = note_bin_at(encoded, k / 4);
            assert(is_note_bin(bin));
        }
    }
    if encoded.len() == 64 && forall|k: int|
        0 <= k < 64 ==> (#[trigger] encoded[k]).is_finite() && (k % 4 == 0 || k % 4 == 3
            ==> encoded[k].units() >= 0) {
        assert(all_finite(encoded));
        assert forall|i: int| 0 <= i < 16 implies is_note_bin(
            #[trigger] note_bin_at(encoded, i),
        ) by {
            assert(encoded[4 * i].is_finite() && encoded[4 * i + 3].is_finite());
        }
    }
}

} // verus!
