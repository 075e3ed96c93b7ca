use rosu_mania::attributes::{
    reconstruct_attributes, JsSunnyManiaDifficultyAttributes, SunnyManiaDifficultyAttributes,
};
use rosu_mania::binary64::Binary64;
use rosu_mania::codec::{
    decode_ln_duration_buckets, decode_note_difficulty_bins, decode_windows,
    encode_ln_duration_buckets, encode_note_difficulty_bins, encode_windows, NoteDifficultyBin,
    NOTE_DIFFICULTY_BINS,
};
use rosu_mania::input_state::{
    decode_input_state_bins, encode_input_state_bins, input_class, InputClass, InputStateBin,
    INPUT_STATE_BINS,
};
use rosu_mania::windows::ManiaHitWindows;
use rosu_mods::{GameMod, GameMods};

fn b(x: f64) -> Binary64 {
    Binary64::from_bits(x.to_bits())
}

fn list(values: &[f64]) -> Vec<Binary64> {
    values.iter().map(|&x| b(x)).collect()
}

fn floats(values: &[Binary64]) -> Vec<f64> {
    values.iter().map(|x| f64::from_bits(x.bits)).collect()
}

fn windows(values: [f64; 6]) -> ManiaHitWindows {
    ManiaHitWindows {
        perfect: b(values[0]),
        great: b(values[1]),
        good: b(values[2]),
        ok: b(values[3]),
        meh: b(values[4]),
        miss: b(values[5]),
    }
}

fn empty_bins() -> [InputStateBin; INPUT_STATE_BINS] {
    std::array::from_fn(|idx| InputStateBin {
        class: match idx / NOTE_DIFFICULTY_BINS {
            0 => InputClass::FreshPress,
            1 => InputClass::RapidRepress,
            2 => InputClass::Jack,
            3 => InputClass::Release,
            4 => InputClass::ReleaseToPress,
            5 => InputClass::PressUnderHold,
            _ => InputClass::ChordEntryOrExit,
        },
        ..InputStateBin::default()
    })
}

fn jack_bin() -> InputStateBin {
    InputStateBin {
        class: InputClass::Jack,
        count: 17,
        long_count: 3,
        predecessor_count: 12,
        mean_difficulty: b(8.25),
        mean_duration_ms: b(123.0),
        mean_gap_ms: b(91.0),
        mean_next_gap_ms: b(140.0),
        next_operation_count: 11,
        mean_chord_width: b(1.5),
        mean_other_held: b(0.25),
    }
}

#[test]
fn input_state_bins_round_trip_and_old_attributes_fall_back() {
    let mut bins = empty_bins();
    bins[2 * NOTE_DIFFICULTY_BINS] = jack_bin();

    let encoded = encode_input_state_bins(Some(&bins));
    assert_eq!(decode_input_state_bins(&encoded), Some(bins));
    assert_eq!(decode_input_state_bins(&[]), None);

    let mut malformed = encoded;
    malformed[0] = b(99.0);
    assert_eq!(decode_input_state_bins(&malformed), None);
}

#[test]
fn input_state_bins_are_written_field_by_field() {
    let mut bins = empty_bins();
    bins[0] = InputStateBin { class: InputClass::FreshPress, ..jack_bin() };
    let encoded = floats(&encode_input_state_bins(Some(&bins)));
    assert_eq!(encoded.len(), 1121);
    assert_eq!(
        &encoded[..12],
        &[2.0, 17.0, 3.0, 12.0, 8.25, 123.0, 91.0, 140.0, 11.0, 1.5, 0.25, 0.0]
    );
    assert!(encode_input_state_bins(None).is_empty());
}

#[test]
fn the_first_version_has_no_next_operation() {
    let mut encoded = vec![0.0; 897];
    encoded[0] = 1.0;
    let offset = 1 + 33 * 8;
    encoded[offset..offset + 8].copy_from_slice(&[5.0, 2.0, 4.0, 6.5, 70.0, 80.0, 1.25, 0.5]);
    let bins = decode_input_state_bins(&list(&encoded)).unwrap();
    assert_eq!(
        bins[33],
        InputStateBin {
            class: InputClass::Jack,
            count: 5,
            long_count: 2,
            predecessor_count: 4,
            mean_difficulty: b(6.5),
            mean_duration_ms: b(70.0),
            mean_gap_ms: b(80.0),
            mean_next_gap_ms: b(0.0),
            next_operation_count: 0,
            mean_chord_width: b(1.25),
            mean_other_held: b(0.5),
        }
    );
    assert_eq!(bins[0], InputStateBin::default());
    assert_eq!(input_class(95), InputClass::PressUnderHold);
    assert_eq!(input_class(111), InputClass::ChordEntryOrExit);
}

#[test]
fn malformed_input_state_bins_are_refused() {
    let encoded = floats(&encode_input_state_bins(Some(&empty_bins())));
    assert!(decode_input_state_bins(&list(&encoded)).is_some());

    let mut short = encoded.clone();
    short.pop();
    assert_eq!(decode_input_state_bins(&list(&short)), None);

    let mut infinite = encoded.clone();
    infinite[4] = f64::INFINITY;
    assert_eq!(decode_input_state_bins(&list(&infinite)), None);

    let mut more_long_than_notes = encoded.clone();
    more_long_than_notes[2] = 1.0;
    assert_eq!(decode_input_state_bins(&list(&more_long_than_notes)), None);

    let mut clamped = encoded;
    clamped[1] = -4.0;
    clamped[11] = 1e12;
    let bins = decode_input_state_bins(&list(&clamped)).unwrap();
    assert_eq!(bins[0].count, 0);
    assert_eq!(bins[1].count, u32::MAX);
}

#[test]
fn windows_round_trip() {
    let set = windows([16.5, 40.5, 73.5, 103.5, 127.5, 164.5]);
    let encoded = encode_windows(set);
    assert_eq!(floats(&encoded), vec![16.5, 40.5, 73.5, 103.5, 127.5, 164.5]);
    assert_eq!(decode_windows(&encoded), Some(set));
    assert_eq!(decode_windows(&encoded[..5]), None);
    for bad in [0.0, -1.0, f64::NAN, f64::INFINITY] {
        assert_eq!(decode_windows(&list(&[16.5, 40.5, bad, 103.5, 127.5, 164.5])), None);
    }
}

#[test]
fn duration_buckets_round_trip() {
    let buckets = [1usize, 0, 7, 500, 9007199254740992, 2, 3, 4];
    let encoded = encode_ln_duration_buckets(buckets);
    assert_eq!(
        floats(&encoded),
        vec![1.0, 0.0, 7.0, 500.0, 9007199254740992.0, 2.0, 3.0, 4.0]
    );
    assert_eq!(decode_ln_duration_buckets(&encoded), Some(buckets));
    assert_eq!(decode_ln_duration_buckets(&[]), None);
    for bad in [0.5, -1.0, f64::NAN, f64::INFINITY] {
        let mut broken = encoded.clone();
        broken[6] = b(bad);
        assert_eq!(decode_ln_duration_buckets(&broken), None);
    }
    let mut zero = encoded;
    zero[1] = b(-0.0);
    assert_eq!(decode_ln_duration_buckets(&zero), Some(buckets));
}

fn note_bins() -> [NoteDifficultyBin; 16] {
    std::array::from_fn(|i| NoteDifficultyBin {
        difficulty: b(i as f64 * 0.5),
        rice: 3 * i as u32,
        long: i as u32,
        mean_duration: b(100.0 + i as f64),
    })
}

#[test]
fn note_difficulty_bins_round_trip() {
    let bins = note_bins();
    let encoded = encode_note_difficulty_bins(Some(&bins));
    assert_eq!(encoded.len(), 64);
    assert_eq!(&floats(&encoded)[4..8], &[0.5, 3.0, 1.0, 101.0]);
    assert_eq!(decode_note_difficulty_bins(&encoded), Some(bins));
    assert!(encode_note_difficulty_bins(None).is_empty());
    assert_eq!(decode_note_difficulty_bins(&[]), None);

    let mut negative = encoded.clone();
    negative[8] = b(-0.25);
    assert_eq!(decode_note_difficulty_bins(&negative), None);
    let mut nan = encoded.clone();
    nan[9] = b(f64::NAN);
    assert_eq!(decode_note_difficulty_bins(&nan), None);
    let mut clamped = encoded;
    clamped[9] = b(-3.0);
    assert_eq!(decode_note_difficulty_bins(&clamped).unwrap()[2].rice, 0);
}

fn attributes(ln_judged_as_one: bool, with_bins: bool) -> SunnyManiaDifficultyAttributes {
    let mut input_bins = empty_bins();
    input_bins[2 * NOTE_DIFFICULTY_BINS] = jack_bin();
    SunnyManiaDifficultyAttributes {
        stars: b(4.25),
        variety: b(3.5),
        acc_scalar: b(1.0625),
        spikiness: b(1.1),
        switches: b(1.025),
        great_hit_window: b(41.5),
        hit_windows: windows([22.5, 57.5, 104.5, 146.5, 179.5, 231.5]),
        map_windows: windows([16.5, 41.5, 74.5, 104.5, 128.5, 165.5]),
        max_combo: 29,
        n_objects: 8,
        n_long_notes: 8,
        ln_duration_buckets: [0, 0, 1, 0, 2, 2, 3, 0],
        note_difficulty_bins: if with_bins { Some(note_bins()) } else { None },
        input_state_bins: if with_bins { Some(input_bins) } else { None },
        ln_judged_as_one,
    }
}

fn no_mods() -> GameMods {
    GameMods::default()
}

#[test]
fn cached_attributes_are_restored_without_the_exact_copies() {
    for judged_as_one in [true, false] {
        for with_bins in [true, false] {
            let direct = attributes(judged_as_one, with_bins);
            let mut cached = JsSunnyManiaDifficultyAttributes::from(&direct);
            cached.hit_windows = ManiaHitWindows::default();
            cached.map_windows = ManiaHitWindows::default();
            cached.ln_duration_buckets = [0; 8];

            let fallback = windows([1.0, 2.0, 3.0, 4.0, 5.0, 6.0]);
            let restored = reconstruct_attributes(&cached, &no_mods(), fallback, fallback);
            assert_eq!(restored.stars, direct.stars);
            assert_eq!(restored.variety, direct.variety);
            assert_eq!(restored.acc_scalar, direct.acc_scalar);
            assert_eq!(restored.spikiness, direct.spikiness);
            assert_eq!(restored.switches, direct.switches);
            assert_eq!(restored.great_hit_window, direct.great_hit_window);
            assert_eq!(restored.hit_windows, direct.hit_windows);
            assert_eq!(restored.map_windows, direct.map_windows);
            assert_eq!(restored.max_combo, direct.max_combo);
            assert_eq!(restored.n_objects, direct.n_objects);
            assert_eq!(restored.n_long_notes, direct.n_long_notes);
            assert_eq!(restored.ln_duration_buckets, direct.ln_duration_buckets);
            assert_eq!(restored.note_difficulty_bins, direct.note_difficulty_bins);
            assert_eq!(restored.input_state_bins, direct.input_state_bins);
            assert_eq!(restored.ln_judged_as_one, direct.ln_judged_as_one);
        }
    }
}

#[test]
fn old_cached_attributes_fall_back() {
    let direct = attributes(true, false);
    let mut old = JsSunnyManiaDifficultyAttributes::from(&direct);
    old.serialized_hit_windows = Vec::new();
    old.serialized_map_windows = Vec::new();
    old.serialized_ln_duration_buckets = Vec::new();
    old.hit_windows = ManiaHitWindows::default();
    old.ln_duration_buckets = [0; 8];
    old.ln_judged_as_one = None;

    let hit = windows([1.0, 2.0, 3.0, 4.0, 5.0, 6.0]);
    let map = windows([7.0, 8.0, 9.0, 10.0, 11.0, 12.0]);
    let restored = reconstruct_attributes(&old, &no_mods(), hit, map);
    assert_eq!(restored.hit_windows, hit);
    assert_eq!(restored.map_windows, direct.map_windows);
    assert_eq!(restored.ln_duration_buckets, [0, 0, 0, 8, 0, 0, 0, 0]);
    assert!(!restored.ln_judged_as_one);

    let mut cl = GameMods::default();
    cl.insert(GameMod::ClassicMania(Default::default()));
    assert!(reconstruct_attributes(&old, &cl, hit, map).ln_judged_as_one);

    // A histogram that does not add up is not believed.
    old.serialized_ln_duration_buckets = list(&[9.0, 0.0, 0.0, 0.0, 0.0, 0.0, 0.0, 0.0]);
    old.ln_duration_buckets = [0, 4, 4, 0, 0, 0, 0, 0];
    let restored = reconstruct_attributes(&old, &no_mods(), hit, map);
    assert_eq!(restored.ln_duration_buckets, [0, 4, 4, 0, 0, 0, 0, 0]);
}

#[test]
fn cached_lists_are_handed_out() {
    let cached = JsSunnyManiaDifficultyAttributes::from(&attributes(true, true));
    assert_eq!(floats(&cached.hit_windows()), vec![22.5, 57.5, 104.5, 146.5, 179.5, 231.5]);
    assert_eq!(floats(&cached.map_windows()), vec![16.5, 41.5, 74.5, 104.5, 128.5, 165.5]);
    assert_eq!(
        floats(&cached.ln_duration_buckets()),
        vec![0.0, 0.0, 1.0, 0.0, 2.0, 2.0, 3.0, 0.0]
    );
    assert_eq!(cached.note_difficulty_bins().len(), 64);
    assert_eq!(cached.input_state_bins().len(), 1121);
    assert_eq!(cached.ln_judged_as_one(), Some(true));
    assert!(cached.mods.is_empty());
}
