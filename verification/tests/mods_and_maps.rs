use rosu_mania::args::{
    sunny_state, CalculateFailure, CalculationArgs, DifficultyArgs, JsSunnyManiaDifficulty,
    JsSunnyManiaPerformance, PerformanceArgs,
};
use rosu_mania::beatmap::{
    mania_map, prepare_map, try_mania_map, try_prepare_map, ConvertFailure, JsBeatmap, MapFailure, Mode,
};
use rosu_mania::binary64::Binary64;
use rosu_mania::mods::{
    clock_rate, effective_mods, has_mod, is_classic, rate_or_normal, score_mods, scoring_mods,
    window_change_for,
};
use rosu_mania::score::SunnyScoreState;
use rosu_mania::windows::WindowChange;
use rosu_mods::{GameMod, GameMods};
use rosu_pp::model::mode::GameMode;

fn b(x: f64) -> Binary64 {
    Binary64::from_bits(x.to_bits())
}

fn f(x: Binary64) -> f64 {
    f64::from_bits(x.bits)
}

fn single_mod(mods: &mut GameMods, gamemod: GameMod) {
    mods.insert(gamemod);
}

#[test]
fn classic_detection_sees_the_score_v2_mod() {
    assert_eq!(
        rosu_mods::generated_mods::ScoreV2Mania::acronym().as_str(),
        "SV2",
        "the acronym this code looks up must be the one the mod reports"
    );

    let mut v2 = GameMods::new();
    single_mod(&mut v2, GameMod::ScoreV2Mania(Default::default()));

    assert!(
        !is_classic(Some(false), &v2),
        "a stable score with ScoreV2 judges long notes as two units, so it is not classic"
    );
    assert!(
        is_classic(Some(false), &GameMods::new()),
        "a stable score without ScoreV2 is classic"
    );

    // The lazer default is the other direction, and CL overrides it.
    assert!(!is_classic(Some(true), &GameMods::new()));

    let mut cl = GameMods::new();
    single_mod(&mut cl, GameMod::ClassicMania(Default::default()));
    assert!(is_classic(Some(true), &cl));
}

#[test]
fn a_play_is_lazer_unless_it_says_otherwise() {
    assert!(!is_classic(None, &GameMods::new()));
    let mut cl = GameMods::new();
    single_mod(&mut cl, GameMod::ClassicMania(Default::default()));
    single_mod(&mut cl, GameMod::ScoreV2Mania(Default::default()));
    assert!(is_classic(None, &cl));
    assert!(is_classic(Some(false), &cl));
}

#[test]
fn mods_are_found_by_acronym() {
    let mut mods = GameMods::new();
    assert!(has_mod(&mods, "NM"));
    assert!(!has_mod(&mods, "EZ"));
    single_mod(&mut mods, GameMod::EasyMania(Default::default()));
    single_mod(&mut mods, GameMod::NoFailMania(Default::default()));
    assert!(has_mod(&mods, "EZ"));
    assert!(has_mod(&mods, "ez"));
    assert!(!has_mod(&mods, "HR"));
    assert!(!has_mod(&mods, "NM"));
    assert!(!has_mod(&mods, "E"));
    assert!(!has_mod(&mods, "EASY"));
    let found = scoring_mods(&mods);
    assert!(found.easy && found.no_fail && !found.hard_rock);
}

#[test]
fn attached_mods_go_first() {
    let none = GameMods::new();
    let mut ez = GameMods::new();
    single_mod(&mut ez, GameMod::EasyMania(Default::default()));
    let mut hr = GameMods::new();
    single_mod(&mut hr, GameMod::HardRockMania(Default::default()));
    assert!(has_mod(effective_mods(&ez, &hr), "EZ"));
    assert!(has_mod(effective_mods(&none, &hr), "HR"));
}

#[test]
fn the_clock_rate_comes_from_the_caller_or_the_mods() {
    let mut dt = GameMods::new();
    single_mod(&mut dt, GameMod::DoubleTimeMania(Default::default()));
    assert_eq!(f(clock_rate(None, &dt)), 1.5);
    assert_eq!(f(clock_rate(Some(b(1.17)), &dt)), 1.17);
    assert_eq!(f(clock_rate(None, &GameMods::new())), 1.0);
    let mut wind_up = GameMods::new();
    single_mod(&mut wind_up, GameMod::WindUpMania(Default::default()));
    assert_eq!(f(clock_rate(None, &wind_up)), 1.0);
    assert_eq!(f(rate_or_normal(None)), 1.0);
    assert_eq!(f(rate_or_normal(Some(0.75f64.to_bits()))), 0.75);
}

const MANIA: &[u8] = b"osu file format v14

[General]
Mode: 3

[Difficulty]
CircleSize: 4
OverallDifficulty: 7.6
SliderMultiplier: 1.4
SliderTickRate: 1

[TimingPoints]
0,500,4,2,1,100,1,0

[HitObjects]
64,192,1000,128,0,1180:0:0:0:0:
192,192,1120,128,0,1400:0:0:0:0:
";

const STANDARD: &[u8] = b"osu file format v14

[General]
Mode: 0

[Difficulty]
CircleSize: 4
OverallDifficulty: 8
SliderMultiplier: 1.4
SliderTickRate: 1

[TimingPoints]
0,500,4,2,1,100,1,0

[HitObjects]
64,192,1000,1,0,0:0:0:0:
192,192,1500,1,0,0:0:0:0:
320,192,2000,1,0,0:0:0:0:
";

#[test]
fn maps_know_their_mode() {
    assert_eq!(JsBeatmap::new(MANIA).ok().unwrap().mode(), 3);
    let map = JsBeatmap::new(STANDARD).ok().unwrap();
    assert_eq!(map.mode(), 0);
    assert!(!map.is_suspicious());
    assert_eq!(map.inner().hit_objects.len(), 3);
    map.free();
}

#[test]
fn bytes_that_break_off_are_not_a_map() {
    // Little-endian UTF-16 whose last character lacks a byte.
    assert!(JsBeatmap::new(&[0xff, 0xfe, b'\n']).is_err());
    assert!(JsBeatmap::new(b"").is_ok());
}

#[test]
fn a_map_with_an_endless_pause_is_suspicious() {
    let text = String::from_utf8(STANDARD.to_vec()).unwrap() + "320,192,200000000,1,0,0:0:0:0:\n";
    assert!(JsBeatmap::new(text.as_bytes()).ok().unwrap().is_suspicious());
}

#[test]
fn maps_are_converted_once() {
    let mut map = JsBeatmap::new(STANDARD).ok().unwrap();
    assert_eq!(map.convert(4), Err(MapFailure::InvalidMode));
    assert_eq!(map.convert(0), Ok(()));
    assert_eq!(map.mode(), 0);
    assert_eq!(map.convert(1), Ok(()));
    assert_eq!(map.mode(), 1);
    assert!(map.inner().is_convert);
    assert_eq!(map.convert(1), Ok(()));
    let refused = map.convert(3);
    assert_eq!(refused, Err(MapFailure::Convert(ConvertFailure::AlreadyConverted)));
    assert_eq!(map.mode(), 1);
    assert_eq!(
        refused.unwrap_err().message(),
        "Cannot convert an already converted map"
    );
}

#[test]
fn every_conversion_marks_the_map() {
    for mode in [1, 2, 3] {
        let mut map = JsBeatmap::new(STANDARD).ok().unwrap();
        assert_eq!(map.convert(mode), Ok(()));
        assert_eq!(map.mode(), mode);
        assert!(map.inner().is_convert);
    }
}

#[test]
fn only_standard_maps_are_converted() {
    let mut map = JsBeatmap::new(MANIA).ok().unwrap();
    assert_eq!(map.convert(3), Ok(()));
    let refused = map.convert(2).unwrap_err();
    assert_eq!(
        refused,
        MapFailure::Convert(ConvertFailure::Convert { from: Mode::Mania, to: Mode::Catch })
    );
    assert_eq!(refused.message(), "Cannot convert from Mania to Catch");
    assert_eq!(MapFailure::InvalidMode.message(), "invalid game mode");
}

#[test]
fn messages_match_the_outside_ones() {
    let outside = JsBeatmap::new(MANIA).ok().unwrap();
    let mut inner = outside.inner().clone();
    let error = inner
        .convert_mut(GameMode::Taiko, &rosu_pp::GameMods::default())
        .unwrap_err();
    let own = ConvertFailure::Convert { from: Mode::Mania, to: Mode::Taiko };
    assert_eq!(own.message(), error.to_string());
    assert_eq!(
        own.mania_message(),
        format!("converting the map to mania failed: {error:?}")
    );
    assert_eq!(
        ConvertFailure::AlreadyConverted.mania_message(),
        "converting the map to mania failed: AlreadyConverted"
    );
}

#[test]
fn maps_are_brought_into_mania() {
    let standard = JsBeatmap::new(STANDARD).ok().unwrap();
    let converted = mania_map(&standard, 0).unwrap();
    assert_eq!(converted.mode, GameMode::Mania);
    assert!(converted.is_convert);
    assert_eq!(standard.mode(), 0);

    // The four-key mod.
    let four_keys = mania_map(&standard, 1 << 15).unwrap();
    assert_eq!(four_keys.cs, 4.0);
    let six_keys = mania_map(&standard, 1 << 17).unwrap();
    assert_eq!(six_keys.cs, 6.0);

    let mania = JsBeatmap::new(MANIA).ok().unwrap();
    assert_eq!(&mania_map(&mania, 0).unwrap(), mania.inner());
    assert_eq!(&prepare_map(&mania, &GameMods::new()).unwrap(), mania.inner());
    let mut seven = GameMods::new();
    single_mod(&mut seven, GameMod::SevenKeysMania(Default::default()));
    assert_eq!(prepare_map(&standard, &seven).unwrap().cs, 7.0);

    let mut taiko = JsBeatmap::new(STANDARD).ok().unwrap();
    taiko.convert(1).unwrap();
    assert_eq!(mania_map(&taiko, 0).unwrap_err(), ConvertFailure::AlreadyConverted);
    assert_eq!(
        prepare_map(&taiko, &GameMods::new()).unwrap_err(),
        ConvertFailure::AlreadyConverted
    );
}

#[test]
fn bridge_arguments_come_from_numbers() {
    let none = CalculationArgs::from_numbers(None, None, None, None);
    assert_eq!(none.mods, 0);
    assert_eq!(f(none.clock_rate), 1.0);
    assert!(!none.lazer);
    assert_eq!(none.passed_objects, None);

    let dt = CalculationArgs::from_numbers(Some(b(64.0)), None, Some(true), Some(b(12.9)));
    assert_eq!(dt.mods, 64);
    assert_eq!(f(dt.clock_rate), 1.5);
    assert!(dt.lazer);
    assert_eq!(dt.passed_objects, Some(12));

    let rate = |bits: f64| f(CalculationArgs::from_numbers(Some(b(bits)), None, None, None).clock_rate);
    assert_eq!(rate(512.0 + 64.0), 1.5);
    assert_eq!(rate(512.0), 1.5);
    assert_eq!(rate(256.0), 0.75);
    assert_eq!(rate(256.0 + 64.0), 1.5);
    assert_eq!(rate(128.0), 1.0);
    let custom = CalculationArgs::from_numbers(Some(b(64.0)), Some(b(0.9)), None, Some(b(-3.0)));
    assert_eq!(f(custom.clock_rate), 0.9);
    assert_eq!(custom.passed_objects, Some(0));
    assert_eq!(
        CalculationArgs::from_numbers(Some(b(f64::NAN)), None, None, None).mods,
        0
    );
}

#[test]
fn bridge_scores_come_from_numbers() {
    let state = sunny_state(Some(b(10.0)), Some(b(4.7)), None, Some(b(-1.0)), Some(b(1e20)), None);
    assert_eq!(
        state,
        SunnyScoreState { n320: 10, n300: 4, n200: 0, n100: 0, n50: u32::MAX, misses: 0 }
    );
}

#[test]
fn builders_set_one_thing_at_a_time() {
    let mut difficulty = JsSunnyManiaDifficulty::new(None);
    assert!(difficulty.args.mods.is_empty());
    difficulty.set_lazer(Some(true));
    difficulty.set_clock_rate(Some(b(1.25)));
    difficulty.set_passed_objects(Some(5));
    let mut ez = GameMods::new();
    single_mod(&mut ez, GameMod::EasyMania(Default::default()));
    difficulty.set_mods(Some(ez));
    assert!(has_mod(&difficulty.args.mods, "EZ"));
    assert_eq!(difficulty.args.lazer, Some(true));
    assert_eq!(difficulty.args.clock_rate, Some(b(1.25)));
    assert_eq!(difficulty.args.passed_objects, Some(5));
    difficulty.set_mods(None);
    assert!(difficulty.args.mods.is_empty());
    assert_eq!(difficulty.args.lazer, Some(true));

    let given = JsSunnyManiaDifficulty::new(Some(DifficultyArgs {
        lazer: Some(false),
        ..DifficultyArgs::default()
    }));
    assert_eq!(given.args.lazer, Some(false));
}

#[test]
fn given_judgements_make_the_score() {
    let mut performance = JsSunnyManiaPerformance::new(None);
    performance.set_n_geki(Some(90));
    performance.set_n300(Some(5));
    performance.set_n_katu(Some(2));
    performance.set_n100(Some(1));
    performance.set_n50(Some(1));
    performance.set_misses(Some(1));
    performance.set_accuracy(Some(b(50.0)));
    assert_eq!(
        performance.score_state(100, b(70.0)),
        SunnyScoreState { n320: 90, n300: 5, n200: 2, n100: 1, n50: 1, misses: 1 }
    );
}

/// How many perfect hits an accuracy in percent asks for.
fn perfect_hits(accuracy: f64, total: u32) -> f64 {
    let acc = (accuracy / 100.0).clamp(0.0, 1.0);
    (acc * 305.0 * f64::from(total) - 300.0 * f64::from(total)) / 5.0
}

#[test]
fn an_accuracy_makes_the_most_favourable_score() {
    let mut performance = JsSunnyManiaPerformance::new(Some(PerformanceArgs::default()));
    assert_eq!(performance.score_state(1000, b(3.0)), SunnyScoreState::default());

    performance.set_accuracy(Some(b(99.5)));
    performance.set_mods(None);
    performance.set_lazer(Some(true));
    performance.set_clock_rate(Some(b(1.0)));
    performance.set_passed_objects(None);
    let state = performance.score_state(1000, b(perfect_hits(99.5, 1000)));
    assert_eq!(state.n320, 695);
    assert_eq!(state.n300, 305);
    assert_eq!(state.total_hits(), 1000);

    let full = performance.score_state(1000, b(perfect_hits(100.0, 1000)));
    assert_eq!(full.n320, 1000);
    let low = performance.score_state(1000, b(perfect_hits(50.0, 1000)));
    assert_eq!((low.n320, low.n300), (0, 1000));
}

#[test]
fn failures_have_words() {
    assert_eq!(
        CalculateFailure::TooFewObjects.message(),
        "sunny calculation requires at least 2 hit objects"
    );
    assert_eq!(
        CalculateFailure::UnexpectedInput.message(),
        "Expected either sunny mania difficulty attributes or a beatmap"
    );
    assert_eq!(
        CalculateFailure::Convert(ConvertFailure::AlreadyConverted).message(),
        "converting the map to mania failed: AlreadyConverted"
    );
}

#[test]
fn score_mods_are_read_from_their_bits() {
    assert!(score_mods(0).is_empty());
    let dt_hr = score_mods(64 + 16);
    assert!(has_mod(&dt_hr, "DT"));
    assert!(has_mod(&dt_hr, "HR"));
    assert!(!has_mod(&dt_hr, "EZ"));
    assert_eq!(f(clock_rate(None, &dt_hr)), 1.5);
    assert!(dt_hr.iter().all(|gamemod| gamemod.mode() == rosu_mods::GameMode::Mania));
    // Nightcore has the bit of double time too.
    let nc = score_mods(64 + 512);
    assert!(has_mod(&nc, "NC"));
    assert!(!has_mod(&nc, "DT"));
}

#[test]
fn hard_rock_and_easy_change_the_windows() {
    assert_eq!(window_change_for(&GameMods::new()), WindowChange::Unchanged);
    assert_eq!(window_change_for(&score_mods(64)), WindowChange::Unchanged);
    assert_eq!(window_change_for(&score_mods(16)), WindowChange::Narrowed);
    assert_eq!(window_change_for(&score_mods(2)), WindowChange::Widened);
    assert_eq!(window_change_for(&score_mods(16 + 2)), WindowChange::Narrowed);
}

#[test]
fn a_clock_rate_that_is_no_number_stays_none() {
    let mut mods = GameMods::new();
    let mut dt = rosu_mods::generated_mods::DoubleTimeMania::default();
    dt.speed_change = Some(f64::NAN);
    single_mod(&mut mods, GameMod::DoubleTimeMania(dt));
    assert!(f(clock_rate(None, &mods)).is_nan());
    assert_eq!(f(clock_rate(Some(b(1.25)), &mods)), 1.25);
}

fn map_with(multiplier: &str, beat: &str, object: &str) -> JsBeatmap {
    let text = format!(
        "osu file format v14\n\n[Difficulty]\nSliderMultiplier: {multiplier}\n\n[TimingPoints]\n\
         -5000,{beat},4,2,1,100,1,0\n\n[HitObjects]\n{object}\n64,192,5000,1,0,0:0:0:0:\n"
    );
    let map = JsBeatmap::new(text.as_bytes()).ok().unwrap();
    assert_eq!(map.inner().hit_objects.len(), 2);
    map
}

#[test]
fn maps_with_overlong_sliders_are_not_brought_into_mania() {
    // One begins before zero and lasts too long, one ends in range, but not with a span more.
    let long = map_with("0.4", "60000", "64,192,-1000,2,0,L|128:192,12,131072");
    let late = map_with("1.4", "500", "64,192,2147483147,2,0,L|128:192,3,42");
    for mut map in [long, late] {
        assert!(!map.slides_fit());
        assert!(try_mania_map(&map, 0).is_none());
        assert!(try_prepare_map(&map, &GameMods::new()).is_none());
        assert_eq!(map.try_convert(3), None);
        assert_eq!(map.mode(), 0);
        assert_eq!(map.try_convert(4), Some(Err(MapFailure::InvalidMode)));
        // Other modes do not count milliseconds.
        assert_eq!(map.try_convert(2), Some(Ok(())));
        assert_eq!(
            map.try_convert(3),
            Some(Err(MapFailure::Convert(ConvertFailure::AlreadyConverted)))
        );
        assert_eq!(
            try_mania_map(&map, 0).unwrap().unwrap_err(),
            ConvertFailure::AlreadyConverted
        );
    }
}

#[test]
fn maps_with_ordinary_sliders_are_brought_into_mania() {
    for (multiplier, beat, object) in [
        ("1.4", "500", "64,192,1000,2,0,L|128:192,3,350"),
        ("0.4", "60000", "64,192,1000,2,0,L|128:192,12,8000"),
        ("3.6", "6", "64,192,1000,2,0,L|128:192,9000,0"),
        ("1.4", "-50", "64,192,2147480000,2,0,L|128:192,2,10"),
    ] {
        let mut map = map_with(multiplier, beat, object);
        assert!(map.slides_fit(), "{object}");
        let converted = try_mania_map(&map, 0).unwrap().unwrap();
        assert_eq!(converted, mania_map(&map, 0).unwrap());
        assert_eq!(converted.mode, GameMode::Mania);
        let prepared = try_prepare_map(&map, &GameMods::new()).unwrap().unwrap();
        assert_eq!(prepared.hit_objects, converted.hit_objects);
        assert_eq!(map.try_convert(3), Some(Ok(())));
        assert_eq!(map.mode(), 3);
    }
}

#[test]
fn the_slowest_velocity_and_the_longest_beat_count() {
    let text = |velocity: &str, beat: &str| {
        format!(
            "osu file format v14\n\n[Difficulty]\nSliderMultiplier: 1\n\n[TimingPoints]\n\
             0,1000,4,2,1,100,1,0\n100,{velocity},4,2,1,100,0,0\n200,{beat},4,2,1,100,1,0\n\n\
             [HitObjects]\n64,192,1000,2,0,L|128:192,1000,30000\n"
        )
    };
    let fit = |velocity: &str, beat: &str| {
        JsBeatmap::new(text(velocity, beat).as_bytes()).ok().unwrap().slides_fit()
    };
    // 300 million ms; ten times that, or that at a beat ten times as long, is too much.
    assert!(fit("-100", "1000"));
    assert!(!fit("-1000", "1000"));
    assert!(!fit("-100", "10000"));
}
