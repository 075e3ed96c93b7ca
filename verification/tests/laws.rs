use rosu_mania::binary64::Binary64;
use rosu_mania::calculation::{difficulty_attributes, Play, Ratings, WindowSet};
use rosu_mania::crossing::cross_coefficient;
use rosu_mania::interpolate::{body_span, BodySpan};
use rosu_mania::mods::score_mods;
use rosu_mania::notes::{Note, RebirthData};
use rosu_mania::objects::{combo_fits, prepare, TimedObject};
use rosu_mania::plan::plan_curves;
use rosu_mania::search::{
    accuracy_start, unasked_skill, unfitted_skill, AccuracyStart, Bisection, SKILL_MAX, SKILL_MIN,
};
use rosu_mania::slides::{fits, moderate_parts, DEFAULT_BEAT_PARTS, PARTS};
use rosu_mania::timeline::{CornerSets, Timeline};
use rosu_mania::usage::KeySpan;
use rosu_mania::windows::ManiaHitWindows;
use rosu_mods::GameMods;

fn b(x: f64) -> Binary64 {
    Binary64::from_bits(x.to_bits())
}

fn f(x: Binary64) -> f64 {
    f64::from_bits(x.bits)
}

fn line(values: &[f64]) -> Timeline {
    Timeline::from_sorted(values.iter().map(|&x| b(x)).collect()).unwrap()
}

fn corners() -> CornerSets {
    CornerSets {
        all: line(&[0.0, 50.0, 100.0, 200.0, 300.0, 450.0, 600.0]),
        base: line(&[0.0, 100.0, 200.0, 300.0, 450.0, 600.0]),
        awkwardness: line(&[0.0, 50.0, 600.0]),
    }
}

#[test]
fn mirrored_maps_are_planned_the_other_way_around() {
    let notes = |mirrored: bool| -> Vec<Note> {
        [(0, 0.0, None), (1, 0.0, Some(250.0)), (3, 0.0, None), (3, 150.0, None),
            (2, 150.0, None), (0, 310.0, Some(460.0)), (1, 460.0, None), (3, 460.0, None)]
            .iter()
            .map(|&(column, head, tail): &(usize, f64, Option<f64>)| Note {
                column: if mirrored { 3 - column } else { column },
                head: b(head),
                tail: tail.map(b),
            })
            .collect()
    };
    let spans = |mirrored: bool| -> Vec<KeySpan> {
        [(0, 0.0, 120.0), (1, 0.0, 350.0), (3, 90.0, 210.0), (2, 290.0, 500.0)]
            .iter()
            .map(|&(column, start, end): &(usize, f64, f64)| KeySpan {
                column: if mirrored { 3 - column } else { column },
                start: b(start),
                end: b(end),
            })
            .collect()
    };
    let plain = plan_curves(&RebirthData::new(&notes(false), 4), &corners(), &spans(false));
    let mirrored = plan_curves(&RebirthData::new(&notes(true), 4), &corners(), &spans(true));
    assert!(plain.crosses.iter().any(|row| row.iter().any(|cross| !cross.damped)));
    for gap in 0..=4 {
        assert_eq!(plain.crosses[gap], mirrored.crosses[4 - gap], "gap {gap}");
    }
    for column in 0..4 {
        assert_eq!(plain.jacks[column], mirrored.jacks[3 - column], "column {column}");
    }
}

#[test]
fn taps_beyond_the_columns_are_skipped() {
    let notes = vec![
        Note { column: 0, head: b(0.0), tail: None },
        Note { column: 7, head: b(100.0), tail: None },
        Note { column: 1, head: b(200.0), tail: Some(b(300.0)) },
        Note { column: 0, head: b(450.0), tail: None },
    ];
    let spans = vec![KeySpan { column: 7, start: b(0.0), end: b(600.0) }];
    let plan = plan_curves(&RebirthData::new(&notes, 2), &corners(), &spans);
    assert!(plan.active.iter().all(Vec::is_empty));
    assert_eq!(plan.jacks[0].len(), 1);
    assert!(plan.jacks[1].is_empty());
    assert_eq!(plan.releases.next_heads, vec![None]);
}

#[test]
fn cross_coefficients_are_those_of_the_columns() {
    let row = |columns: usize| -> Vec<f64> {
        (0..=columns).map(|column| f(cross_coefficient(columns, column))).collect()
    };
    assert_eq!(row(0), vec![-1.0]);
    assert_eq!(row(1), vec![0.075, 0.075]);
    assert_eq!(row(4), vec![0.175, 0.25, 0.05, 0.25, 0.175]);
    assert_eq!(row(7), vec![0.225, 0.35, 0.25, 0.225, 0.225, 0.25, 0.35, 0.225]);
    assert_eq!(
        row(10),
        vec![0.325, 0.55, 0.45, 0.35, 0.25, 0.05, 0.25, 0.35, 0.45, 0.55, 0.325]
    );
    // More columns have the last weights, and the last weight from there on.
    assert_eq!(f(cross_coefficient(18, 1)), 0.55);
    assert_eq!(f(cross_coefficient(18, 15)), 0.325);
    assert_eq!(f(cross_coefficient(4, 9)), 0.175);
    for columns in 0..=10 {
        let weights = row(columns);
        let reversed: Vec<f64> = weights.iter().rev().copied().collect();
        assert_eq!(weights, reversed);
    }
}

fn area(points: &[f64], values: &[f64], a: f64, c: f64) -> f64 {
    match body_span(&line(points), values.len(), b(a), b(c)) {
        BodySpan::Empty => 0.0,
        BodySpan::Within { index, a, b } => (f(b) - f(a)) * values[index],
        BodySpan::Across { first, last, a, b } => {
            let between: f64 =
                (first + 1..last).map(|step| (points[step + 1] - points[step]) * values[step]).sum();
            (points[first + 1] - f(a)) * values[first] + between + (f(b) - points[last]) * values[last]
        }
    }
}

#[test]
fn adjoining_parts_of_a_curve_make_up_the_whole() {
    let points = [0.0, 8.0, 16.0, 32.0, 64.0];
    let values = [1.0, 2.0, 4.0, 8.0];
    let ends = [-4.0, 0.0, 3.0, 8.0, 20.0, 32.0, 63.0, 64.0, 80.0];
    assert_eq!(area(&points, &values, 3.0, 20.0), 5.0 + 16.0 + 16.0);
    for &a in &ends {
        for &m in &ends {
            for &c in &ends {
                if a <= m && m <= c {
                    let parts = area(&points, &values, a, m) + area(&points, &values, m, c);
                    assert_eq!(parts, area(&points, &values, a, c), "{a} {m} {c}");
                }
            }
        }
        assert_eq!(area(&points, &values, a, a - 1.0), 0.0);
    }
    assert_eq!(area(&points, &values, -9.0, -4.0), 0.0);
    assert_eq!(area(&points, &values, 64.0, 99.0), 0.0);
}

fn object(position: f64, head: f64, hold: Option<f64>) -> TimedObject {
    TimedObject {
        position: b(position),
        head: b(head),
        end: b(head + hold.unwrap_or(0.0)),
        tail_after: b(head + 1e-7),
        hold: hold.map(b),
    }
}

#[test]
fn attributes_count_every_passed_object() {
    let objects = vec![
        object(0.5, 0.0, None),
        object(1.5, 100.0, Some(30.0)),
        object(2.5, 200.0, Some(1e-6)),
        object(3.5, 300.0, Some(900.0)),
        object(0.5, 400.0, Some(0.0)),
        object(1.5, 500.0, None),
    ];
    let windows = |from: f64| ManiaHitWindows {
        perfect: b(from),
        great: b(from + 1.0),
        good: b(from + 2.0),
        ok: b(from + 3.0),
        meh: b(from + 4.0),
        miss: b(from + 5.0),
    };
    let ratings = Ratings {
        stars: b(4.5),
        variety: b(1.0),
        acc_scalar: b(0.75),
        spikiness: b(0.5),
        switches: b(1.0),
        great_hit_window: b(40.5),
    };
    let play = |mods: GameMods, lazer: Option<bool>| Play {
        ratings,
        windows: WindowSet {
            unchanged: windows(2.0),
            narrowed: windows(1.0),
            widened: windows(3.0),
        },
        lazer,
        mods,
    };
    for (passed, n_objects, n_long_notes) in [(None, 6, 3), (Some(3), 3, 2), (Some(60), 6, 3)] {
        let map = prepare(&objects, passed, 4).unwrap();
        let durations: Vec<Binary64> = map
            .data
            .long_notes
            .iter()
            .map(|note| b(f(note.tail_or_head()) - f(note.head)))
            .collect();
        let attrs = difficulty_attributes(&map, &durations, &play(score_mods(0), Some(false)));
        assert_eq!((attrs.n_objects, attrs.n_long_notes), (n_objects, n_long_notes));
        assert_eq!(attrs.ln_duration_buckets.iter().sum::<usize>(), n_long_notes);
        assert_eq!(attrs.ln_duration_buckets[0], 2);
        assert_eq!(attrs.max_combo, map.max_combo);
        assert_eq!(attrs.stars, b(4.5));
        assert_eq!(attrs.great_hit_window, b(40.5));
        assert_eq!(attrs.hit_windows, windows(2.0));
        assert_eq!(attrs.map_windows, windows(2.0));
        assert!(attrs.ln_judged_as_one);
        let hard = difficulty_attributes(&map, &durations, &play(score_mods(16), Some(true)));
        assert_eq!(hard.hit_windows, windows(1.0));
        assert_eq!(hard.map_windows, windows(2.0));
        assert!(!hard.ln_judged_as_one);
        let easy = difficulty_attributes(&map, &durations, &play(score_mods(2), None));
        assert_eq!(easy.hit_windows, windows(3.0));
        assert!(!easy.ln_judged_as_one);
        assert!(attrs.note_difficulty_bins.is_none() && attrs.input_state_bins.is_none());
    }
}

#[test]
fn cut_maps_are_prepared_alike() {
    let objects: Vec<TimedObject> = (0..9)
        .map(|i| {
            let hold = if i % 3 == 1 { Some(130.0) } else { None };
            object(f64::from(i % 4) + 0.5, 1000.0 - 100.0 * f64::from(i), hold)
        })
        .collect();
    for n in [2, 5, 8, 9, 40] {
        let cut: Vec<TimedObject> = objects.iter().take(n as usize).copied().collect();
        assert_eq!(combo_fits(&objects, Some(n)), combo_fits(&cut, None));
        let passing = prepare(&objects, Some(n), 4).unwrap();
        let whole = prepare(&cut, None, 4).unwrap();
        assert_eq!(passing.max_combo, whole.max_combo);
        assert_eq!(passing.data.last_time, whole.data.last_time);
        assert_eq!(passing.data.notes, whole.data.notes);
        assert_eq!(passing.data.notes_by_column, whole.data.notes_by_column);
        assert_eq!(passing.data.long_notes, whole.data.long_notes);
        assert_eq!(passing.data.tails, whole.data.tails);
    }
    assert!(prepare(&objects, Some(1), 4).is_none());
}

#[test]
fn accuracy_searches_keep_the_target_enclosed() {
    let accuracy = |skill: f64| skill / (skill + 40.0);
    let target = 0.875;
    let start = accuracy_start(b(accuracy(1e-3)), b(accuracy(1e4)), b(target));
    assert_eq!(start, AccuracyStart::Between);
    assert_eq!(start.skill(), None);
    let mut bisection = Bisection::new();
    while bisection.is_due() {
        let middle = (f(bisection.low) * f(bisection.high)).sqrt();
        bisection.halve(b(middle), b(accuracy(middle)), b(target));
        assert!(accuracy(f(bisection.low)) < target);
        assert!(target <= accuracy(f(bisection.high)));
    }
    let skill = (f(bisection.low) * f(bisection.high)).sqrt();
    assert!((accuracy(skill) - target).abs() < 1e-6);
    assert_eq!(AccuracyStart::Least.skill(), Some(Binary64::from_bits(SKILL_MIN)));
    assert_eq!(AccuracyStart::Greatest.skill(), Some(Binary64::from_bits(SKILL_MAX)));
}

#[test]
fn nothing_to_fit_gives_the_least_skill() {
    let least = Some(Binary64::from_bits(SKILL_MIN));
    assert_eq!(unasked_skill(0), least);
    assert_eq!(unasked_skill(3), None);
    assert_eq!(unfitted_skill(0, &[1; 6]), least);
    assert_eq!(unfitted_skill(3, &[0; 6]), least);
    assert_eq!(unfitted_skill(3, &[0, 0, 0, 0, 0, 1]), None);
}

#[test]
fn values_are_counted_in_parts() {
    for (value, parts) in [
        (1.0, Some(1 << 20)),
        (0.5, Some(1 << 19)),
        (1.4, Some(1_468_006)),
        (0.0, Some(0)),
        (1e-300, Some(0)),
        (f64::from_bits(1), Some(0)),
        (1_048_575.5, Some((1 << 40) - (1 << 19))),
        (1_048_576.0, None),
        (1e300, None),
        (f64::INFINITY, None),
        (f64::NAN, None),
        (-1.0, None),
    ] {
        assert_eq!(moderate_parts(b(value)), parts, "{value}");
    }
    assert_eq!(moderate_parts(b(1000.0)), Some(DEFAULT_BEAT_PARTS));
    assert_eq!(moderate_parts(b(1.0)), Some(PARTS));
}

#[test]
fn sliders_fit_if_they_end_in_range() {
    let beat = moderate_parts(b(500.0)).unwrap();
    let multiplier = moderate_parts(b(1.4)).unwrap();
    // 100 pixels last for 357 ms, and so does one span more.
    let slide = |start: f64| (start.to_bits(), Some(100f64.to_bits()), 0);
    let top = f64::from(i32::MAX);
    assert!(fits(slide(1000.0), beat, PARTS, multiplier));
    assert!(fits(slide(top - 720.0), beat, PARTS, multiplier));
    assert!(!fits(slide(top - 719.0), beat, PARTS, multiplier));
    assert!(!fits(slide(f64::NAN), beat, PARTS, multiplier));
    // A slider without a length has a span of no time.
    assert!(fits(((top - 20.0).to_bits(), None, 3), beat, PARTS, multiplier));
    assert!(!fits((0, Some(100f64.to_bits()), 1 << 20), beat, PARTS, multiplier));
    assert!(!fits((0, Some(f64::NAN.to_bits()), 0), beat, PARTS, multiplier));
}
