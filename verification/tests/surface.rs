use rosu_mania::binary64::Binary64;
use rosu_mania::holds::{
    held_units, ln_duration_bucket, ln_duration_histogram, modal_ln_duration_histogram, HeldUnit,
    LN_DURATION_EDGES,
};
use rosu_mania::notes::{Note, RebirthData};
use rosu_mania::score::{custom_accuracy, SunnyScoreState};
use rosu_mania::search::{
    accuracy_start, has_evidence, peak_bracket, peak_index, AccuracyStart, Bisection,
    GoldenSection, Probe, SKILL_MAX, SKILL_MIN,
};
use rosu_mania::surface::{
    observed, observed_timing, observed_total, positive, tail_case, ErrorModel, ExpectedCounts,
    FitQuality, JudgementProbabilities, JudgementUnit, Observation, TailCase,
};
use rosu_mania::variety::{gap_counts, gaps, value_counts};
use rosu_mania::windows::{
    comparable_skills, great_window_base, has_windows_to_price, pricing_reference,
    reference_windows, window_change, GreatWindowBase, ManiaHitWindows, ManiaJudgement,
    PricingReference, WindowChange,
};

fn b(x: f64) -> Binary64 {
    Binary64::from_bits(x.to_bits())
}

fn f(x: Binary64) -> f64 {
    f64::from_bits(x.bits)
}

fn list(values: &[f64]) -> Vec<Binary64> {
    values.iter().map(|&x| b(x)).collect()
}

fn windows(values: [f64; 6]) -> ManiaHitWindows {
    ManiaHitWindows {
        perfect: b(values[0]),
        great: b(values[1]),
        good: b(values[2]),
        ok: b(values[3]),
        meh: b(values[4]),
        miss: b(values[5]),
    }
}

fn od9_windows() -> ManiaHitWindows {
    windows([16.5, 37.5, 70.5, 100.5, 124.5, 161.5])
}

fn erfc(x: f64) -> f64 {
    let z = x.abs();
    let t = 1.0 / (1.0 + 0.5 * z);
    let poly = -1.265_512_23
        + t * (1.000_023_68
            + t * (0.374_091_96
                + t * (0.096_784_18
                    + t * (-0.186_288_06
                        + t * (0.278_868_07
                            + t * (-1.135_203_98
                                + t * (1.488_515_87
                                    + t * (-0.822_152_23 + t * 0.170_872_77))))))));
    let value = t * (-z * z + poly).exp();
    if x >= 0.0 {
        value
    } else {
        2.0 - value
    }
}

fn tail(bound: f64, sigma: f64) -> f64 {
    match tail_case(b(bound), b(sigma)) {
        TailCase::Everything => 1.0,
        TailCase::Nothing => 0.0,
        TailCase::Partial => erfc(bound / (sigma * std::f64::consts::SQRT_2)),
    }
}

/// The expected counts of `total` notes of one difficulty.
fn expected(windows: &ManiaHitWindows, difficulty: f64, skill: f64, total: f64) -> ExpectedCounts {
    let model = ErrorModel::default();
    let sigma = if positive(b(skill)) {
        let ratio = (difficulty.max(0.0) + f(model.difficulty_floor)) / skill;
        f(model.sigma_ref) * ratio.powf(f(model.skill_exponent))
    } else {
        f64::INFINITY
    };
    let weight = f(model.lapse_weight);
    let mut counts = [b(0.0); 6];
    let mut remaining = 1.0f64;
    for judgement in ManiaJudgement::all() {
        let (_, upper) = windows.band(judgement);
        let outside = ((1.0 - weight) * tail(f(upper), sigma)
            + weight * tail(f(upper), sigma * f(model.lapse_ratio)))
        .min(remaining);
        counts[judgement.index()] = b(total * (remaining - outside));
        remaining = outside;
    }
    ExpectedCounts { counts }
}

#[test]
fn rounding_preserves_the_total() {
    let windows = od9_windows();

    for &skill in &[1.0, 4.0, 9.0] {
        let counts = expected(&windows, 4.0, skill, 733.0).round_to_hits(733);
        let total: u32 = counts.iter().sum();

        assert_eq!(total, 733, "skill {skill} rounded to {total}");
    }
}

#[test]
fn counts_that_nearly_add_up_are_rounded_to_the_total() {
    // The counts miss the total by less than a note, as sums of rounded doubles do.
    let short = ExpectedCounts {
        counts: [b(0.1), b(0.2), b(0.3), b(0.1), b(0.2), b(0.1 - 1e-12)],
    };
    assert_eq!(short.round_to_hits(1).iter().sum::<u32>(), 1);
    let far = ExpectedCounts { counts: [b(2.9), b(1.9), b(0.9), b(0.0), b(0.0), b(0.0)] };
    assert_eq!(far.round_to_hits(6), [3, 2, 1, 0, 0, 0]);
    assert_eq!(far.round_to_hits(5).iter().sum::<u32>(), 5);
}

#[test]
fn the_largest_fractions_are_rounded_up() {
    let counts = ExpectedCounts {
        counts: [b(10.25), b(3.75), b(2.5), b(1.5), b(0.0), b(2.0)],
    };
    assert_eq!(counts.round_to_hits(20), [10, 4, 3, 1, 0, 2]);
    assert_eq!(counts.round_to_hits(21), [10, 4, 3, 2, 0, 2]);
    // Nothing is taken away, and no judgement gets more than one note.
    assert_eq!(counts.round_to_hits(5), [10, 3, 2, 1, 0, 2]);
    assert_eq!(counts.round_to_hits(100), [11, 4, 3, 2, 1, 3]);
    let odd = ExpectedCounts {
        counts: [b(-4.5), b(f64::NAN), b(0.5), b(-0.0), b(0.25), b(1.0)],
    };
    assert_eq!(odd.round_to_hits(2), [0, 0, 1, 0, 0, 1]);
    let endless = ExpectedCounts { counts: [b(f64::INFINITY), b(0.5), b(0.0), b(0.0), b(0.0), b(0.0)] };
    assert_eq!(endless.round_to_hits(7), [u32::MAX, 0, 0, 0, 0, 0]);
}

#[test]
fn counts_are_read_by_judgement() {
    let values = [b(1.0), b(2.0), b(3.0), b(4.0), b(5.0), b(6.0)];
    let counts = ExpectedCounts { counts: values };
    assert_eq!(counts.get(ManiaJudgement::Perfect), b(1.0));
    assert_eq!(counts.get(ManiaJudgement::Miss), b(6.0));
    assert_eq!(counts.as_array(), values);
    let probabilities = JudgementProbabilities { probabilities: values };
    assert_eq!(probabilities.get(ManiaJudgement::Okay), b(4.0));
    assert_eq!(probabilities.as_array(), values);
    assert_eq!(f(JudgementUnit::new(b(5.0)).weight), 1.0);
    assert_eq!(f(JudgementUnit::repeated(b(5.0), b(900.0)).weight), 900.0);
}

#[test]
fn the_error_model_is_the_calibrated_one() {
    let model = ErrorModel::default();
    assert_eq!(f(model.sigma_ref), 18.0);
    assert_eq!(f(model.skill_exponent), 1.7);
    assert_eq!(f(model.difficulty_floor), 0.6);
    assert_eq!(f(model.lapse_weight), 0.034);
    assert_eq!(f(model.lapse_ratio), 4.4);
    assert_eq!(f(model.slip_rate), 0.0);
}

#[test]
fn tails_have_degenerate_cases() {
    assert_eq!(tail_case(b(0.0), b(1.0)), TailCase::Everything);
    assert_eq!(tail_case(b(-3.0), b(1.0)), TailCase::Everything);
    assert_eq!(tail_case(b(f64::INFINITY), b(f64::INFINITY)), TailCase::Nothing);
    assert_eq!(tail_case(b(5.0), b(f64::INFINITY)), TailCase::Everything);
    assert_eq!(tail_case(b(5.0), b(0.0)), TailCase::Nothing);
    assert_eq!(tail_case(b(5.0), b(f64::NAN)), TailCase::Nothing);
    assert_eq!(tail_case(b(5.0), b(2.0)), TailCase::Partial);
    assert!(!positive(b(f64::NAN)) && !positive(b(-0.0)) && positive(b(5e-324)));
}

#[test]
fn bands_follow_one_another() {
    let windows = od9_windows();
    let mut lower = 0.0;
    for judgement in ManiaJudgement::all() {
        let (from, to) = windows.band(judgement);
        assert_eq!(f(from), lower);
        lower = f(to);
    }
    assert_eq!(lower, f64::INFINITY);
}

#[test]
fn the_reference_is_the_classic_set_at_od8() {
    let own = windows([1.0, 50.0, 60.0, 110.0, 120.0, 170.0]);
    assert_eq!(reference_windows(PricingReference::Own, own), own);
    let fixed = reference_windows(PricingReference::Fixed, own);
    assert_eq!(fixed, windows([16.5, 40.5, 73.5, 103.5, 127.5, 164.5]));
    assert_eq!(
        reference_windows(PricingReference::OneSided, own),
        windows([16.5, 50.0, 73.5, 110.0, 127.5, 170.0])
    );
    assert_eq!(pricing_reference(true, true), PricingReference::Fixed);
    assert_eq!(pricing_reference(false, true), PricingReference::OneSided);
    assert_eq!(pricing_reference(false, false), PricingReference::Own);
    assert!(ManiaHitWindows::default().unset_windows());
    assert!(!own.unset_windows());
}

#[test]
fn an_empty_score_has_no_windows_to_price() {
    let empty = SunnyScoreState::default();
    assert!(!has_windows_to_price(empty.total_hits(), 900, b(5.0)));
    assert!(has_windows_to_price(900, 900, b(5.0)));
    assert!(!has_windows_to_price(900, 0, b(5.0)));
    assert!(!has_windows_to_price(900, 900, b(0.0)));
    assert!(comparable_skills(b(1.0), b(2.0)));
    assert!(!comparable_skills(b(0.0), b(2.0)));
    assert!(!comparable_skills(b(1.0), b(-2.0)));
}

#[test]
fn great_windows_depend_on_the_kind_of_map() {
    assert_eq!(great_window_base(false, b(8.0)), GreatWindowBase::ByDifficulty);
    assert_eq!(great_window_base(true, b(4.5)), GreatWindowBase::Fixed { ms: 34 });
    assert_eq!(great_window_base(true, b(4.4)), GreatWindowBase::Fixed { ms: 47 });
    assert_eq!(great_window_base(true, b(10.0)), GreatWindowBase::Fixed { ms: 34 });
    assert_eq!(window_change(true, true), WindowChange::Narrowed);
    assert_eq!(window_change(false, true), WindowChange::Widened);
    assert_eq!(window_change(false, false), WindowChange::Unchanged);
}

#[test]
fn fits_are_judged_by_their_timing() {
    let quality = FitQuality {
        skill: b(1.0),
        g_statistic: b(500.0),
        g_timing: b(29.9),
        excess_misses: b(0.0),
        g_per_judgement: b(1.0),
    };
    assert!(quality.is_plausible());
    assert!(!quality.is_identifiable());
    let other = FitQuality { skill: b(1.1), g_timing: b(30.0), ..quality };
    assert!(!other.is_plausible());
    assert!(other.is_identifiable());
    let nothing = FitQuality::of_nothing(b(3.0));
    assert_eq!(f(nothing.skill), 3.0);
    assert_eq!(f(nothing.g_timing), f64::INFINITY);
    assert_eq!(f(nothing.g_statistic), f64::INFINITY);
    assert_eq!(f(nothing.g_per_judgement), f64::INFINITY);
    assert_eq!(f(nothing.excess_misses), 0.0);
    assert!(!nothing.is_plausible());
}

#[test]
fn misses_say_nothing_of_timing() {
    let counts = [5, 0, 3, 0, 0, 2];
    let all = observed(&counts);
    assert_eq!(
        all,
        vec![
            Observation { judgement: ManiaJudgement::Perfect, count: 5 },
            Observation { judgement: ManiaJudgement::Good, count: 3 },
            Observation { judgement: ManiaJudgement::Miss, count: 2 },
        ]
    );
    assert_eq!(observed_timing(&counts), all[..2].to_vec());
    assert_eq!(observed_total(&counts), 10);
    assert!(has_evidence(1, &counts));
    assert!(!has_evidence(0, &counts));
    assert!(!has_evidence(1, &[0; 6]));
}

#[test]
fn scores_have_an_accuracy() {
    let state = SunnyScoreState { n320: 10, n300: 4, n200: 3, n100: 2, n50: 1, misses: 5 };
    assert_eq!(state.total_hits(), 25);
    assert_eq!(state.counts(), [10, 4, 3, 2, 1, 5]);
    assert_eq!(custom_accuracy(state), Some((3050 + 1200 + 600 + 200 + 50, 25 * 305)));
    assert_eq!(custom_accuracy(SunnyScoreState::default()), None);
    assert!(SunnyScoreState::default().is_empty());
    assert!(!state.is_empty());
}

#[test]
fn ties_go_to_the_lowest_peak() {
    let values = list(&[-5.0, -1.0, -1.0, -0.9999999999, -3.0]);
    let raised: Vec<Binary64> = values.iter().map(|&x| b(f(x) + 1e-9)).collect();
    assert_eq!(peak_index(&values, &raised), 1);
    let flat = list(&[f64::NEG_INFINITY; 3]);
    assert_eq!(peak_index(&flat, &flat), 0);
    assert_eq!(peak_bracket(0), (0, 1));
    assert_eq!(peak_bracket(100), (99, 101));
    assert_eq!(peak_bracket(256), (255, 256));
}

#[test]
fn golden_sections_close_in_on_the_maximum() {
    const INV_PHI: f64 = 0.618_033_988_749_895;
    let evaluate = |x: f64| -(x - 2.25) * (x - 2.25);
    let (low, high) = (0.0, 5.0);
    let c = high - (high - low) * INV_PHI;
    let d = low + (high - low) * INV_PHI;
    let mut section =
        GoldenSection::new(b(low), b(high), b(c), b(d), b(evaluate(c)), b(evaluate(d)));
    while let Some(probe) = section.narrow() {
        let width = f(section.high) - f(section.low);
        let point = match probe {
            Probe::Lower => f(section.high) - width * INV_PHI,
            Probe::Upper => f(section.low) + width * INV_PHI,
        };
        section.place(probe, b(point), b(evaluate(point)));
    }
    let middle = (f(section.low) + f(section.high)) / 2.0;
    assert!((middle - 2.25).abs() < 1e-7, "{middle}");
    assert_eq!(section.steps, 100);
    let before = section;
    assert_eq!(section.narrow(), None);
    assert_eq!(section, before);
}

#[test]
fn bisections_close_in_on_the_target() {
    assert_eq!(f64::from_bits(SKILL_MIN), 1e-3);
    assert_eq!(f64::from_bits(SKILL_MAX), 1e4);
    let accuracy = |skill: f64| skill / (skill + 3.0);
    assert_eq!(accuracy_start(b(0.5), b(1.0), b(0.25)), AccuracyStart::Least);
    assert_eq!(accuracy_start(b(0.5), b(0.75), b(0.75)), AccuracyStart::Greatest);
    assert_eq!(accuracy_start(b(0.5), b(1.0), b(0.75)), AccuracyStart::Between);
    let mut bisection = Bisection::new();
    while bisection.is_due() {
        let middle = (f(bisection.low) * f(bisection.high)).sqrt();
        bisection.halve(b(middle), b(accuracy(middle)), b(0.75));
    }
    assert!((f(bisection.low) - 9.0).abs() < 1e-9);
    assert_eq!(bisection.steps, 60);
}

#[test]
fn durations_fall_into_bins() {
    assert_eq!(LN_DURATION_EDGES, [45, 70, 100, 145, 210, 320, 550]);
    for (duration, bin) in
        [(1.0, 0), (44.9, 0), (45.0, 1), (99.9, 2), (100.0, 3), (549.9, 6), (550.0, 7), (1e9, 7)]
    {
        assert_eq!(ln_duration_bucket(b(duration)), bin, "{duration}");
    }
    let histogram = ln_duration_histogram(&list(&[50.0, 0.0, -3.0, 60.0, 400.0, 9000.0]));
    assert_eq!(histogram, [0, 2, 0, 0, 0, 0, 1, 1]);
    assert_eq!(modal_ln_duration_histogram(12), [0, 0, 0, 12, 0, 0, 0, 0]);
}

#[test]
fn long_notes_are_units_where_they_are_judged_as_one() {
    let buckets = [0, 2, 0, 0, 0, 0, 1, 4];
    let units = held_units(true, 7, 20, false, &buckets);
    assert_eq!(
        units,
        vec![
            HeldUnit { duration: 56, count: 2 },
            HeldUnit { duration: 419, count: 1 },
            HeldUnit { duration: 900, count: 4 },
        ]
    );
    assert!(held_units(false, 7, 20, false, &buckets).is_empty());
    assert!(held_units(true, 0, 20, false, &buckets).is_empty());
    assert!(held_units(true, 7, 0, false, &buckets).is_empty());
    assert!(held_units(true, 7, 20, true, &buckets).is_empty());
}

#[test]
fn gaps_are_tallied() {
    assert_eq!(gaps(&vec![5, 7, 7, 1]), Some(vec![2, 0, -6]));
    assert_eq!(gaps(&vec![i64::MIN, i64::MAX]), None);
    assert_eq!(gaps(&Vec::new()), Some(Vec::new()));
    assert_eq!(value_counts(&vec![3, -1, 3, 3, 0]), vec![(-1, 1), (0, 1), (3, 3)]);

    let note = |column: usize, head: f64, tail: Option<f64>| Note {
        column,
        head: b(head),
        tail: tail.map(b),
    };
    let notes = vec![
        note(0, 100.9, None),
        note(1, 200.2, Some(350.7)),
        note(0, 300.0, Some(300.5)),
        note(1, 400.0, None),
    ];
    let counts = gap_counts(&RebirthData::new(&notes, 2)).unwrap();
    assert_eq!(counts.heads, vec![(100, 3)]);
    // Tails in order: -1, -1, 300, 350.
    assert_eq!(counts.tails, vec![(0, 1), (50, 1), (301, 1)]);
    assert_eq!(counts.columns, vec![(200, 2)]);
}
