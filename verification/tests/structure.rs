use rosu_mania::binary64::Binary64;
use rosu_mania::interpolate::{
    area_cell, body_span, changes_by_point, interp_cells, step_interp, AreaCell, BodySpan,
    InterpCell,
};
use rosu_mania::notes::{find_next_note_in_column, notes_in_pair, Note, RebirthData};
use rosu_mania::objects::{
    build_notes, column_count, column_for, combo_fits, prepare, TimedObject,
};
use rosu_mania::order::{stable_order, SortKey};
use rosu_mania::plan::{effective_density, has_difficulty, plan_curves};
use rosu_mania::ranking::{
    average_window, corner_indices, has_tail_gaps, percentile_indices, ranked_nonzero, sorted,
};
use rosu_mania::segments::{paint, segments, Segment};
use rosu_mania::strain::{
    awkward_band, awkward_pairs, release_plan, stream_steps, AwkwardBand, StreamStep,
};
use rosu_mania::timeline::{get_corners, sort_corners, CornerSets, Timeline};
use rosu_mania::usage::{
    active_columns, active_columns_contains, compute_density_and_keys, get_key_usage, hit_times,
    hit_times_v2, key_reach, KeyReach, KeySpan,
};

fn b(x: f64) -> Binary64 {
    Binary64::from_bits(x.to_bits())
}

fn f(x: Binary64) -> f64 {
    f64::from_bits(x.bits)
}

fn list(values: &[f64]) -> Vec<Binary64> {
    values.iter().map(|&x| b(x)).collect()
}

fn floats(values: &[Binary64]) -> Vec<f64> {
    values.iter().map(|&x| f(x)).collect()
}

fn line(values: &[f64]) -> Timeline {
    Timeline::from_sorted(list(values)).unwrap()
}

fn note(column: usize, head: f64, tail: Option<f64>) -> Note {
    Note { column, head: b(head), tail: tail.map(b) }
}

#[test]
fn sorting_is_stable() {
    let keys: Vec<SortKey> = [(3, 1), (1, 2), (3, 0), (1, 2), (-5, 9), (3, 1)]
        .iter()
        .map(|&(major, minor)| SortKey { major, minor })
        .collect();
    assert_eq!(stable_order(&keys), vec![4, 1, 3, 2, 0, 5]);
    assert_eq!(stable_order(&Vec::new()), Vec::<usize>::new());
}

#[test]
fn corners_are_sorted_without_repetition_inside_the_map() {
    let corners = sort_corners(
        &list(&[5.0, -1.0, 3.0, 5.0, f64::NAN, 11.0, 0.0, 10.0, f64::INFINITY]),
        b(10.0),
    );
    assert_eq!(floats(&corners.to_vec()), vec![0.0, 3.0, 5.0, 10.0]);
    assert_eq!(corners.len(), 4);
    assert_eq!(f(corners.get(2)), 5.0);

    // The two zeros are different corners.
    let zeros = sort_corners(&list(&[0.0, -0.0]), b(1.0));
    assert_eq!(zeros.to_vec(), list(&[-0.0, 0.0]));
}

#[test]
fn all_corners_are_those_of_both_curves() {
    let sets = get_corners(&list(&[2.0, 0.0, 9.0]), &list(&[0.0, 4.0, 20.0, 9.0]), b(9.0));
    assert_eq!(floats(&sets.base.to_vec()), vec![0.0, 2.0, 9.0]);
    assert_eq!(floats(&sets.awkwardness.to_vec()), vec![0.0, 4.0, 9.0]);
    assert_eq!(floats(&sets.all.to_vec()), vec![0.0, 2.0, 4.0, 9.0]);
}

#[test]
fn bounds_agree_with_partition_point() {
    let values = [0.0, 1.0, 1.0, 2.5, 2.5, 2.5, 7.0];
    let timeline = line(&values);
    for x in [-1.0, 0.0, 0.5, 1.0, 2.0, 2.5, 6.9, 7.0, 8.0, f64::NAN] {
        assert_eq!(timeline.lower_bound(b(x)), values.partition_point(|&v| v < x), "{x}");
        assert_eq!(timeline.upper_bound(b(x)), values.partition_point(|&v| v <= x), "{x}");
    }
    assert_eq!(timeline.lower_or_last(b(8.0)), 6);
    assert_eq!(timeline.lower_or_last(b(1.0)), 1);
    assert!(Timeline::from_sorted(list(&[1.0, 0.5])).is_none());
    assert!(Timeline::from_sorted(list(&[f64::NAN])).is_none());
    assert_eq!(Timeline::from_sorted(Vec::new()).unwrap().len(), 0);
}

fn sample_data() -> RebirthData {
    let notes = vec![
        note(1, 300.0, None),
        note(0, 100.0, Some(400.0)),
        note(2, 100.0, Some(250.0)),
        note(0, 500.0, None),
        note(1, 100.0, Some(400.0)),
        note(2, 900.0, None),
    ];
    RebirthData::new(&notes, 3)
}

#[test]
fn notes_are_sorted_and_split_up() {
    let data = sample_data();
    let order: Vec<(f64, usize)> = data.notes.iter().map(|n| (f(n.head), n.column)).collect();
    assert_eq!(
        order,
        vec![(100.0, 0), (100.0, 1), (100.0, 2), (300.0, 1), (500.0, 0), (900.0, 2)]
    );
    assert_eq!(data.notes_by_column.len(), 3);
    assert_eq!(data.notes_by_column[0].len(), 2);
    assert_eq!(data.notes_by_column[1], vec![note(1, 100.0, Some(400.0)), note(1, 300.0, None)]);
    let long: Vec<usize> = data.long_notes.iter().map(|n| n.column).collect();
    assert_eq!(long, vec![0, 1, 2]);
    let tails: Vec<usize> = data.tails.iter().map(|n| n.column).collect();
    assert_eq!(tails, vec![2, 0, 1]);
    assert_eq!(f(data.last_time), 900.0);
    assert_eq!(f(RebirthData::new(&Vec::new(), 1).last_time), 0.0);
}

#[test]
fn pairs_join_neighbouring_columns() {
    let data = sample_data();
    assert_eq!(notes_in_pair(&data, 0), data.notes_by_column[0]);
    assert_eq!(notes_in_pair(&data, 3), data.notes_by_column[2]);
    let middle: Vec<(f64, usize)> =
        notes_in_pair(&data, 1).iter().map(|n| (f(n.head), n.column)).collect();
    assert_eq!(middle, vec![(100.0, 0), (100.0, 1), (300.0, 1), (500.0, 0)]);
}

#[test]
fn the_next_note_of_a_column_is_found() {
    let data = sample_data();
    let column = &data.notes_by_column[0];
    assert_eq!(find_next_note_in_column(column[0], column), Some(column[1]));
    assert_eq!(find_next_note_in_column(column[1], column), None);
}

#[test]
fn columns_follow_positions() {
    assert_eq!(column_for(b(0.99), 4), 0);
    assert_eq!(column_for(b(1.0), 4), 1);
    assert_eq!(column_for(b(3.5), 4), 3);
    assert_eq!(column_for(b(77.0), 4), 3);
    assert_eq!(column_for(b(-2.0), 4), 0);
    assert_eq!(column_for(b(f64::NAN), 4), 3);
    assert_eq!(column_count(b(4.0)), 4);
    assert_eq!(column_count(b(4.5)), 4);
    assert_eq!(column_count(b(5.5)), 6);
    assert_eq!(column_count(b(0.2)), 1);
    assert_eq!(column_count(b(-3.0)), 1);
}

fn object(position: f64, head: f64, hold: Option<f64>) -> TimedObject {
    let end = head + hold.unwrap_or(0.0);
    TimedObject {
        position: b(position),
        head: b(head),
        end: b(end),
        tail_after: b(head + 1e-7),
        hold: hold.map(b),
    }
}

#[test]
fn holds_give_combo_as_they_last() {
    let objects = vec![
        object(0.5, 100.0, None),
        object(1.5, 200.0, Some(99.9)),
        object(2.5, 300.0, Some(100.0)),
        object(3.5, 400.0, Some(1234.5)),
        object(0.5, 500.0, Some(0.0)),
    ];
    let (notes, combo) = build_notes(&objects, None, 4);
    assert_eq!(combo, 1 + 1 + 2 + 13 + 1);
    assert_eq!(notes.len(), 5);
    assert_eq!(notes[0].tail, None);
    assert_eq!(notes[3], note(3, 400.0, Some(1634.5)));
    assert_eq!(notes[4].tail, None);
    let (passed, combo) = build_notes(&objects, Some(2), 4);
    assert_eq!((passed.len(), combo), (2, 2));
}

#[test]
fn two_notes_make_a_map() {
    let objects = vec![object(0.5, 100.0, None), object(1.5, 200.0, Some(300.0))];
    let map = prepare(&objects, None, 4).unwrap();
    assert_eq!(map.max_combo, 5);
    assert_eq!(map.data.notes.len(), 2);
    assert!(prepare(&objects, Some(1), 4).is_none());
    assert!(prepare(&objects, None, 0).is_none());
    assert!(combo_fits(&objects, None));
    let endless = vec![object(0.5, 100.0, Some(1e18)), object(0.5, 100.0, None)];
    assert!(!combo_fits(&endless, None));
    assert!(combo_fits(&endless, Some(0)));
}

#[test]
fn segments_hold_the_corners_between_times() {
    let corners = line(&[0.0, 10.0, 20.0, 30.0, 40.0]);
    let found = segments(&list(&[0.0, 15.0, 15.0, 18.0, 35.0]), &corners);
    let spans: Vec<(usize, usize, usize)> =
        found.iter().map(|s| (s.index, s.left, s.right)).collect();
    assert_eq!(spans, vec![(0, 0, 2), (3, 2, 4)]);
    assert_eq!(f(found[1].start), 18.0);
    assert_eq!(f(found[1].end), 35.0);
    let row = paint(5, &found, &list(&[7.0, 9.0]), b(1.0));
    assert_eq!(floats(&row), vec![7.0, 7.0, 9.0, 9.0, 1.0]);
    assert!(segments(&list(&[3.0]), &corners).is_empty());
}

#[test]
fn later_segments_paint_over_earlier_ones() {
    let zero = b(0.0);
    let a = Segment { index: 0, start: zero, end: zero, left: 0, right: 3 };
    let c = Segment { index: 1, start: zero, end: zero, left: 2, right: 4 };
    let row = paint(4, &vec![a, c], &list(&[5.0, 6.0]), b(0.0));
    assert_eq!(floats(&row), vec![5.0, 5.0, 6.0, 6.0]);
}

fn spans() -> Vec<KeySpan> {
    vec![
        KeySpan { column: 0, start: b(0.0), end: b(25.0) },
        KeySpan { column: 2, start: b(10.0), end: b(20.0) },
        KeySpan { column: 2, start: b(40.0), end: b(50.0) },
        KeySpan { column: 9, start: b(0.0), end: b(50.0) },
    ]
}

#[test]
fn keys_are_in_use_around_their_notes() {
    let corners = line(&[0.0, 10.0, 20.0, 30.0, 40.0]);
    let usage = get_key_usage(&spans(), &corners, 3);
    assert_eq!(usage[0], vec![true, true, true, false, false]);
    assert_eq!(usage[1], vec![false; 5]);
    assert_eq!(usage[2], vec![false, true, false, false, true]);
    let active = active_columns(&usage, 5);
    assert_eq!(active, vec![vec![0], vec![0, 2], vec![0], vec![], vec![2]]);
    assert!(active_columns_contains(&active, 1, 2));
    assert!(!active_columns_contains(&active, 1, 1));
    assert!(!active_columns_contains(&active, 1, -1));
    assert_eq!(
        key_reach(&corners, b(-5.0), b(5.0), b(25.0), b(100.0)),
        KeyReach { approach: 0, left: 1, right: 3, decay: 5 }
    );
}

#[test]
fn densities_count_hits_and_releases() {
    let data = sample_data();
    let hits = hit_times(&data);
    let hits_v2 = hit_times_v2(&data);
    assert_eq!(floats(&hits.to_vec()), vec![100.0, 100.0, 100.0, 300.0, 500.0, 900.0]);
    assert_eq!(
        floats(&hits_v2.to_vec()),
        vec![100.0, 100.0, 100.0, 250.0, 300.0, 400.0, 400.0, 500.0, 900.0]
    );
    let corners = line(&[0.0, 10.0, 20.0, 30.0, 40.0]);
    let usage = get_key_usage(&spans(), &corners, 3);
    let lows = list(&[0.0, 100.0, 250.0, 500.0, 901.0]);
    let highs = list(&[100.0, 101.0, 500.0, 1000.0, 902.0]);
    let counts = compute_density_and_keys(&hits, &hits_v2, &usage, &lows, &highs);
    assert_eq!(counts.density, vec![0, 3, 1, 2, 0]);
    assert_eq!(counts.density_v2, vec![0, 3, 4, 2, 0]);
    assert_eq!(counts.keys, vec![1, 2, 1, 1, 1]);
    assert_eq!(effective_density(true, &counts), &counts.density);
    assert_eq!(effective_density(false, &counts), &counts.density_v2);
}

#[test]
fn streams_tell_chords_from_runs() {
    let corners = line(&[0.0, 10.0, 20.0, 30.0]);
    let heads = list(&[10.0, 10.0, 25.0, 26.0]);
    let gaps = list(&[0.0, 15.0, 1.0]);
    let steps = stream_steps(&heads, &gaps, &corners);
    assert_eq!(steps.len(), 2);
    assert_eq!(steps[0], StreamStep::Chord { left: 1, right: 2 });
    match steps[1] {
        StreamStep::Run { segment } => {
            assert_eq!((segment.index, segment.left, segment.right), (1, 1, 3));
        }
        StreamStep::Chord { .. } => panic!("a run was expected"),
    }
}

#[test]
fn releases_look_for_the_next_note() {
    let data = sample_data();
    let corners = line(&[0.0, 300.0, 600.0]);
    let plan = release_plan(&data, &corners);
    let next: Vec<Option<f64>> = plan.next_heads.iter().map(|n| n.map(f)).collect();
    assert_eq!(next, vec![Some(900.0), Some(500.0), Some(300.0)]);
    assert_eq!(plan.segments.len(), 1);
    assert_eq!((plan.segments[0].left, plan.segments[0].right), (1, 2));
}

#[test]
fn awkward_pairs_are_neighbours_in_use() {
    assert_eq!(awkward_pairs(&vec![0, 2, 3], 4), vec![(0, 2), (2, 3)]);
    assert_eq!(awkward_pairs(&vec![1], 4), vec![]);
    assert_eq!(awkward_pairs(&vec![3, 4], 4), vec![]);
    assert_eq!(awkward_band(b(0.01)), AwkwardBand::Close);
    assert_eq!(awkward_band(b(0.02)), AwkwardBand::Near);
    assert_eq!(awkward_band(b(0.07)), AwkwardBand::Apart);
    assert_eq!(awkward_band(b(f64::NAN)), AwkwardBand::Apart);
}

#[test]
fn cells_say_how_values_follow() {
    let old = line(&[0.0, 10.0, 20.0]);
    let cells = interp_cells(&line(&[-5.0, 0.0, 4.0, 10.0, 15.0, 20.0, 30.0]), &old);
    assert_eq!(
        cells,
        vec![
            InterpCell::At { index: 0 },
            InterpCell::At { index: 0 },
            InterpCell::Between { left: 0 },
            InterpCell::Between { left: 0 },
            InterpCell::Between { left: 1 },
            InterpCell::At { index: 2 },
            InterpCell::At { index: 2 },
        ]
    );
    assert_eq!(interp_cells(&line(&[1.0]), &line(&[])), vec![InterpCell::Nowhere]);
    // Between the two zeros there is no width to divide by.
    assert_eq!(
        interp_cells(&line(&[5.0]), &line(&[-0.0, 0.0, 5.0])),
        vec![InterpCell::At { index: 2 }]
    );
    let steps = step_interp(
        &line(&[-5.0, 0.0, 4.0, 10.0, 15.0, 30.0]),
        &old,
        &list(&[1.0, 2.0, 3.0]),
    );
    assert_eq!(floats(&steps), vec![1.0, 1.0, 1.0, 2.0, 2.0, 3.0]);
    assert_eq!(floats(&step_interp(&line(&[1.0]), &old, &Vec::new())), vec![0.0]);
}

#[test]
fn areas_are_found_by_cell() {
    let x = line(&[0.0, 10.0, 20.0]);
    assert_eq!(area_cell(b(-1.0), &x), AreaCell::Before);
    assert_eq!(area_cell(b(0.0), &x), AreaCell::Before);
    assert_eq!(area_cell(b(10.0), &x), AreaCell::Within { index: 0 });
    assert_eq!(area_cell(b(11.0), &x), AreaCell::Within { index: 1 });
    assert_eq!(area_cell(b(20.0), &x), AreaCell::After);
    assert_eq!(area_cell(b(1.0), &line(&[])), AreaCell::Before);
}

#[test]
fn bodies_are_summed_step_by_step() {
    let points = line(&[0.0, 10.0, 20.0, 30.0]);
    assert_eq!(body_span(&points, 3, b(5.0), b(5.0)), BodySpan::Empty);
    assert_eq!(body_span(&points, 0, b(1.0), b(5.0)), BodySpan::Empty);
    assert_eq!(body_span(&points, 3, b(40.0), b(50.0)), BodySpan::Empty);
    assert_eq!(
        body_span(&points, 3, b(11.0), b(19.0)),
        BodySpan::Within { index: 1, a: b(11.0), b: b(19.0) }
    );
    assert_eq!(
        body_span(&points, 3, b(-4.0), b(99.0)),
        BodySpan::Across { first: 0, last: 2, a: b(0.0), b: b(30.0) }
    );
    let changes = changes_by_point(&points, &list(&[10.0, 0.0, 10.0, 30.0, 11.0]));
    assert_eq!(changes, vec![vec![1], vec![0, 2], vec![]]);
}

#[test]
fn values_are_ranked() {
    assert_eq!(floats(&sorted(&list(&[3.0, -1.0, 2.0]))), vec![-1.0, 2.0, 3.0]);
    assert_eq!(
        floats(&ranked_nonzero(&list(&[0.0, 2.0, -0.0, 5.0, 3.0]))),
        vec![5.0, 3.0, 2.0]
    );
}

#[test]
fn percentiles_are_read_at_the_first_share_that_reaches_them() {
    let shares = list(&[0.5, 0.82, 0.84, 0.92, 0.94, 1.0]);
    assert_eq!(percentile_indices(&shares), vec![5, 4, 4, 3, 3, 2, 2, 1]);
    assert_eq!(percentile_indices(&list(&[0.1])), vec![0; 8]);
    // Shares of an endless weight: nothing, then no number.
    assert_eq!(percentile_indices(&list(&[0.0, 0.0, f64::NAN, f64::NAN])), vec![2; 8]);
    assert_eq!(percentile_indices(&list(&[f64::NAN; 3])), vec![0; 8]);
}

#[test]
fn averages_reach_fifty_gaps_to_either_side() {
    assert_eq!(average_window(0, 10), (0, 9));
    assert_eq!(average_window(60, 200), (10, 110));
    assert_eq!(average_window(190, 200), (140, 199));
    assert_eq!(average_window(49, 100), (0, 99));
}

#[test]
fn tail_gaps_need_two_different_tails() {
    assert!(!has_tail_gaps(&list(&[1.0])));
    assert!(!has_tail_gaps(&list(&[1.0, 1.0])));
    assert!(has_tail_gaps(&list(&[1.0, 1.0, 2.0])));
    let corners = line(&[0.0, 10.0, 20.0]);
    assert_eq!(corner_indices(&list(&[0.0, 5.0, 10.0, 99.0]), &corners), vec![0, 1, 1]);
    assert!(corner_indices(&Vec::new(), &corners).is_empty());
}

#[test]
fn a_difficulty_needs_corners_and_weight() {
    assert!(has_difficulty(2, b(0.1)));
    assert!(!has_difficulty(1, b(0.1)));
    assert!(!has_difficulty(2, b(0.0)));
    assert!(has_difficulty(2, b(f64::NAN)));
}

#[test]
fn curves_are_planned_together() {
    let data = sample_data();
    let corners = CornerSets {
        all: line(&[0.0, 100.0, 200.0, 300.0, 600.0]),
        base: line(&[0.0, 100.0, 300.0, 600.0]),
        awkwardness: line(&[0.0, 200.0, 600.0]),
    };
    let spans = vec![
        KeySpan { column: 0, start: b(0.0), end: b(301.0) },
        KeySpan { column: 1, start: b(0.0), end: b(150.0) },
    ];
    let plan = plan_curves(&data, &corners, &spans);
    assert_eq!(plan.active, vec![vec![0, 1], vec![0, 1], vec![0], vec![]]);
    assert_eq!(plan.jacks.len(), 3);
    assert_eq!(plan.jacks[0].len(), 1);
    assert_eq!((plan.jacks[0][0].left, plan.jacks[0][0].right), (1, 3));
    assert_eq!(plan.crosses.len(), 4);
    // The outermost gaps have a column on one side only.
    assert!(plan.crosses[0].iter().all(|cross| cross.damped));
    assert!(plan.crosses[3].iter().all(|cross| cross.damped));
    assert!(!plan.crosses[1][0].damped);
    assert_eq!(plan.awkward.len(), 3);
    assert_eq!(plan.awkward[0], (0, vec![(0, 1)]));
    assert_eq!(plan.awkward[1], (2, vec![]));
    assert_eq!(plan.awkward[2], (3, vec![]));
    assert_eq!(plan.base_cells[2], InterpCell::Between { left: 1 });
    assert_eq!(plan.awkward_cells[1], InterpCell::Between { left: 0 });
}

#[test]
fn times_that_are_no_numbers_are_no_hits() {
    let notes = vec![
        note(0, f64::NAN, None),
        note(0, 300.0, Some(400.0)),
        note(1, -f64::NAN, None),
        note(1, 100.0, Some(f64::NAN)),
    ];
    let data = RebirthData::new(&notes, 2);
    assert_eq!(floats(&hit_times(&data).to_vec()), vec![100.0, 300.0]);
    assert_eq!(floats(&hit_times_v2(&data).to_vec()), vec![100.0, 300.0, 400.0]);
}
