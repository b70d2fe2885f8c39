use lattice_walk::rows::order_by_steps;
use lattice_walk::sampling::{
    sample_self_avoiding, sample_with_returns, sample_without_returns, sweep, sweep_steps,
    total_steps, SAMPLE_SIZE, SWEEP_LENGTH,
};
use lattice_walk::vector::Vector;

fn mean_distance(ends: &[Vector<2>]) -> f64 {
    let sum: f64 = ends.iter().map(|end| (end.len_squared() as f64).sqrt()).sum();
    sum / ends.len() as f64
}

#[test]
fn the_sweep_runs_from_ten_to_nine_hundred_and_ninety() {
    let configs = sweep(SWEEP_LENGTH);
    assert_eq!(configs.len(), 50);
    assert_eq!(configs[0], 10);
    assert_eq!(configs[1], 30);
    assert_eq!(configs[2], 50);
    assert_eq!(configs[49], 990);
    for (index, steps) in configs.iter().enumerate() {
        assert_eq!(*steps, (index + 1) * 20 - 10);
    }
    for pair in configs.windows(2) {
        assert!(pair[0] < pair[1]);
    }
}

#[test]
fn sweep_steps_follows_the_formula() {
    assert_eq!(sweep_steps(0), 10);
    assert_eq!(sweep_steps(1), 30);
    assert_eq!(sweep_steps(24), 490);
    assert_eq!(sweep_steps(49), 990);
    assert_eq!(sweep_steps(1000), 20_010);
}

#[test]
fn an_empty_sweep_has_no_step_count() {
    assert_eq!(sweep(0), Vec::<usize>::new());
    assert_eq!(sweep(1), vec![10]);
}

#[test]
fn the_sample_size_is_one_hundred_thousand() {
    assert_eq!(SAMPLE_SIZE, 100_000);
    assert_eq!(SWEEP_LENGTH, 50);
}

#[test]
fn one_sample_of_no_steps_has_mean_zero() {
    let simple = sample_with_returns(0, 1);
    assert_eq!(simple.len(), 1);
    assert_eq!(mean_distance(&simple), 0.0);
    let non_reversing = sample_without_returns(0, 1, 0).expect("no step, no draw");
    assert_eq!(non_reversing.len(), 1);
    assert_eq!(mean_distance(&non_reversing), 0.0);
}

#[test]
fn every_sample_is_a_walk_of_the_given_length() {
    let ends = sample_with_returns(15, 300);
    assert_eq!(ends.len(), 300);
    for end in &ends {
        assert_eq!(end.len_squared() % 2, 1);
        assert!(end[0].abs() + end[1].abs() <= 15);
    }
    let ends = sample_without_returns(16, 300, usize::MAX).expect("redraws are not limited");
    assert_eq!(ends.len(), 300);
    for end in &ends {
        assert_eq!(end.len_squared() % 2, 0);
        assert!(end[0].abs() + end[1].abs() <= 16);
    }
}

#[test]
fn no_samples_give_an_empty_list() {
    assert_eq!(sample_with_returns(10, 0).len(), 0);
    assert_eq!(sample_without_returns(10, 0, 0).expect("nothing to draw").len(), 0);
    assert_eq!(sample_self_avoiding(0, 0).expect("nothing to walk").len(), 0);
}

#[test]
fn the_total_is_the_sum_of_the_counts() {
    assert_eq!(total_steps(&vec![]), 0);
    assert_eq!(total_steps(&vec![7]), 7);
    assert_eq!(total_steps(&vec![7, 12, 70, 1]), 90);
    assert_eq!(total_steps(&vec![usize::MAX, usize::MAX, 2]), 2 * (usize::MAX as u128) + 2);
}

#[test]
fn self_avoiding_samples_are_trapping_lengths() {
    let counts = sample_self_avoiding(400, 1_000_000).expect("walks this long are not seen");
    assert_eq!(counts.len(), 400);
    for steps in &counts {
        assert!(*steps >= 7);
    }
    let sum: u128 = counts.iter().map(|steps| *steps as u128).sum();
    assert_eq!(total_steps(&counts), sum);
}

#[test]
fn self_avoiding_samples_cut_too_short_are_given_up() {
    assert_eq!(sample_self_avoiding(1, 0), None);
    assert_eq!(sample_self_avoiding(5, 6), None);
    assert_eq!(sample_self_avoiding(5, 7), None);
}

#[test]
fn the_mean_trapping_length_is_some_tens_of_steps() {
    let counts = sample_self_avoiding(4000, 1_000_000).expect("walks this long are not seen");
    let mean = total_steps(&counts) as f64 / counts.len() as f64;
    assert!(mean > 50.0 && mean < 100.0, "mean trapping length {}", mean);
}

#[test]
fn the_mean_distance_of_a_simple_walk_grows_as_the_root_of_its_length() {
    let ends = sample_with_returns(100, SAMPLE_SIZE);
    let mean = mean_distance(&ends);
    let expected = (std::f64::consts::PI * 100.0).sqrt() / 2.0;
    assert!((mean - expected).abs() < 0.05 * expected, "mean distance {}", mean);
}

#[test]
fn a_non_reversing_walk_gets_farther_than_a_simple_one() {
    let simple = mean_distance(&sample_with_returns(200, 4000));
    let non_reversing = mean_distance(
        &sample_without_returns(200, 4000, usize::MAX).expect("redraws are not limited"),
    );
    assert!(non_reversing > simple);
}

#[test]
fn rows_come_out_in_ascending_order_of_step_count() {
    let rows = vec![(10usize, (1.5f64, 2.5f64)), (990, (3.5, 4.5)), (30, (5.5, 6.5))];
    let ordered = order_by_steps(rows);
    assert_eq!(ordered, vec![(10, (1.5, 2.5)), (30, (5.5, 6.5)), (990, (3.5, 4.5))]);
}

#[test]
fn rows_with_one_step_count_keep_their_order() {
    let rows = vec![(3usize, 'a'), (1, 'b'), (3, 'c'), (1, 'd'), (2, 'e'), (3, 'f'), (1, 'g')];
    let ordered = order_by_steps(rows);
    assert_eq!(
        ordered,
        vec![(1, 'b'), (1, 'd'), (1, 'g'), (2, 'e'), (3, 'a'), (3, 'c'), (3, 'f')]
    );
}

#[test]
fn ordering_keeps_every_row() {
    let rows: Vec<(usize, usize)> = vec![(5, 0), (3, 1), (9, 2), (3, 3), (1, 4), (9, 5), (0, 6)];
    let ordered = order_by_steps(rows.clone());
    assert_eq!(ordered.len(), rows.len());
    for pair in ordered.windows(2) {
        assert!(pair[0].0 <= pair[1].0);
    }
    let mut expected = rows;
    expected.sort();
    let mut got = ordered;
    got.sort();
    assert_eq!(got, expected);
}

#[test]
fn ordering_an_empty_or_ordered_list_changes_nothing() {
    assert_eq!(order_by_steps(Vec::<(usize, u8)>::new()), vec![]);
    assert_eq!(order_by_steps(vec![(4usize, 'a')]), vec![(4, 'a')]);
    assert_eq!(
        order_by_steps(vec![(1usize, 'a'), (2, 'b'), (3, 'c')]),
        vec![(1, 'a'), (2, 'b'), (3, 'c')]
    );
}
