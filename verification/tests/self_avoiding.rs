use lattice_walk::self_avoiding::{lattice_self_avoiding, Probe, SelfAvoidingWalk};
use lattice_walk::visited::VisitedCells;
use std::collections::HashSet;

#[test]
fn an_empty_set_holds_no_cell() {
    let cells = VisitedCells::new();
    assert!(!cells.contains((0, 0)));
    assert!(!cells.contains((1, -1)));
    assert!(!cells.contains((i64::MIN, i64::MAX)));
}

#[test]
fn a_cell_is_found_once_it_is_inserted() {
    let mut cells = VisitedCells::new();
    assert!(cells.insert((2, -3)));
    assert!(cells.contains((2, -3)));
    assert!(!cells.contains((-3, 2)));
    assert!(!cells.contains((2, 3)));
    assert!(!cells.contains((-2, -3)));
    assert!(!cells.insert((2, -3)));
    assert!(cells.contains((2, -3)));
}

#[test]
fn cells_with_swapped_or_shifted_coordinates_are_kept_apart() {
    let mut cells = VisitedCells::new();
    assert!(cells.insert((0, 1)));
    assert!(!cells.contains((1, 0)));
    assert!(cells.insert((1, 0)));
    assert!(cells.insert((0, -1)));
    assert!(cells.insert((-1, 0)));
    assert!(!cells.contains((0, 0)));
    assert!(!cells.contains((-1, -1)));
    assert!(cells.insert((0, i64::MIN)));
    assert!(!cells.contains((-1, i64::MAX)));
    assert!(!cells.contains((1, i64::MIN)));
    assert!(cells.insert((-1, i64::MAX)));
    assert!(cells.insert((i64::MAX, i64::MAX)));
    assert!(cells.insert((i64::MIN, i64::MIN)));
    assert!(!cells.contains((i64::MIN, i64::MAX)));
    assert!(!cells.contains((i64::MAX, i64::MIN)));
    assert!(cells.contains((i64::MIN, i64::MIN)));
    assert!(cells.contains((i64::MAX, i64::MAX)));
}

#[test]
fn a_new_self_avoiding_walk_stands_at_the_origin() {
    let walk = SelfAvoidingWalk::new();
    assert_eq!(walk.steps(), 0);
    assert_eq!(walk.position().0, [0, 0]);
    assert!(!walk.is_over());
}

#[test]
fn the_first_step_always_succeeds() {
    for draw in 0..16usize {
        let mut walk = SelfAvoidingWalk::new();
        assert_eq!(walk.offer(draw), Probe::Moved);
        assert_eq!(walk.steps(), 1);
        assert_eq!(walk.position().len_squared(), 1);
    }
}

#[test]
fn the_walk_may_not_step_back_onto_the_origin() {
    let mut walk = SelfAvoidingWalk::new();
    assert_eq!(walk.offer(0), Probe::Moved);
    assert_eq!(walk.position().0, [1, 0]);
    assert_eq!(walk.offer(2), Probe::Blocked);
    assert_eq!(walk.position().0, [1, 0]);
    assert_eq!(walk.steps(), 1);
    assert!(!walk.is_over());
}

#[test]
fn a_struck_out_direction_is_not_tried_again() {
    let mut walk = SelfAvoidingWalk::new();
    assert_eq!(walk.offer(0), Probe::Moved);
    assert_eq!(walk.offer(2), Probe::Blocked);
    assert_eq!(walk.offer(2), Probe::Moved);
    assert_eq!(walk.position().0, [1, -1]);
    assert_eq!(walk.steps(), 2);
}

#[test]
fn the_shortest_trap_closes_after_seven_steps() {
    let mut walk = SelfAvoidingWalk::new();
    let route = [1usize, 0, 0, 3, 3, 2, 1];
    let cells = [[0, 1], [1, 1], [2, 1], [2, 0], [2, -1], [1, -1], [1, 0]];
    for (draw, cell) in route.iter().zip(cells.iter()) {
        assert_eq!(walk.offer(*draw), Probe::Moved);
        assert_eq!(walk.position().0, *cell);
    }
    assert_eq!(walk.steps(), 7);
    assert!(!walk.is_over());
    assert_eq!(walk.offer(0), Probe::Blocked);
    assert_eq!(walk.offer(0), Probe::Blocked);
    assert_eq!(walk.offer(1), Probe::Blocked);
    assert!(!walk.is_over());
    assert_eq!(walk.offer(5), Probe::Trapped);
    assert!(walk.is_over());
    assert_eq!(walk.steps(), 7);
    assert_eq!(walk.position().0, [1, 0]);
}

#[test]
fn a_trapped_walk_stays_as_it_is() {
    let mut walk = SelfAvoidingWalk::new();
    for draw in [1usize, 0, 0, 3, 3, 2, 1, 0, 0, 0, 0] {
        walk.offer(draw);
    }
    assert!(walk.is_over());
    for draw in 0..9usize {
        assert_eq!(walk.offer(draw), Probe::Trapped);
        assert_eq!(walk.steps(), 7);
        assert_eq!(walk.position().0, [1, 0]);
    }
}

#[test]
fn the_spiral_trap_closes_after_eight_steps() {
    let mut walk = SelfAvoidingWalk::new();
    for draw in [1usize, 1, 0, 0, 3, 3, 2, 1] {
        assert_eq!(walk.offer(draw), Probe::Moved);
    }
    assert_eq!(walk.position().0, [1, 1]);
    assert_eq!(walk.offer(3), Probe::Blocked);
    assert_eq!(walk.offer(2), Probe::Blocked);
    assert_eq!(walk.offer(1), Probe::Blocked);
    assert_eq!(walk.offer(0), Probe::Trapped);
    assert_eq!(walk.steps(), 8);
}

#[test]
fn no_cell_is_visited_twice() {
    let mut state: u64 = 0x9e37_79b9_7f4a_7c15;
    for _ in 0..200 {
        let mut walk = SelfAvoidingWalk::new();
        let mut seen: HashSet<[i64; 2]> = HashSet::new();
        assert!(seen.insert(walk.position().0));
        while !walk.is_over() {
            state = state.wrapping_mul(6364136223846793005).wrapping_add(1442695040888963407);
            let before = walk.position().0;
            let steps = walk.steps();
            match walk.offer((state >> 33) as usize) {
                Probe::Moved => {
                    let here = walk.position().0;
                    assert!(seen.insert(here));
                    assert_eq!((here[0] - before[0]).abs() + (here[1] - before[1]).abs(), 1);
                    assert_eq!(walk.steps(), steps + 1);
                }
                Probe::Blocked | Probe::Trapped => {
                    assert_eq!(walk.position().0, before);
                    assert_eq!(walk.steps(), steps);
                }
            }
        }
        assert_eq!(seen.len(), walk.steps() + 1);
        let here = walk.position().0;
        for step in [[1, 0], [0, 1], [-1, 0], [0, -1]] {
            assert!(seen.contains(&[here[0] + step[0], here[1] + step[1]]));
        }
        assert!(walk.steps() >= 7);
    }
}

#[test]
fn a_walk_that_may_take_no_step_is_given_up() {
    assert_eq!(lattice_self_avoiding(0), None);
}

#[test]
fn a_walk_cut_short_of_seven_steps_is_given_up() {
    for max_steps in 0..=7usize {
        for _ in 0..50 {
            assert_eq!(lattice_self_avoiding(max_steps), None);
        }
    }
}

#[test]
fn a_trapped_walk_has_taken_at_least_seven_steps() {
    for _ in 0..500 {
        let steps = lattice_self_avoiding(1_000_000).expect("walks this long are not seen");
        assert!(steps >= 7);
        assert!(steps < 1_000_000);
    }
}

#[test]
fn a_walk_is_trapped_within_its_limit_or_given_up() {
    for _ in 0..500 {
        match lattice_self_avoiding(20) {
            Some(steps) => assert!((7..20).contains(&steps)),
            None => {}
        }
    }
}
