use lattice_walk::direction::NO_DIRECTION;
use lattice_walk::non_reversing::{lattice_without_returns, NonReversingWalk};

#[test]
fn a_non_reversing_walk_of_no_steps_stays_at_the_origin() {
    for _ in 0..100 {
        let end = lattice_without_returns(0, 0).expect("no step, no draw");
        assert_eq!(end.0, [0, 0]);
    }
}

#[test]
fn the_first_step_is_never_turned_down() {
    for _ in 0..200 {
        let end = lattice_without_returns(1, 0).expect("the first draw is always taken");
        assert_eq!(end.len_squared(), 1);
    }
}

#[test]
fn two_non_reversing_steps_never_lead_back_to_the_origin() {
    let mut seen = [false; 5];
    for _ in 0..2000 {
        let end = lattice_without_returns(2, usize::MAX).expect("redraws are not limited");
        let squared = end.len_squared();
        assert!(squared == 2 || squared == 4);
        seen[squared as usize] = true;
    }
    assert!(seen[2] && seen[4]);
}

#[test]
fn a_non_reversing_walk_keeps_the_parity_of_its_steps() {
    for steps in 0..40usize {
        for _ in 0..20 {
            let end = lattice_without_returns(steps, usize::MAX).expect("redraws are not limited");
            assert_eq!(end.len_squared() % 2, (steps % 2) as u128);
            assert!(end[0].abs() + end[1].abs() <= steps as i64);
        }
    }
}

#[test]
fn a_walk_without_redraws_is_given_up_at_its_first_reversal() {
    let mut given_up = 0;
    let mut finished = 0;
    for _ in 0..400 {
        match lattice_without_returns(40, 0) {
            Some(end) => {
                finished += 1;
                assert_eq!(end.len_squared() % 2, 0);
            }
            None => given_up += 1,
        }
    }
    assert_eq!(given_up + finished, 400);
    assert!(given_up > 0);
}

#[test]
fn a_new_walk_has_no_previous_direction() {
    let walk = NonReversingWalk::new();
    assert_eq!(walk.steps(), 0);
    assert_eq!(walk.previous_direction(), NO_DIRECTION);
    assert_eq!(walk.position().0, [0, 0]);
}

#[test]
fn a_reversal_is_turned_down_and_changes_nothing() {
    let mut walk = NonReversingWalk::new();
    assert!(walk.offer(0));
    assert_eq!(walk.position().0, [1, 0]);
    assert!(!walk.offer(2));
    assert_eq!(walk.position().0, [1, 0]);
    assert_eq!(walk.steps(), 1);
    assert_eq!(walk.previous_direction(), 0);
    assert!(!walk.offer(6));
    assert_eq!(walk.steps(), 1);
    assert!(walk.offer(1));
    assert_eq!(walk.position().0, [1, 1]);
    assert!(!walk.offer(3));
    assert!(walk.offer(2));
    assert_eq!(walk.position().0, [0, 1]);
    assert!(!walk.offer(0));
    assert!(walk.offer(3));
    assert_eq!(walk.position().0, [0, 0]);
    assert!(!walk.offer(1));
    assert_eq!(walk.steps(), 4);
    assert_eq!(walk.previous_direction(), 3);
}

#[test]
fn any_direction_may_open_a_walk() {
    for draw in 0..8usize {
        let mut walk = NonReversingWalk::new();
        assert!(walk.offer(draw));
        assert_eq!(walk.previous_direction(), draw % 4);
        assert_eq!(walk.steps(), 1);
    }
}

#[test]
fn going_on_straight_and_turning_aside_are_taken() {
    for first in 0..4usize {
        for second in 0..4usize {
            let mut walk = NonReversingWalk::new();
            assert!(walk.offer(first));
            let taken = walk.offer(second);
            assert_eq!(taken, (second + 2) % 4 != first);
            assert_eq!(walk.steps(), if taken { 2 } else { 1 });
        }
    }
}

#[test]
fn consecutive_directions_are_never_opposite() {
    let mut state: u64 = 0x2545_f491_4f6c_dd1d;
    let mut walk = NonReversingWalk::new();
    let mut history: Vec<usize> = Vec::new();
    for _ in 0..5000 {
        state = state.wrapping_mul(6364136223846793005).wrapping_add(1442695040888963407);
        let draw = (state >> 33) as usize;
        if walk.offer(draw) {
            history.push(draw % 4);
            assert_eq!(walk.previous_direction(), draw % 4);
        }
        assert_eq!(walk.steps(), history.len());
    }
    assert!(history.len() > 3000);
    for pair in history.windows(2) {
        assert_ne!((pair[1] + 2) % 4, pair[0]);
    }
}
