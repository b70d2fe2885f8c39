use lattice_walk::direction::{usize_to_direction, NO_DIRECTION};

#[test]
fn the_four_codes_are_the_four_unit_steps() {
    assert_eq!(usize_to_direction(0).0, [1, 0]);
    assert_eq!(usize_to_direction(1).0, [0, 1]);
    assert_eq!(usize_to_direction(2).0, [-1, 0]);
    assert_eq!(usize_to_direction(3).0, [0, -1]);
}

#[test]
fn codes_are_read_modulo_four() {
    assert_eq!(usize_to_direction(4).0, [1, 0]);
    assert_eq!(usize_to_direction(5).0, [0, 1]);
    assert_eq!(usize_to_direction(6).0, [-1, 0]);
    assert_eq!(usize_to_direction(7).0, [0, -1]);
    assert_eq!(usize_to_direction(1_000_002).0, [-1, 0]);
    assert_eq!(usize_to_direction(usize::MAX).0, [0, -1]);
}

#[test]
fn opposite_codes_give_opposite_steps() {
    for dir in 0..4usize {
        let step = usize_to_direction(dir);
        let back = usize_to_direction((dir + 2) % 4);
        assert_eq!((step + back).0, [0, 0]);
    }
}

#[test]
fn every_step_has_length_one() {
    for dir in 0..64usize {
        assert_eq!(usize_to_direction(dir).len_squared(), 1);
    }
}

#[test]
fn no_direction_is_no_direction_code() {
    assert_eq!(NO_DIRECTION, 4);
    for dir in 0..4usize {
        assert_ne!((dir + 2) % 4, NO_DIRECTION);
    }
}
