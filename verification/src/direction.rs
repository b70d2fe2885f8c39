//! The four axis-aligned unit steps and the displacement of a run of them.

use vstd::arithmetic::div_mod::lemma_mul_mod_noop;
use vstd::prelude::*;
use crate::vector::Vector;

verus! {

/// A direction code that stands for "no step taken yet": no real direction equals it.
pub const NO_DIRECTION: usize = 4;

/// The unit step that a direction code stands for. Codes are read modulo 4:
/// 0 is +x, 1 is +y, 2 is -x and 3 is -y.
pub open spec fn unit_step(dir: int) -> (int, int) {
    let d = dir % 4;
    if d == 0 {
        (1, 0)
    } else if d == 1 {
        (0, 1)
    } else if d == 2 {
        (-1, 0)
    } else {
        (0, -1)
    }
}

/// The direction that undoes a step in direction `dir`.
pub open spec fn opposite(dir: int) -> int {
    (dir + 2) % 4
}

/// The cell one step from `from` in direction `dir`.
pub open spec fn neighbour(from: (int, int), dir: int) -> (int, int) {
    (from.0 + unit_step(dir).0, from.1 + unit_step(dir).1)
}

/// The squared distance of a cell from the origin.
pub open spec fn squared_distance(cell: (int, int)) -> int {
    cell.0 * cell.0 + cell.1 * cell.1
}

/// Where a walk from the origin ends that takes the given directions in turn.
pub open spec fn displacement(dirs: Seq<usize>) -> (int, int)
    decreases dirs.len(),
{
    if dirs.len() == 0 {
        (0, 0)
    } else {
        neighbour(displacement(dirs.drop_last()), dirs.last() as int)
    }
}

/// The unit step for a direction code, reduced modulo 4.
pub fn usize_to_direction(dir: usize) -> (step: Vector<2>)
    ensures
        step.cell() == unit_step(dir as int),
{
    let pair: (i64, i64) = match dir % 4 {
        0 => (1, 0),
        1 => (0, 1),
        2 => (-1, 0),
        _ => (0, -1),
    };
    Vector::from(pair)
}

/// One more step moves the end of the walk to the neighbour in that direction.
pub proof fn lemma_displacement_push(dirs: Seq<usize>, dir: usize)
    ensures
        displacement(dirs.push(dir)) == neighbour(displacement(dirs), dir as int),
{
    assert(dirs.push(dir).drop_last() =~= dirs);
}

/// A step and the step in the opposite direction cancel.
pub proof fn lemma_opposite_cancels(dir: int)
    ensures
        unit_step(opposite(dir)).0 == -unit_step(dir).0,
        unit_step(opposite(dir)).1 == -unit_step(dir).1,
        opposite(opposite(dir)) == dir % 4,
{
}

/// A walk of `n` steps ends within `n` cells of the origin, counted along the axes.
pub proof fn lemma_displacement_within_reach(dirs: Seq<usize>)
    ensures
        -dirs.len() <= displacement(dirs).0 <= dirs.len(),
        -dirs.len() <= displacement(dirs).1 <= dirs.len(),
        -dirs.len() <= displacement(dirs).0 + displacement(dirs).1 <= dirs.len(),
        -dirs.len() <= displacement(dirs).0 - displacement(dirs).1 <= dirs.len(),
    decreases dirs.len(),
{
    if dirs.len() > 0 {
        lemma_displacement_within_reach(dirs.drop_last());
    }
}

/// Each step flips the parity of the coordinate sum, so after `n` steps it is that of `n`.
pub proof fn lemma_displacement_parity(dirs: Seq<usize>)
    ensures
        (displacement(dirs).0 + displacement(dirs).1) % 2 == dirs.len() % 2,
    decreases dirs.len(),
{
    if dirs.len() > 0 {
        lemma_displacement_parity(dirs.drop_last());
    }
}

/// A square is even exactly if its root is.
pub proof fn lemma_square_keeps_parity(x: int)
    ensures
        (x * x) % 2 == x % 2,
{
    lemma_mul_mod_noop(x, x, 2);
    if x % 2 == 0 {
        assert((x % 2) * (x % 2) == 0);
    } else {
        assert((x % 2) * (x % 2) == 1);
    }
}

/// The squared distance of a cell from the origin has the parity of its coordinate sum.
pub proof fn lemma_squared_distance_parity(cell: (int, int))
    ensures
        squared_distance(cell) % 2 == (cell.0 + cell.1) % 2,
{
    lemma_square_keeps_parity(cell.0);
    lemma_square_keeps_parity(cell.1);
}

/// The squared distance of a cell is at most the square of its distance along the axes.
pub proof fn lemma_squared_distance_within_reach(cell: (int, int), reach: int)
    requires
        -reach <= cell.0 + cell.1 <= reach,
        -reach <= cell.0 - cell.1 <= reach,
    ensures
        0 <= squared_distance(cell) <= reach * reach,
{
    let x = cell.0;
    let y = cell.1;
    assert(0 <= x * x + y * y <= reach * reach) by (nonlinear_arith)
        requires
            -reach <= x + y <= reach,
            -reach <= x - y <= reach,
    ;
}

} // verus!
