//! The simple walk: every step is drawn afresh, so the walk may turn back at once.

use vstd::prelude::*;
use crate::direction::{
    displacement, lemma_displacement_parity, lemma_displacement_push,
    lemma_displacement_within_reach, lemma_squared_distance_parity,
    lemma_squared_distance_within_reach, neighbour, squared_distance, usize_to_direction,
};
use crate::random::random_usize;
use crate::vector::Vector;

verus! {

/// Whether a simple walk of `steps` steps from the origin can end at `end`.
pub open spec fn is_simple_walk_end(steps: nat, end: (int, int)) -> bool {
    exists|dirs: Seq<usize>| dirs.len() == steps && displacement(dirs) == end
}

/// Whether a cell lies within `steps` unit steps of the origin and its
/// coordinate sum has the parity of `steps`.
pub open spec fn is_within_reach(steps: nat, end: (int, int)) -> bool {
    &&& -steps <= end.0 + end.1 <= steps
    &&& -steps <= end.0 - end.1 <= steps
    &&& (end.0 + end.1) % 2 == steps % 2
}

/// A route of `steps` steps from the origin to `end`, where `end` is within reach.
pub open spec fn route(steps: nat, end: (int, int)) -> Seq<usize>
    decreases steps,
{
    if steps == 0 {
        Seq::empty()
    } else if end.0 > 0 || (end.0 == 0 && end.1 == 0) {
        route((steps - 1) as nat, (end.0 - 1, end.1)).push(0)
    } else if end.0 < 0 {
        route((steps - 1) as nat, (end.0 + 1, end.1)).push(2)
    } else if end.1 > 0 {
        route((steps - 1) as nat, (end.0, end.1 - 1)).push(1)
    } else {
        route((steps - 1) as nat, (end.0, end.1 + 1)).push(3)
    }
}

/// A simple walk ends within reach of its steps, on a cell whose coordinate
/// sum, and whose squared distance from the origin, has the parity of the
/// number of steps.
pub proof fn lemma_simple_walk_end_is_within_reach(steps: nat, end: (int, int))
    requires
        is_simple_walk_end(steps, end),
    ensures
        is_within_reach(steps, end),
        squared_distance(end) % 2 == steps % 2,
        0 <= squared_distance(end) <= steps * steps,
{
    let dirs = choose|dirs: Seq<usize>| dirs.len() == steps && displacement(dirs) == end;
    lemma_displacement_within_reach(dirs);
    lemma_displacement_parity(dirs);
    lemma_squared_distance_parity(end);
    lemma_squared_distance_within_reach(end, steps as int);
}

/// Every cell within reach is the end of a simple walk: the route to it.
pub proof fn lemma_within_reach_is_simple_walk_end(steps: nat, end: (int, int))
    requires
        is_within_reach(steps, end),
    ensures
        route(steps, end).len() == steps,
        displacement(route(steps, end)) == end,
        is_simple_walk_end(steps, end),
    decreases steps,
{
    if steps > 0 {
        let before = (steps - 1) as nat;
        if end.0 > 0 || (end.0 == 0 && end.1 == 0) {
            lemma_within_reach_is_simple_walk_end(before, (end.0 - 1, end.1));
            lemma_displacement_push(route(before, (end.0 - 1, end.1)), 0);
        } else if end.0 < 0 {
            lemma_within_reach_is_simple_walk_end(before, (end.0 + 1, end.1));
            lemma_displacement_push(route(before, (end.0 + 1, end.1)), 2);
        } else if end.1 > 0 {
            lemma_within_reach_is_simple_walk_end(before, (end.0, end.1 - 1));
            lemma_displacement_push(route(before, (end.0, end.1 - 1)), 1);
        } else {
            lemma_within_reach_is_simple_walk_end(before, (end.0, end.1 + 1));
            lemma_displacement_push(route(before, (end.0, end.1 + 1)), 3);
        }
    }
    assert(route(steps, end).len() == steps && displacement(route(steps, end)) == end);
}

/// Moves `pos` one step in the direction that `draw` stands for.
pub fn step_with_returns(pos: Vector<2>, draw: usize) -> (next: Vector<2>)
    requires
        i64::MIN < pos.cell().0 < i64::MAX,
        i64::MIN < pos.cell().1 < i64::MAX,
    ensures
        next.cell() == neighbour(pos.cell(), draw as int),
{
    let step = usize_to_direction(draw);
    pos + step
}

/// Walks `steps` steps from the origin, each in a freshly drawn direction, and
/// returns the cell where the walk ends.
pub fn lattice_with_returns(steps: usize) -> (end: Vector<2>)
    requires
        steps <= i64::MAX,
    ensures
        is_simple_walk_end(steps as nat, end.cell()),
        squared_distance(end.cell()) % 2 == steps % 2,
        steps == 0 ==> end.cell() == (0int, 0int),
{
    let mut pos = Vector::new([0, 0]);
    let ghost mut dirs: Seq<usize> = Seq::empty();
    let mut taken: usize = 0;
    while taken < steps
        invariant
            taken <= steps <= i64::MAX,
            dirs.len() == taken,
            pos.cell() == displacement(dirs),
        decreases steps - taken,
    {
        let draw = random_usize();
        proof {
            lemma_displacement_within_reach(dirs);
        }
        pos = step_with_returns(pos, draw);
        proof {
            lemma_displacement_push(dirs, draw);
            dirs = dirs.push(draw);
        }
        taken = taken + 1;
    }
    proof {
        lemma_simple_walk_end_is_within_reach(steps as nat, pos.cell());
    }
    pos
}

} // verus!
