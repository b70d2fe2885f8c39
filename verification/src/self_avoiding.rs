//! The self-avoiding walk: no cell is entered twice, and the walk ends when
//! every neighbour of the cell it stands on has been visited.

use vstd::prelude::*;
use crate::direction::{neighbour, usize_to_direction};
use crate::random::random_usize;
use crate::simple::step_with_returns;
use crate::vector::Vector;
use crate::visited::VisitedCells;

verus! {

/// Whether `b` is one unit step away from `a`.
pub open spec fn are_adjacent(a: (int, int), b: (int, int)) -> bool {
    ||| b == (a.0 + 1, a.1)
    ||| b == (a.0, a.1 + 1)
    ||| b == (a.0 - 1, a.1)
    ||| b == (a.0, a.1 - 1)
}

/// Whether the cell at place `at + 1` of `path` is one unit step away from
/// the cell at place `at`.
pub open spec fn is_unit_move(path: Seq<(int, int)>, at: int) -> bool {
    are_adjacent(path[at], path[at + 1])
}

/// Whether `path` starts at the origin, moves by one unit step at a time and
/// never comes back to a cell.
pub open spec fn is_self_avoiding(path: Seq<(int, int)>) -> bool {
    &&& path.len() >= 1
    &&& path[0] == (0int, 0int)
    &&& forall|i: int| 0 <= i < path.len() - 1 ==> #[trigger] is_unit_move(path, i)
    &&& forall|i: int, j: int| 0 <= i < j < path.len() ==> path[i] != path[j]
}

/// Whether the walk along `path` cannot go on: every neighbour of its last
/// cell lies on the path already.
pub open spec fn is_trapped(path: Seq<(int, int)>) -> bool {
    forall|dir: int| 0 <= dir < 4 ==> path.contains(#[trigger] neighbour(path.last(), dir))
}

/// Whether a self-avoiding walk can be trapped after exactly `steps` steps.
pub open spec fn is_trapping_length(steps: nat) -> bool {
    exists|path: Seq<(int, int)>|
        is_self_avoiding(path) && path.len() == steps + 1 && is_trapped(path)
}

/// The four directions, as a walk finds them when it enters a cell.
pub open spec fn full_pool() -> Seq<usize> {
    seq![0usize, 1usize, 2usize, 3usize]
}

/// Whether `pool` can be the directions left to try at the end of `path`: it
/// holds directions only, none twice, and each direction that it lacks leads
/// to a cell of the path.
pub open spec fn is_pool_for(pool: Seq<usize>, path: Seq<(int, int)>) -> bool {
    &&& forall|k: int| 0 <= k < pool.len() ==> #[trigger] pool[k] < 4
    &&& forall|k: int, l: int| 0 <= k < l < pool.len() ==> pool[k] != pool[l]
    &&& forall|dir: usize|
        dir < 4 && !pool.contains(dir) ==> path.contains(
            #[trigger] neighbour(path.last(), dir as int),
        )
}

/// Whether `taken` holds the cells that the walk along `path` has left behind:
/// all but the last.
pub open spec fn is_left_behind(taken: Set<(int, int)>, path: Seq<(int, int)>) -> bool {
    forall|cell: (int, int)| taken.contains(cell) <==> path.drop_last().contains(cell)
}

/// The place in `pool` that `draw` picks.
pub open spec fn picked(pool: Seq<usize>, draw: usize) -> int {
    draw as int % pool.len() as int
}

/// The cell that the walk along `path` tries when `draw` picks from `pool`.
pub open spec fn candidate(path: Seq<(int, int)>, pool: Seq<usize>, draw: usize) -> (int, int) {
    neighbour(path.last(), pool[picked(pool, draw)] as int)
}

/// The path and the pool of a walk after it was offered `draw`, given those it
/// had before. A trapped walk stays as it is; a candidate on the path is
/// struck out of the pool; a free candidate is entered, with all four
/// directions open again.
pub open spec fn offered(path: Seq<(int, int)>, pool: Seq<usize>, draw: usize) -> (
    Seq<(int, int)>,
    Seq<usize>,
) {
    if pool.len() == 0 {
        (path, pool)
    } else if path.contains(candidate(path, pool, draw)) {
        (path, pool.remove(picked(pool, draw)))
    } else {
        (path.push(candidate(path, pool, draw)), full_pool())
    }
}

/// The path and the pool of a walk that started at the origin and was offered
/// `draws` in turn.
pub open spec fn walk_along(draws: Seq<usize>) -> (Seq<(int, int)>, Seq<usize>)
    decreases draws.len(),
{
    if draws.len() == 0 {
        (seq![(0int, 0int)], full_pool())
    } else {
        let before = walk_along(draws.drop_last());
        offered(before.0, before.1, draws.last())
    }
}

/// Whether the walk along `draws` needed each of them: before each draw it
/// was not trapped and had taken fewer than `max_steps` steps.
pub open spec fn is_under_way(draws: Seq<usize>, max_steps: nat) -> bool {
    forall|k: int|
        0 <= k < draws.len() ==> {
            let before = #[trigger] walk_along(draws.take(k));
            before.1.len() > 0 && before.0.len() <= max_steps
        }
}

/// Whether `outcome` is what `lattice_self_avoiding` returns when it draws
/// `draws` and no more: the walk along them was under way at every draw, and
/// after the last one it is either trapped, after the number of steps given,
/// or has taken `max_steps` steps and is still free.
pub open spec fn is_outcome_of(draws: Seq<usize>, max_steps: nat, outcome: Option<usize>) -> bool {
    let end = walk_along(draws);
    &&& is_under_way(draws, max_steps)
    &&& match outcome {
        Some(steps) => end.1.len() == 0 && end.0.len() == steps + 1,
        None => end.1.len() > 0 && end.0.len() == max_steps + 1,
    }
}

/// Whether some run of draws makes `lattice_self_avoiding` return `outcome`.
pub open spec fn is_possible_outcome(max_steps: nat, outcome: Option<usize>) -> bool {
    exists|draws: Seq<usize>| is_outcome_of(draws, max_steps, outcome)
}

/// A run of draws leaves no choice: it has one outcome at most.
pub proof fn lemma_outcome_is_unique(
    draws: Seq<usize>,
    max_steps: nat,
    first: Option<usize>,
    second: Option<usize>,
)
    requires
        is_outcome_of(draws, max_steps, first),
        is_outcome_of(draws, max_steps, second),
    ensures
        first == second,
{
}

/// One more draw, offered to a walk that was under way and is still going,
/// continues the walk along the draws before it.
pub proof fn lemma_one_more_draw(draws: Seq<usize>, max_steps: nat, draw: usize)
    requires
        is_under_way(draws, max_steps),
        walk_along(draws).1.len() > 0,
        walk_along(draws).0.len() <= max_steps,
    ensures
        is_under_way(draws.push(draw), max_steps),
        walk_along(draws.push(draw)) == offered(walk_along(draws).0, walk_along(draws).1, draw),
{
    let longer = draws.push(draw);
    assert(longer.drop_last() =~= draws);
    assert forall|k: int| 0 <= k < longer.len() implies {
        let before = #[trigger] walk_along(longer.take(k));
        before.1.len() > 0 && before.0.len() <= max_steps
    } by {
        if k < draws.len() {
            assert(longer.take(k) =~= draws.take(k));
        } else {
            assert(longer.take(k) =~= draws);
        }
    }
}

/// What a walk answers when it is offered a draw.
#[derive(Clone, Copy, Debug, PartialEq, Eq)]
pub enum Probe {
    /// The candidate cell was free, and the walk has moved there.
    Moved,
    /// The candidate cell was visited before; other directions are left to try.
    Blocked,
    /// No direction is left to try: the walk is over.
    Trapped,
}

/// A step in a direction leads to an adjacent cell.
pub proof fn lemma_neighbour_is_adjacent(from: (int, int), dir: int)
    ensures
        are_adjacent(from, neighbour(from, dir)),
{
}

/// A cell lies on a path exactly if it is the last cell or lies on the rest.
pub proof fn lemma_contains_last_or_rest(path: Seq<(int, int)>, cell: (int, int))
    requires
        path.len() >= 1,
    ensures
        path.contains(cell) <==> (cell == path.last() || path.drop_last().contains(cell)),
{
    let rest = path.drop_last();
    if path.contains(cell) {
        let i = choose|i: int| 0 <= i < path.len() && path[i] == cell;
        if i < path.len() - 1 {
            assert(rest[i] == cell);
        }
    }
    if rest.contains(cell) {
        let i = choose|i: int| 0 <= i < rest.len() && rest[i] == cell;
        assert(path[i] == cell);
    }
    if cell == path.last() {
        assert(path[path.len() - 1] == cell);
    }
}

/// A self-avoiding path stays self-avoiding when it moves on to a free
/// neighbour of its last cell.
pub proof fn lemma_extend_self_avoiding(path: Seq<(int, int)>, target: (int, int))
    requires
        is_self_avoiding(path),
        are_adjacent(path.last(), target),
        !path.contains(target),
    ensures
        is_self_avoiding(path.push(target)),
{
    let longer = path.push(target);
    assert forall|i: int| 0 <= i < longer.len() - 1 implies #[trigger] is_unit_move(
        longer,
        i,
    ) by {
        if i < path.len() - 1 {
            assert(is_unit_move(path, i));
        }
    }
    assert forall|i: int, j: int| 0 <= i < j < longer.len() implies longer[i] != longer[j] by {
        if j == path.len() {
            assert(path[i] == longer[i]);
        }
    }
}

/// Every direction is in the full pool, so the full pool fits any path.
pub proof fn lemma_full_pool_fits(path: Seq<(int, int)>)
    ensures
        is_pool_for(full_pool(), path),
{
    let pool = full_pool();
    assert forall|dir: usize| dir < 4 implies pool.contains(dir) by {
        assert(pool[dir as int] == dir);
    }
}

/// Striking a direction whose cell is on the path out of a pool leaves a pool
/// for the same path.
pub proof fn lemma_strike_out(pool: Seq<usize>, path: Seq<(int, int)>, at: int)
    requires
        is_pool_for(pool, path),
        0 <= at < pool.len(),
        path.contains(neighbour(path.last(), pool[at] as int)),
    ensures
        is_pool_for(pool.remove(at), path),
{
    let rest = pool.remove(at);
    assert forall|k: int| 0 <= k < rest.len() implies #[trigger] rest[k] < 4 by {
        if k < at {
            assert(rest[k] == pool[k]);
        } else {
            assert(rest[k] == pool[k + 1]);
        }
    }
    assert forall|k: int, l: int| 0 <= k < l < rest.len() implies rest[k] != rest[l] by {
        let from_k = if k < at {
            k
        } else {
            k + 1
        };
        let from_l = if l < at {
            l
        } else {
            l + 1
        };
        assert(rest[k] == pool[from_k]);
        assert(rest[l] == pool[from_l]);
    }
    assert forall|dir: usize| dir < 4 && !rest.contains(dir) implies path.contains(
        #[trigger] neighbour(path.last(), dir as int),
    ) by {
        if dir != pool[at] && pool.contains(dir) {
            let k = choose|k: int| 0 <= k < pool.len() && pool[k] == dir;
            let to = if k < at {
                k
            } else {
                k - 1
            };
            assert(rest[to] == dir);
        }
    }
}

/// With no direction left in its pool, a walk is trapped.
pub proof fn lemma_empty_pool_is_trapped(pool: Seq<usize>, path: Seq<(int, int)>)
    requires
        is_pool_for(pool, path),
        pool.len() == 0,
    ensures
        is_trapped(path),
{
    assert forall|dir: int| 0 <= dir < 4 implies path.contains(
        #[trigger] neighbour(path.last(), dir),
    ) by {
        assert(!pool.contains(dir as usize));
        assert(neighbour(path.last(), dir as usize as int) == neighbour(path.last(), dir));
    }
}

/// When the walk moves on, the cell it leaves joins those left behind.
pub proof fn lemma_leave_behind(
    taken: Set<(int, int)>,
    path: Seq<(int, int)>,
    target: (int, int),
)
    requires
        path.len() >= 1,
        is_left_behind(taken, path),
    ensures
        is_left_behind(taken.insert(path.last()), path.push(target)),
{
    let longer = path.push(target);
    assert(longer.drop_last() =~= path);
    assert forall|cell: (int, int)|
        taken.insert(path.last()).contains(cell) <==> longer.drop_last().contains(cell) by {
        lemma_contains_last_or_rest(path, cell);
    }
}

/// A neighbour of the last cell is on the path exactly if it was left behind.
pub proof fn lemma_left_behind_or_free(
    taken: Set<(int, int)>,
    path: Seq<(int, int)>,
    target: (int, int),
)
    requires
        path.len() >= 1,
        is_left_behind(taken, path),
        are_adjacent(path.last(), target),
    ensures
        taken.contains(target) <==> path.contains(target),
{
    lemma_contains_last_or_rest(path, target);
}

/// A self-avoiding walk under way.
pub struct SelfAvoidingWalk {
    pos: Vector<2>,
    taken_fields: VisitedCells,
    steps: usize,
    pool: Vec<usize>,
    cells: Ghost<Seq<(int, int)>>,
}

impl SelfAvoidingWalk {
    /// The cells occupied so far in the order of the walk: the origin first,
    /// the cell where the walk stands last.
    pub closed spec fn path(&self) -> Seq<(int, int)> {
        self.cells@
    }

    /// The directions not yet tried from the cell where the walk stands.
    pub closed spec fn pool(&self) -> Seq<usize> {
        self.pool@
    }

    /// What holds of every walk that `new` and `offer` produce.
    pub closed spec fn wf(&self) -> bool {
        &&& is_self_avoiding(self.cells@)
        &&& self.cells@.len() == self.steps + 1
        &&& self.steps <= i64::MAX
        &&& self.cells@.last() == self.pos.cell()
        &&& -self.steps <= self.pos.cell().0 <= self.steps
        &&& -self.steps <= self.pos.cell().1 <= self.steps
        &&& is_left_behind(self.taken_fields@, self.cells@)
        &&& is_pool_for(self.pool@, self.cells@)
    }

    /// A walk that stands at the origin and has visited nothing else.
    pub fn new() -> (walk: Self)
        ensures
            walk.wf(),
            walk.path() == seq![(0int, 0int)],
            walk.pool() == full_pool(),
    {
        let ghost start = Seq::<(int, int)>::empty().push((0int, 0int));
        let walk = SelfAvoidingWalk {
            pos: Vector::new([0, 0]),
            taken_fields: VisitedCells::new(),
            steps: 0,
            pool: fresh_pool(),
            cells: Ghost(start),
        };
        proof {
            assert(start =~= seq![(0int, 0int)]);
            assert(start.drop_last() =~= Seq::<(int, int)>::empty());
            lemma_full_pool_fits(start);
        }
        walk
    }

    /// The cell where the walk stands.
    pub fn position(&self) -> (pos: Vector<2>)
        requires
            self.wf(),
        ensures
            pos.cell() == self.path().last(),
    {
        self.pos
    }

    /// The number of steps taken.
    pub fn steps(&self) -> (steps: usize)
        requires
            self.wf(),
        ensures
            steps == self.path().len() - 1,
    {
        self.steps
    }

    /// Whether every direction from the cell where the walk stands has been
    /// tried and found blocked.
    pub fn is_over(&self) -> (over: bool)
        requires
            self.wf(),
        ensures
            over == (self.pool().len() == 0),
            over ==> is_trapped(self.path()),
    {
        let over = self.pool.len() == 0;
        proof {
            if over {
                lemma_empty_pool_is_trapped(self.pool@, self.cells@);
            }
        }
        over
    }

    /// Offers the walk a draw. The draw picks one of the directions not yet
    /// tried from the cell where the walk stands, by its remainder on division
    /// by their number. If the cell in that direction is free, the walk moves
    /// there and all four directions are open again. If not, that direction
    /// is struck out, and the walk is trapped once none is left. A trapped
    /// walk stays as it is.
    pub fn offer(&mut self, draw: usize) -> (probe: Probe)
        requires
            old(self).wf(),
            old(self).path().len() <= i64::MAX,
            old(self).path().len() <= usize::MAX,
        ensures
            final(self).wf(),
            old(self).pool().len() == 0 ==> {
                &&& probe == Probe::Trapped
                &&& final(self).path() == old(self).path()
                &&& final(self).pool() == old(self).pool()
            },
            old(self).pool().len() > 0 && old(self).path().contains(
                candidate(old(self).path(), old(self).pool(), draw),
            ) ==> {
                &&& final(self).path() == old(self).path()
                &&& final(self).pool() == old(self).pool().remove(picked(old(self).pool(), draw))
                &&& probe == if old(self).pool().len() == 1 {
                    Probe::Trapped
                } else {
                    Probe::Blocked
                }
            },
            old(self).pool().len() > 0 && !old(self).path().contains(
                candidate(old(self).path(), old(self).pool(), draw),
            ) ==> {
                &&& final(self).path() == old(self).path().push(
                    candidate(old(self).path(), old(self).pool(), draw),
                )
                &&& final(self).pool() == full_pool()
                &&& probe == Probe::Moved
            },
    {
        if self.pool.len() == 0 {
            return Probe::Trapped;
        }
        let pool_idx = draw % self.pool.len();
        let dir = self.pool[pool_idx];
        let there = cell_towards(self.pos, dir);
        let ghost path = self.cells@;
        let ghost target = candidate(path, self.pool@, draw);
        proof {
            lemma_neighbour_is_adjacent(path.last(), dir as int);
            lemma_left_behind_or_free(self.taken_fields@, path, target);
        }
        if self.taken_fields.contains(there) {
            proof {
                lemma_strike_out(self.pool@, path, pool_idx as int);
            }
            self.pool.remove(pool_idx);
            if self.pool.len() == 0 {
                Probe::Trapped
            } else {
                Probe::Blocked
            }
        } else {
            proof {
                lemma_extend_self_avoiding(path, target);
                lemma_leave_behind(self.taken_fields@, path, target);
                lemma_full_pool_fits(path.push(target));
            }
            let here = cell_of(self.pos);
            self.taken_fields.insert(here);
            self.pos = step_with_returns(self.pos, dir);
            self.steps = self.steps + 1;
            self.pool = fresh_pool();
            self.cells = Ghost(path.push(target));
            Probe::Moved
        }
    }
}

/// The coordinates of the cell that `pos` points at.
fn cell_of(pos: Vector<2>) -> (cell: (i64, i64))
    ensures
        (cell.0 as int, cell.1 as int) == pos.cell(),
{
    (pos[0], pos[1])
}

/// The coordinates of the cell one step from `pos` in direction `dir`.
fn cell_towards(pos: Vector<2>, dir: usize) -> (cell: (i64, i64))
    requires
        i64::MIN < pos.cell().0 < i64::MAX,
        i64::MIN < pos.cell().1 < i64::MAX,
    ensures
        (cell.0 as int, cell.1 as int) == neighbour(pos.cell(), dir as int),
{
    let temp_dir = usize_to_direction(dir);
    (pos[0] + temp_dir[0], pos[1] + temp_dir[1])
}

/// All four directions, in order.
fn fresh_pool() -> (pool: Vec<usize>)
    ensures
        pool@ == full_pool(),
{
    let pool: Vec<usize> = vec![0, 1, 2, 3];
    proof {
        assert(pool@ =~= full_pool());
    }
    pool
}

/// The path of a walk is self-avoiding, its pool fits the path, and the walk
/// is trapped once its pool is empty.
pub proof fn lemma_walk_is_self_avoiding(walk: SelfAvoidingWalk)
    requires
        walk.wf(),
    ensures
        is_self_avoiding(walk.path()),
        walk.path().len() <= i64::MAX + 1,
        is_pool_for(walk.pool(), walk.path()),
        walk.pool().len() == 0 ==> is_trapped(walk.path()),
{
    if walk.pool().len() == 0 {
        lemma_empty_pool_is_trapped(walk.pool(), walk.path());
    }
}

/// At the origin every direction is free: the first step always succeeds.
pub proof fn lemma_first_step_is_free(path: Seq<(int, int)>, dir: int)
    requires
        path.len() == 1,
    ensures
        !path.contains(neighbour(path.last(), dir)),
{
    let target = neighbour(path.last(), dir);
    if path.contains(target) {
        let i = choose|i: int| 0 <= i < path.len() && path[i] == target;
        assert(i == 0);
    }
}

/// Along a self-avoiding path the coordinate sum is even at even places and
/// odd at odd ones.
pub proof fn lemma_path_parity(path: Seq<(int, int)>, at: int)
    requires
        is_self_avoiding(path),
        0 <= at < path.len(),
    ensures
        (path[at].0 + path[at].1) % 2 == at % 2,
    decreases at,
{
    if at > 0 {
        lemma_path_parity(path, at - 1);
        assert(is_unit_move(path, at - 1));
    }
}

/// No self-avoiding walk is trapped before its seventh step: the four
/// neighbours of the last cell lie at four different earlier places of the
/// path, all of the parity that the last place has not.
pub proof fn lemma_trapped_after_seven_at_least(path: Seq<(int, int)>)
    requires
        is_self_avoiding(path),
        is_trapped(path),
    ensures
        path.len() >= 8,
{
    let last = path.len() - 1;
    let east = neighbour(path.last(), 0);
    let north = neighbour(path.last(), 1);
    let west = neighbour(path.last(), 2);
    let south = neighbour(path.last(), 3);
    assert(path.contains(east) && path.contains(north) && path.contains(west) && path.contains(
        south,
    ));
    let e = choose|i: int| 0 <= i < path.len() && path[i] == east;
    let n = choose|i: int| 0 <= i < path.len() && path[i] == north;
    let w = choose|i: int| 0 <= i < path.len() && path[i] == west;
    let s = choose|i: int| 0 <= i < path.len() && path[i] == south;
    lemma_path_parity(path, last);
    lemma_path_parity(path, e);
    lemma_path_parity(path, n);
    lemma_path_parity(path, w);
    lemma_path_parity(path, s);
    assert(e != n && e != w && e != s && n != w && n != s && w != s);
    assert(e % 2 != last % 2 && n % 2 != last % 2 && w % 2 != last % 2 && s % 2 != last % 2);
}

/// Whatever is drawn, the walk along the draws never enters a cell twice, and
/// its pool fits its path.
pub proof fn lemma_walk_along_is_self_avoiding(draws: Seq<usize>)
    ensures
        is_self_avoiding(walk_along(draws).0),
        is_pool_for(walk_along(draws).1, walk_along(draws).0),
    decreases draws.len(),
{
    if draws.len() == 0 {
        lemma_full_pool_fits(seq![(0int, 0int)]);
    } else {
        lemma_walk_along_is_self_avoiding(draws.drop_last());
        let before = walk_along(draws.drop_last());
        let path = before.0;
        let pool = before.1;
        let draw = draws.last();
        if pool.len() > 0 {
            let at = picked(pool, draw);
            let target = candidate(path, pool, draw);
            lemma_neighbour_is_adjacent(path.last(), pool[at] as int);
            if path.contains(target) {
                lemma_strike_out(pool, path, at);
            } else {
                lemma_extend_self_avoiding(path, target);
                lemma_full_pool_fits(path.push(target));
            }
        }
    }
}

/// Whatever the first draw is, the walk moves on it: at the origin every
/// direction is free.
pub proof fn lemma_first_draw_moves(draw: usize)
    ensures
        walk_along(seq![draw]).0.len() == 2,
        walk_along(seq![draw]).1 == full_pool(),
{
    let draws = seq![draw];
    assert(draws.drop_last() =~= Seq::<usize>::empty());
    assert(draws.last() == draw);
    let before = walk_along(draws.drop_last());
    let start = seq![(0int, 0int)];
    assert(before == (start, full_pool()));
    assert(full_pool().len() == 4);
    lemma_first_step_is_free(start, full_pool()[picked(full_pool(), draw)] as int);
    assert(!start.contains(candidate(start, full_pool(), draw)));
    assert(walk_along(draws) == offered(start, full_pool(), draw));
}

/// A count that comes back is the number of steps of a walk that never
/// entered a cell twice and is trapped where it stands: one less than the
/// number of cells on its path. The draw that found the trap took no step,
/// so the count is below the limit, and no trap closes before the seventh
/// step.
pub proof fn lemma_outcome_is_trapping_length(draws: Seq<usize>, max_steps: nat, steps: usize)
    requires
        is_outcome_of(draws, max_steps, Some(steps)),
    ensures
        is_self_avoiding(walk_along(draws).0),
        walk_along(draws).0.len() == steps + 1,
        is_trapped(walk_along(draws).0),
        is_trapping_length(steps as nat),
        7 <= steps < max_steps,
{
    lemma_walk_along_is_self_avoiding(draws);
    let end = walk_along(draws);
    lemma_empty_pool_is_trapped(end.1, end.0);
    lemma_trapped_after_seven_at_least(end.0);
    assert(draws.len() > 0);
    assert(draws.take(draws.len() - 1) =~= draws.drop_last());
    let before = walk_along(draws.take(draws.len() - 1));
    assert(before.1.len() > 0 && before.0.len() <= max_steps);
    assert(end == offered(before.0, before.1, draws.last()));
}

/// Walks from the origin, never entering a cell twice, until no free
/// neighbour is left, and returns the number of steps taken. For each step the
/// four directions are tried in a freshly drawn order. A walk that takes its
/// `max_steps`-th step before a trap is found is given up with `None`.
pub fn lattice_self_avoiding(max_steps: usize) -> (trapped_after: Option<usize>)
    requires
        max_steps <= i64::MAX,
    ensures
        is_possible_outcome(max_steps as nat, trapped_after),
        trapped_after matches Some(steps) ==> {
            &&& is_trapping_length(steps as nat)
            &&& 7 <= steps < max_steps
        },
        max_steps <= 7 ==> trapped_after is None,
{
    let mut walk = SelfAvoidingWalk::new();
    let ghost mut draws: Seq<usize> = Seq::empty();
    while walk.steps() < max_steps
        invariant
            walk.wf(),
            walk.path().len() <= max_steps + 1,
            max_steps <= i64::MAX,
            walk.pool().len() > 0,
            is_under_way(draws, max_steps as nat),
            walk_along(draws) == (walk.path(), walk.pool()),
        decreases max_steps + 1 - walk.path().len(), walk.pool().len(),
    {
        let draw = random_usize();
        proof {
            lemma_one_more_draw(draws, max_steps as nat, draw);
            draws = draws.push(draw);
        }
        let probe = walk.offer(draw);
        proof {
            if walk.pool().len() == 0 {
                let steps = (walk.path().len() - 1) as usize;
                assert(is_outcome_of(draws, max_steps as nat, Some(steps)));
                lemma_outcome_is_trapping_length(draws, max_steps as nat, steps);
            }
        }
        match probe {
            Probe::Trapped => {
                return Some(walk.steps());
            },
            _ => {},
        }
    }
    proof {
        assert(is_outcome_of(draws, max_steps as nat, None));
    }
    None
}

} // verus!
