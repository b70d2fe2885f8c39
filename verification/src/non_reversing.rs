//! The non-reversing walk: a step is never undone by the step that follows it.

use vstd::prelude::*;
use crate::direction::{
    displacement, lemma_displacement_push, lemma_displacement_within_reach, opposite,
    NO_DIRECTION,
};
use crate::simple::{is_simple_walk_end, step_with_returns};
use crate::random::random_usize;
use crate::vector::Vector;

verus! {

/// Whether the step at place `at` of `dirs` undoes the step before it.
pub open spec fn turns_back(dirs: Seq<usize>, at: int) -> bool {
    opposite(dirs[at] as int) == dirs[at - 1]
}

/// Whether a run of directions holds only direction codes and never a step
/// followed by its opposite.
pub open spec fn is_non_reversing(dirs: Seq<usize>) -> bool {
    &&& forall|i: int| 0 <= i < dirs.len() ==> #[trigger] dirs[i] < 4
    &&& forall|i: int| 1 <= i < dirs.len() ==> !#[trigger] turns_back(dirs, i)
}

/// Whether a walk that has taken `history` takes the direction that `draw`
/// stands for: always on the first step, and later unless it undoes the last one.
pub open spec fn accepts(history: Seq<usize>, draw: usize) -> bool {
    history.len() == 0 || opposite((draw % 4) as int) != history.last()
}

/// Whether a non-reversing walk of `steps` steps from the origin can end at `end`.
pub open spec fn is_non_reversing_walk_end(steps: nat, end: (int, int)) -> bool {
    exists|dirs: Seq<usize>|
        dirs.len() == steps && is_non_reversing(dirs) && displacement(dirs) == end
}

/// The history of a walk that started at the origin and was offered `draws`
/// in turn, and the number of draws turned down since its last step.
pub open spec fn walk_along(draws: Seq<usize>) -> (Seq<usize>, nat)
    decreases draws.len(),
{
    if draws.len() == 0 {
        (Seq::empty(), 0)
    } else {
        let before = walk_along(draws.drop_last());
        if accepts(before.0, draws.last()) {
            (before.0.push((draws.last() % 4) as usize), 0)
        } else {
            (before.0, before.1 + 1)
        }
    }
}

/// Whether the walk along `draws` needed each of them: before each draw it
/// had taken fewer than `steps` steps and had not used up its redraws.
pub open spec fn is_under_way(draws: Seq<usize>, steps: nat, max_redraws: nat) -> bool {
    forall|k: int|
        0 <= k < draws.len() ==> {
            let before = #[trigger] walk_along(draws.take(k));
            before.0.len() < steps && before.1 <= max_redraws
        }
}

/// Whether `end` is what `lattice_without_returns` returns when it draws
/// `draws` and no more: the walk along them was under way at every draw, and
/// after the last one it has either taken all its steps and stands on the
/// cell given, or has had one draw more turned down than it may draw again.
pub open spec fn is_outcome_of(
    draws: Seq<usize>,
    steps: nat,
    max_redraws: nat,
    end: Option<(int, int)>,
) -> bool {
    let last = walk_along(draws);
    &&& is_under_way(draws, steps, max_redraws)
    &&& match end {
        Some(cell) => last.0.len() == steps && last.1 == 0 && displacement(last.0) == cell,
        None => last.0.len() < steps && last.1 == max_redraws + 1,
    }
}

/// Whether some run of draws makes `lattice_without_returns` return `end`.
pub open spec fn is_possible_outcome(steps: nat, max_redraws: nat, end: Option<(int, int)>) -> bool {
    exists|draws: Seq<usize>| is_outcome_of(draws, steps, max_redraws, end)
}

/// One more draw, offered to a walk that was under way and is still going,
/// continues the walk along the draws before it.
pub proof fn lemma_one_more_draw(draws: Seq<usize>, steps: nat, max_redraws: nat, draw: usize)
    requires
        is_under_way(draws, steps, max_redraws),
        walk_along(draws).0.len() < steps,
        walk_along(draws).1 <= max_redraws,
    ensures
        is_under_way(draws.push(draw), steps, max_redraws),
        walk_along(draws.push(draw)) == if accepts(walk_along(draws).0, draw) {
            (walk_along(draws).0.push((draw % 4) as usize), 0nat)
        } else {
            (walk_along(draws).0, walk_along(draws).1 + 1)
        },
{
    let longer = draws.push(draw);
    assert(longer.drop_last() =~= draws);
    assert forall|k: int| 0 <= k < longer.len() implies {
        let before = #[trigger] walk_along(longer.take(k));
        before.0.len() < steps && before.1 <= max_redraws
    } by {
        if k < draws.len() {
            assert(longer.take(k) =~= draws.take(k));
        } else {
            assert(longer.take(k) =~= draws);
        }
    }
}

/// A run of draws leaves no choice: it has one outcome at most.
pub proof fn lemma_outcome_is_unique(
    draws: Seq<usize>,
    steps: nat,
    max_redraws: nat,
    first: Option<(int, int)>,
    second: Option<(int, int)>,
)
    requires
        is_outcome_of(draws, steps, max_redraws, first),
        is_outcome_of(draws, steps, max_redraws, second),
    ensures
        first == second,
{
}

/// Whatever is drawn, the history of the walk along the draws never reverses.
pub proof fn lemma_walk_along_never_reverses(draws: Seq<usize>)
    ensures
        is_non_reversing(walk_along(draws).0),
    decreases draws.len(),
{
    if draws.len() > 0 {
        lemma_walk_along_never_reverses(draws.drop_last());
        let before = walk_along(draws.drop_last());
        if accepts(before.0, draws.last()) {
            lemma_push_keeps_non_reversing(before.0, (draws.last() % 4) as usize);
        }
    }
}

/// A walk that ends on a cell after some run of draws has taken a
/// non-reversing run of directions to that cell.
pub proof fn lemma_outcome_is_walk_end(
    draws: Seq<usize>,
    steps: nat,
    max_redraws: nat,
    cell: (int, int),
)
    requires
        is_outcome_of(draws, steps, max_redraws, Some(cell)),
    ensures
        is_non_reversing_walk_end(steps, cell),
{
    lemma_walk_along_never_reverses(draws);
    let dirs = walk_along(draws).0;
    assert(dirs.len() == steps && is_non_reversing(dirs) && displacement(dirs) == cell);
}

/// In a non-reversing run no step leads back to the cell that the step
/// before it left.
pub proof fn lemma_never_back_at_once(dirs: Seq<usize>, at: int)
    requires
        is_non_reversing(dirs),
        1 <= at < dirs.len(),
    ensures
        displacement(dirs.take(at + 1)) != displacement(dirs.take(at - 1)),
{
    let short = dirs.take(at - 1);
    assert(dirs.take(at) =~= short.push(dirs[at - 1]));
    assert(dirs.take(at + 1) =~= dirs.take(at).push(dirs[at]));
    lemma_displacement_push(short, dirs[at - 1]);
    lemma_displacement_push(dirs.take(at), dirs[at]);
    assert(!turns_back(dirs, at));
    assert(dirs[at] < 4 && dirs[at - 1] < 4);
}

/// A direction that does not undo the last step may follow a non-reversing run.
pub proof fn lemma_push_keeps_non_reversing(dirs: Seq<usize>, dir: usize)
    requires
        is_non_reversing(dirs),
        dir < 4,
        dirs.len() == 0 || opposite(dir as int) != dirs.last(),
    ensures
        is_non_reversing(dirs.push(dir)),
{
    let longer = dirs.push(dir);
    assert forall|i: int| 0 <= i < longer.len() implies #[trigger] longer[i] < 4 by {
        if i < dirs.len() {
            assert(longer[i] == dirs[i]);
        }
    }
    assert forall|i: int| 1 <= i < longer.len() implies !#[trigger] turns_back(longer, i) by {
        if i < dirs.len() {
            assert(!turns_back(dirs, i));
        }
    }
}

/// A non-reversing walk is a simple walk that happens never to turn back: it
/// ends where a simple walk of as many steps can end.
pub proof fn lemma_non_reversing_walk_end_is_simple(steps: nat, end: (int, int))
    requires
        is_non_reversing_walk_end(steps, end),
    ensures
        is_simple_walk_end(steps, end),
{
    let dirs = choose|dirs: Seq<usize>|
        dirs.len() == steps && is_non_reversing(dirs) && displacement(dirs) == end;
    assert(dirs.len() == steps && displacement(dirs) == end);
}

/// After two steps a non-reversing walk is not back at the origin.
pub proof fn lemma_two_steps_leave_the_origin(end: (int, int))
    requires
        is_non_reversing_walk_end(2, end),
    ensures
        end != (0int, 0int),
{
    let dirs = choose|dirs: Seq<usize>|
        dirs.len() == 2 && is_non_reversing(dirs) && displacement(dirs) == end;
    assert(!turns_back(dirs, 1));
    assert(dirs[0] < 4 && dirs[1] < 4);
    let none = Seq::<usize>::empty();
    assert(dirs =~= none.push(dirs[0]).push(dirs[1]));
    lemma_displacement_push(none, dirs[0]);
    lemma_displacement_push(none.push(dirs[0]), dirs[1]);
}

/// A non-reversing walk under way: where it stands and which way it last went.
pub struct NonReversingWalk {
    pos: Vector<2>,
    prev_dir: usize,
    taken: usize,
    dirs: Ghost<Seq<usize>>,
}

impl NonReversingWalk {
    /// The directions taken so far, oldest first.
    pub closed spec fn history(&self) -> Seq<usize> {
        self.dirs@
    }

    /// What holds of every walk that `new` and `offer` produce: the fields
    /// agree with the history, and the history never reverses.
    pub closed spec fn wf(&self) -> bool {
        &&& self.taken == self.dirs@.len()
        &&& self.taken <= i64::MAX
        &&& self.pos.cell() == displacement(self.dirs@)
        &&& self.prev_dir == if self.dirs@.len() == 0 {
            NO_DIRECTION
        } else {
            self.dirs@.last()
        }
        &&& is_non_reversing(self.dirs@)
    }

    /// A walk at the origin that has not moved yet.
    pub fn new() -> (walk: Self)
        ensures
            walk.wf(),
            walk.history() == Seq::<usize>::empty(),
    {
        NonReversingWalk {
            pos: Vector::new([0, 0]),
            prev_dir: NO_DIRECTION,
            taken: 0,
            dirs: Ghost(Seq::empty()),
        }
    }

    /// The cell where the walk stands.
    pub fn position(&self) -> (pos: Vector<2>)
        requires
            self.wf(),
        ensures
            pos.cell() == displacement(self.history()),
    {
        self.pos
    }

    /// The number of steps taken.
    pub fn steps(&self) -> (taken: usize)
        requires
            self.wf(),
        ensures
            taken == self.history().len(),
    {
        self.taken
    }

    /// The direction of the last step, or `NO_DIRECTION` before the first.
    pub fn previous_direction(&self) -> (dir: usize)
        requires
            self.wf(),
        ensures
            dir == if self.history().len() == 0 {
                NO_DIRECTION
            } else {
                self.history().last()
            },
    {
        self.prev_dir
    }

    /// Offers the walk the direction that `draw` stands for. The walk takes the
    /// step and answers `true`, unless the step would undo the previous one:
    /// then it stays where it is and answers `false`.
    pub fn offer(&mut self, draw: usize) -> (accepted: bool)
        requires
            old(self).wf(),
            old(self).history().len() < i64::MAX,
            old(self).history().len() < usize::MAX,
        ensures
            final(self).wf(),
            accepted == accepts(old(self).history(), draw),
            final(self).history() == if accepted {
                old(self).history().push((draw % 4) as usize)
            } else {
                old(self).history()
            },
    {
        let dir: usize = draw % 4;
        if (dir + 2) % 4 != self.prev_dir {
            proof {
                lemma_displacement_within_reach(self.dirs@);
                lemma_push_keeps_non_reversing(self.dirs@, dir);
                lemma_displacement_push(self.dirs@, dir);
            }
            self.pos = step_with_returns(self.pos, dir);
            self.prev_dir = dir;
            self.taken = self.taken + 1;
            self.dirs = Ghost(self.dirs@.push(dir));
            true
        } else {
            false
        }
    }
}

/// The cell of the end of a walk, where the walk has one.
pub open spec fn cell_of_end(end: Option<Vector<2>>) -> Option<(int, int)> {
    match end {
        Some(pos) => Some(pos.cell()),
        None => None,
    }
}

/// No walk ever undoes a step with the next one, and none takes more steps
/// than its coordinates can follow.
pub proof fn lemma_walk_never_reverses(walk: NonReversingWalk)
    requires
        walk.wf(),
    ensures
        is_non_reversing(walk.history()),
        walk.history().len() <= i64::MAX,
{
}

/// Walks `steps` steps from the origin and returns the cell where the walk
/// ends. Each direction is drawn afresh, and drawn again while it would undo
/// the previous step. A step that would need more than `max_redraws` redraws
/// ends the walk with `None`.
pub fn lattice_without_returns(steps: usize, max_redraws: usize) -> (end: Option<Vector<2>>)
    requires
        steps <= i64::MAX,
    ensures
        is_possible_outcome(steps as nat, max_redraws as nat, cell_of_end(end)),
        end matches Some(pos) ==> is_non_reversing_walk_end(steps as nat, pos.cell()),
        steps == 0 ==> (end matches Some(pos) && pos.cell() == (0int, 0int)),
        steps == 1 ==> end is Some,
{
    let mut walk = NonReversingWalk::new();
    let ghost mut draws: Seq<usize> = Seq::empty();
    while walk.steps() < steps
        invariant
            walk.wf(),
            walk.history().len() <= steps <= i64::MAX,
            is_under_way(draws, steps as nat, max_redraws as nat),
            walk_along(draws) == (walk.history(), 0nat),
        decreases steps - walk.history().len(),
    {
        let ghost before = walk.history().len();
        let mut redraws: usize = 0;
        loop
            invariant_except_break
                walk.wf(),
                walk.history().len() == before < steps <= i64::MAX,
                redraws <= max_redraws,
                walk.history().len() == 0 ==> redraws == 0,
                walk_along(draws) == (walk.history(), redraws as nat),
            invariant
                is_under_way(draws, steps as nat, max_redraws as nat),
            ensures
                walk.wf(),
                walk.history().len() == before + 1 <= steps,
                walk_along(draws) == (walk.history(), 0nat),
            decreases max_redraws - redraws,
        {
            let draw = random_usize();
            proof {
                lemma_one_more_draw(draws, steps as nat, max_redraws as nat, draw);
                draws = draws.push(draw);
            }
            if walk.offer(draw) {
                break;
            }
            if redraws == max_redraws {
                proof {
                    assert(is_outcome_of(draws, steps as nat, max_redraws as nat, None));
                }
                return None;
            }
            redraws = redraws + 1;
        }
    }
    proof {
        lemma_walk_never_reverses(walk);
    }
    let end = walk.position();
    proof {
        assert(is_outcome_of(draws, steps as nat, max_redraws as nat, Some(end.cell())));
    }
    Some(end)
}

} // verus!
