//! Repeated trials of each walk, and the sweep of step counts over which the
//! trials are run.

use vstd::prelude::*;
use crate::non_reversing::{is_non_reversing_walk_end, lattice_without_returns};
use crate::self_avoiding::{is_trapping_length, lattice_self_avoiding};
use crate::simple::{is_simple_walk_end, lattice_with_returns};
use crate::vector::Vector;

verus! {

/// The number of trials behind each mean.
pub const SAMPLE_SIZE: usize = 100_000;

/// The number of step counts in the sweep.
pub const SWEEP_LENGTH: usize = 50;

/// The step count at place `index` of the sweep: 10, 30, 50 and so on.
pub open spec fn sweep_step_count(index: int) -> int {
    (index + 1) * 20 - 10
}

/// The sum of the entries of `counts`.
pub open spec fn total(counts: Seq<usize>) -> int
    decreases counts.len(),
{
    if counts.len() == 0 {
        0
    } else {
        total(counts.drop_last()) + counts.last()
    }
}

/// The step count at place `index` of the sweep.
pub fn sweep_steps(index: usize) -> (steps: usize)
    requires
        sweep_step_count(index as int) <= usize::MAX,
    ensures
        steps == sweep_step_count(index as int),
{
    index * 20 + 10
}

/// The first `count` step counts of the sweep, in ascending order.
pub fn sweep(count: usize) -> (configs: Vec<usize>)
    requires
        count > 0 ==> sweep_step_count(count - 1) <= usize::MAX,
    ensures
        configs.len() == count,
        forall|i: int| 0 <= i < count ==> #[trigger] configs[i] == sweep_step_count(i),
        forall|i: int, j: int| 0 <= i < j < count ==> configs[i] < configs[j],
{
    let mut configs: Vec<usize> = Vec::new();
    let mut index: usize = 0;
    while index < count
        invariant
            index <= count,
            count > 0 ==> sweep_step_count(count - 1) <= usize::MAX,
            configs.len() == index,
            forall|i: int| 0 <= i < index ==> #[trigger] configs[i] == sweep_step_count(i),
        decreases count - index,
    {
        configs.push(sweep_steps(index));
        index = index + 1;
    }
    configs
}

/// Runs `samples` simple walks of `steps` steps each and returns the cell at
/// which each one ended.
pub fn sample_with_returns(steps: usize, samples: usize) -> (ends: Vec<Vector<2>>)
    requires
        steps <= i64::MAX,
    ensures
        ends.len() == samples,
        forall|i: int|
            0 <= i < samples ==> is_simple_walk_end(steps as nat, (#[trigger] ends[i]).cell()),
{
    let mut ends: Vec<Vector<2>> = Vec::new();
    let mut done: usize = 0;
    while done < samples
        invariant
            done <= samples,
            steps <= i64::MAX,
            ends.len() == done,
            forall|i: int|
                0 <= i < done ==> is_simple_walk_end(steps as nat, (#[trigger] ends[i]).cell()),
        decreases samples - done,
    {
        ends.push(lattice_with_returns(steps));
        done = done + 1;
    }
    ends
}

/// Runs `samples` non-reversing walks of `steps` steps each and returns the
/// cell at which each one ended, or `None` as soon as one of them is given up
/// for want of an acceptable draw.
pub fn sample_without_returns(steps: usize, samples: usize, max_redraws: usize) -> (ends: Option<
    Vec<Vector<2>>,
>)
    requires
        steps <= i64::MAX,
    ensures
        ends matches Some(list) ==> {
            &&& list.len() == samples
            &&& forall|i: int|
                0 <= i < samples ==> is_non_reversing_walk_end(
                    steps as nat,
                    (#[trigger] list[i]).cell(),
                )
            &&& forall|i: int|
                0 <= i < samples ==> crate::non_reversing::is_possible_outcome(
                    steps as nat,
                    max_redraws as nat,
                    Some((#[trigger] list[i]).cell()),
                )
        },
        ends is None ==> crate::non_reversing::is_possible_outcome(
            steps as nat,
            max_redraws as nat,
            None,
        ),
        steps <= 1 || samples == 0 ==> ends is Some,
{
    let mut ends: Vec<Vector<2>> = Vec::new();
    let mut done: usize = 0;
    while done < samples
        invariant
            done <= samples,
            steps <= i64::MAX,
            ends.len() == done,
            forall|i: int|
                0 <= i < done ==> is_non_reversing_walk_end(
                    steps as nat,
                    (#[trigger] ends[i]).cell(),
                ),
            forall|i: int|
                0 <= i < done ==> crate::non_reversing::is_possible_outcome(
                    steps as nat,
                    max_redraws as nat,
                    Some((#[trigger] ends[i]).cell()),
                ),
        decreases samples - done,
    {
        match lattice_without_returns(steps, max_redraws) {
            Some(end) => {
                ends.push(end);
            },
            None => {
                return None;
            },
        }
        done = done + 1;
    }
    Some(ends)
}

/// Runs `samples` self-avoiding walks and returns the number of steps after
/// which each one was trapped, or `None` as soon as one of them is still free
/// after `max_steps` steps.
pub fn sample_self_avoiding(samples: usize, max_steps: usize) -> (counts: Option<Vec<usize>>)
    requires
        max_steps <= i64::MAX,
    ensures
        counts matches Some(list) ==> {
            &&& list.len() == samples
            &&& forall|i: int|
                0 <= i < samples ==> 7 <= #[trigger] list[i] < max_steps && is_trapping_length(
                    list[i] as nat,
                )
            &&& forall|i: int|
                0 <= i < samples ==> crate::self_avoiding::is_possible_outcome(
                    max_steps as nat,
                    Some(#[trigger] list[i]),
                )
        },
        counts is None ==> crate::self_avoiding::is_possible_outcome(max_steps as nat, None),
        samples == 0 ==> counts is Some,
        samples > 0 && max_steps <= 7 ==> counts is None,
{
    let mut counts: Vec<usize> = Vec::new();
    let mut done: usize = 0;
    while done < samples
        invariant
            done <= samples,
            max_steps <= i64::MAX,
            done > 0 ==> max_steps > 7,
            counts.len() == done,
            forall|i: int|
                0 <= i < done ==> 7 <= #[trigger] counts[i] < max_steps && is_trapping_length(
                    counts[i] as nat,
                ),
            forall|i: int|
                0 <= i < done ==> crate::self_avoiding::is_possible_outcome(
                    max_steps as nat,
                    Some(#[trigger] counts[i]),
                ),
        decreases samples - done,
    {
        match lattice_self_avoiding(max_steps) {
            Some(steps) => {
                counts.push(steps);
            },
            None => {
                return None;
            },
        }
        done = done + 1;
    }
    Some(counts)
}

/// The sum of the step counts of a list of trials.
pub fn total_steps(counts: &Vec<usize>) -> (sum: u128)
    ensures
        sum == total(counts@),
{
    let mut sum: u128 = 0;
    let mut index: usize = 0;
    while index < counts.len()
        invariant
            index <= counts.len(),
            sum == total(counts@.take(index as int)),
            sum <= index * 0xffff_ffff_ffff_ffff,
        decreases counts.len() - index,
    {
        proof {
            assert(counts@.take(index + 1).drop_last() =~= counts@.take(index as int));
        }
        sum = sum + counts[index] as u128;
        index = index + 1;
    }
    proof {
        assert(counts@.take(counts.len() as int) =~= counts@);
    }
    sum
}

} // verus!
