//! The order of the rows of a report: ascending by step count, whatever the
//! order in which the rows were computed.

use vstd::multiset::Multiset;
use vstd::prelude::*;

verus! {

/// Whether the step counts of `rows` never fall from one row to the next.
pub open spec fn is_ascending<T>(rows: Seq<(usize, T)>) -> bool {
    forall|i: int, j: int| 0 <= i < j < rows.len() ==> rows[i].0 <= rows[j].0
}

/// The rows of `rows` whose step count is `steps`, in the order in which they stand there.
pub open spec fn rows_with<T>(rows: Seq<(usize, T)>, steps: usize) -> Seq<(usize, T)>
    decreases rows.len(),
{
    if rows.len() == 0 {
        Seq::empty()
    } else if rows.last().0 == steps {
        rows_with(rows.drop_last(), steps).push(rows.last())
    } else {
        rows_with(rows.drop_last(), steps)
    }
}

/// The rows with a given step count in two lists put end to end are those of
/// the first list followed by those of the second.
pub proof fn lemma_rows_with_concat<T>(a: Seq<(usize, T)>, b: Seq<(usize, T)>, steps: usize)
    ensures
        rows_with(a + b, steps) == rows_with(a, steps) + rows_with(b, steps),
    decreases b.len(),
{
    if b.len() == 0 {
        assert(a + b =~= a);
        assert(rows_with(a, steps) + rows_with(b, steps) =~= rows_with(a, steps));
    } else {
        assert((a + b).drop_last() =~= a + b.drop_last());
        assert((a + b).last() == b.last());
        lemma_rows_with_concat(a, b.drop_last(), steps);
        if b.last().0 == steps {
            assert((rows_with(a, steps) + rows_with(b.drop_last(), steps)).push(b.last())
                =~= rows_with(a, steps) + rows_with(b.drop_last(), steps).push(b.last()));
        }
    }
}

/// A list in which no row has a given step count holds no rows with it.
pub proof fn lemma_rows_with_none<T>(rows: Seq<(usize, T)>, steps: usize)
    requires
        forall|i: int| 0 <= i < rows.len() ==> (#[trigger] rows[i]).0 != steps,
    ensures
        rows_with(rows, steps) == Seq::<(usize, T)>::empty(),
    decreases rows.len(),
{
    if rows.len() > 0 {
        let head = rows.drop_last();
        assert forall|i: int| 0 <= i < head.len() implies (#[trigger] head[i]).0 != steps by {
            assert(head[i] == rows[i]);
        }
        lemma_rows_with_none(head, steps);
        assert(rows.last() == rows[rows.len() - 1]);
    }
}

/// The rows with a given step count in a list of one row.
pub proof fn lemma_rows_with_one<T>(row: (usize, T), steps: usize)
    ensures
        rows_with(seq![row], steps) == if row.0 == steps {
            seq![row]
        } else {
            Seq::<(usize, T)>::empty()
        },
{
    let single = seq![row];
    assert(single.drop_last() =~= Seq::<(usize, T)>::empty());
    assert(single.last() == row);
    assert(rows_with(single.drop_last(), steps) =~= Seq::<(usize, T)>::empty());
    assert(Seq::<(usize, T)>::empty().push(row) =~= single);
}

/// Putting a row into a list, behind the rows with smaller step counts only,
/// puts it in front of the rows of its own step count and leaves those of
/// every other step count as they were.
pub proof fn lemma_rows_with_insert<T>(
    rows: Seq<(usize, T)>,
    at: int,
    row: (usize, T),
    steps: usize,
)
    requires
        0 <= at <= rows.len(),
        forall|i: int| 0 <= i < at ==> (#[trigger] rows[i]).0 < row.0,
    ensures
        rows_with(rows.insert(at, row), steps) == if row.0 == steps {
            seq![row] + rows_with(rows, steps)
        } else {
            rows_with(rows, steps)
        },
{
    let front = rows.take(at);
    let back = rows.skip(at);
    assert(rows.insert(at, row) =~= front + seq![row] + back);
    assert(rows =~= front + back);
    lemma_rows_with_concat(front + seq![row], back, steps);
    lemma_rows_with_concat(front, seq![row], steps);
    lemma_rows_with_concat(front, back, steps);
    lemma_rows_with_one(row, steps);
    if row.0 == steps {
        lemma_rows_with_none(front, steps);
        assert(rows_with(front, steps) + seq![row] =~= seq![row]);
        assert(rows_with(front, steps) + rows_with(back, steps) =~= rows_with(back, steps));
    } else {
        assert(rows_with(front, steps) + Seq::<(usize, T)>::empty() =~= rows_with(front, steps));
    }
}

/// A list that holds a row with some step count has rows with that step count.
pub proof fn lemma_rows_with_some<T>(rows: Seq<(usize, T)>, at: int)
    requires
        0 <= at < rows.len(),
    ensures
        rows_with(rows, rows[at].0).len() > 0,
    decreases rows.len(),
{
    if at < rows.len() - 1 {
        assert(rows.drop_last()[at] == rows[at]);
        lemma_rows_with_some(rows.drop_last(), at);
    }
}

/// The order that `order_by_steps` produces is the only one: two ascending
/// lists that agree on the rows of each step count, in their order, are one
/// list.
pub proof fn lemma_order_is_unique<T>(a: Seq<(usize, T)>, b: Seq<(usize, T)>)
    requires
        is_ascending(a),
        is_ascending(b),
        forall|steps: usize| #[trigger] rows_with(a, steps) == rows_with(b, steps),
    ensures
        a == b,
    decreases a.len() + b.len(),
{
    if a.len() == 0 && b.len() == 0 {
        assert(a =~= b);
    } else if a.len() == 0 {
        lemma_rows_with_some(b, 0);
        assert(rows_with(a, b[0].0) == rows_with(b, b[0].0));
    } else if b.len() == 0 {
        lemma_rows_with_some(a, 0);
        assert(rows_with(a, a[0].0) == rows_with(b, a[0].0));
    } else {
        let top_a = a.last().0;
        let top_b = b.last().0;
        assert(top_a == top_b) by {
            assert(rows_with(a, top_a) == rows_with(b, top_a));
            assert(rows_with(a, top_b) == rows_with(b, top_b));
            if top_a > top_b {
                assert forall|i: int| 0 <= i < b.len() implies (#[trigger] b[i]).0 != top_a by {
                    assert(b[i].0 <= b[b.len() - 1].0);
                }
                lemma_rows_with_none(b, top_a);
            }
            if top_b > top_a {
                assert forall|i: int| 0 <= i < a.len() implies (#[trigger] a[i]).0 != top_b by {
                    assert(a[i].0 <= a[a.len() - 1].0);
                }
                lemma_rows_with_none(a, top_b);
            }
        }
        let head_a = a.drop_last();
        let head_b = b.drop_last();
        assert(rows_with(a, top_a) == rows_with(b, top_a));
        assert(rows_with(a, top_a).last() == a.last());
        assert(rows_with(b, top_a).last() == b.last());
        assert forall|steps: usize| #[trigger]
            rows_with(head_a, steps) == rows_with(head_b, steps) by {
            assert(rows_with(a, steps) == rows_with(b, steps));
            if steps == top_a {
                assert(rows_with(a, steps).drop_last() =~= rows_with(head_a, steps));
                assert(rows_with(b, steps).drop_last() =~= rows_with(head_b, steps));
            }
        }
        assert(is_ascending(head_a)) by {
            assert forall|i: int, j: int| 0 <= i < j < head_a.len() implies head_a[i].0
                <= head_a[j].0 by {
                assert(a[i].0 <= a[j].0);
            }
        }
        assert(is_ascending(head_b)) by {
            assert forall|i: int, j: int| 0 <= i < j < head_b.len() implies head_b[i].0
                <= head_b[j].0 by {
                assert(b[i].0 <= b[j].0);
            }
        }
        lemma_order_is_unique(head_a, head_b);
        assert(a =~= head_a.push(a.last()));
        assert(b =~= head_b.push(b.last()));
    }
}

/// Puts `row` into the ascending list `ordered`, before the first row whose
/// step count is not smaller, and returns the place where it went.
fn insert_by_steps<T>(ordered: &mut Vec<(usize, T)>, row: (usize, T)) -> (at: usize)
    requires
        is_ascending(old(ordered)@),
    ensures
        is_ascending(final(ordered)@),
        at <= old(ordered)@.len(),
        final(ordered)@ == old(ordered)@.insert(at as int, row),
        forall|i: int| 0 <= i < at ==> (#[trigger] old(ordered)@[i]).0 < row.0,
{
    let mut at: usize = 0;
    while at < ordered.len() && ordered[at].0 < row.0
        invariant
            at <= ordered.len(),
            forall|i: int| 0 <= i < at ==> (#[trigger] ordered[i]).0 < row.0,
        decreases ordered.len() - at,
    {
        at = at + 1;
    }
    proof {
        let longer = ordered@.insert(at as int, row);
        assert forall|i: int, j: int| 0 <= i < j < longer.len() implies longer[i].0
            <= longer[j].0 by {
            let from_i = if i < at {
                i
            } else {
                i - 1
            };
            let from_j = if j < at {
                j
            } else {
                j - 1
            };
            if i != at {
                assert(longer[i] == ordered@[from_i]);
            }
            if j != at {
                assert(longer[j] == ordered@[from_j]);
            }
            if at < ordered.len() {
                assert(ordered@[at as int].0 >= row.0);
            }
        }
    }
    ordered.insert(at, row);
    at
}

/// Orders the rows of a report by step count, ascending. The rows are those
/// that were handed in, each as often as before, and rows with one step count
/// stay in the order in which they were handed in.
pub fn order_by_steps<T>(rows: Vec<(usize, T)>) -> (ordered: Vec<(usize, T)>)
    ensures
        is_ascending(ordered@),
        forall|steps: usize| #[trigger] rows_with(ordered@, steps) == rows_with(rows@, steps),
        ordered@.to_multiset() == rows@.to_multiset(),
{
    let mut rest = rows;
    let mut ordered: Vec<(usize, T)> = Vec::new();
    proof {
        broadcast use vstd::seq_lib::group_to_multiset_ensures;

        assert(ordered@.to_multiset() =~= Multiset::<(usize, T)>::empty());
        assert(ordered@.to_multiset().add(rest@.to_multiset()) =~= rows@.to_multiset());
        assert(rows@.skip(rest.len() as int) =~= ordered@);
    }
    while rest.len() > 0
        invariant
            is_ascending(ordered@),
            rest@ == rows@.take(rest.len() as int),
            rest.len() <= rows.len(),
            forall|steps: usize| #[trigger]
                rows_with(ordered@, steps) == rows_with(rows@.skip(rest.len() as int), steps),
            ordered@.to_multiset().add(rest@.to_multiset()) == rows@.to_multiset(),
        decreases rest.len(),
    {
        let ghost before = rest@;
        let ghost ordered_before = ordered@;
        match rest.pop() {
            Some(row) => {
                let at = insert_by_steps(&mut ordered, row);
                proof {
                    broadcast use vstd::seq_lib::group_to_multiset_ensures;

                    let left = rest.len() as int;
                    assert(before =~= rest@.push(row));
                    assert(ordered@.to_multiset().add(rest@.to_multiset())
                        =~= ordered_before.to_multiset().add(before.to_multiset()));
                    assert(rest@ =~= rows@.take(left));
                    assert(row == rows@[left]);
                    assert(rows@.skip(left) =~= seq![row] + rows@.skip(left + 1));
                    assert forall|steps: usize| #[trigger]
                        rows_with(ordered@, steps) == rows_with(rows@.skip(left), steps) by {
                        lemma_rows_with_insert(ordered_before, at as int, row, steps);
                        lemma_rows_with_concat(seq![row], rows@.skip(left + 1), steps);
                        lemma_rows_with_one(row, steps);
                        assert(Seq::<(usize, T)>::empty() + rows_with(
                            rows@.skip(left + 1),
                            steps,
                        ) =~= rows_with(rows@.skip(left + 1), steps));
                    }
                }
            },
            None => {},
        }
    }
    proof {
        broadcast use vstd::seq_lib::group_to_multiset_ensures;

        assert(rest@.to_multiset() =~= Multiset::<(usize, T)>::empty());
        assert(ordered@.to_multiset() =~= rows@.to_multiset());
        assert(rows@.skip(0) =~= rows@);
    }
    ordered
}

} // verus!
