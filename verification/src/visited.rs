//! The set of lattice cells that a walk has already occupied.

use std::collections::HashSet;
use vstd::prelude::*;

verus! {

broadcast use vstd::std_specs::hash::group_hash_axioms;

/// The number that stands for a cell in the hash set: the first coordinate in
/// the upper half, the second, shifted to be non-negative, in the lower half.
pub open spec fn cell_key(cell: (int, int)) -> int {
    cell.0 * 0x1_0000_0000_0000_0000 + (cell.1 + 0x8000_0000_0000_0000)
}

/// Whether both coordinates of a cell can be held in an `i64`.
pub open spec fn is_representable(cell: (int, int)) -> bool {
    &&& i64::MIN <= cell.0 <= i64::MAX
    &&& i64::MIN <= cell.1 <= i64::MAX
}

/// Distinct representable cells have distinct keys.
pub proof fn lemma_cell_key_injective(a: (int, int), b: (int, int))
    requires
        is_representable(a),
        is_representable(b),
        cell_key(a) == cell_key(b),
    ensures
        a == b,
{
}

/// A set of lattice cells with exact membership, kept in a hash set of cell keys.
pub struct VisitedCells {
    keys: HashSet<i128>,
}

impl View for VisitedCells {
    type V = Set<(int, int)>;

    /// The cells in the set.
    closed spec fn view(&self) -> Set<(int, int)> {
        Set::new(|cell: (int, int)| is_representable(cell) && self.keys@.contains(cell_key(cell) as i128))
    }
}

impl VisitedCells {
    /// The empty set.
    pub fn new() -> (cells: Self)
        ensures
            cells@ == Set::<(int, int)>::empty(),
    {
        let cells = VisitedCells { keys: HashSet::new() };
        proof {
            assert(cells@ =~= Set::<(int, int)>::empty());
        }
        cells
    }

    fn key_of(cell: (i64, i64)) -> (key: i128)
        ensures
            key == cell_key((cell.0 as int, cell.1 as int)),
    {
        (cell.0 as i128) * 0x1_0000_0000_0000_0000 + ((cell.1 as i128) + 0x8000_0000_0000_0000)
    }

    /// Whether `cell` is in the set.
    pub fn contains(&self, cell: (i64, i64)) -> (found: bool)
        ensures
            found == self@.contains((cell.0 as int, cell.1 as int)),
    {
        let key = Self::key_of(cell);
        self.keys.contains(&key)
    }

    /// Adds `cell` to the set, and says whether it was new.
    pub fn insert(&mut self, cell: (i64, i64)) -> (fresh: bool)
        ensures
            final(self)@ == old(self)@.insert((cell.0 as int, cell.1 as int)),
            fresh == !old(self)@.contains((cell.0 as int, cell.1 as int)),
    {
        let key = Self::key_of(cell);
        let fresh = self.keys.insert(key);
        proof {
            let added = (cell.0 as int, cell.1 as int);
            assert forall|other: (int, int)|
                self@.contains(other) == old(self)@.insert(added).contains(other) by {
                if is_representable(other) && cell_key(other) == cell_key(added) {
                    lemma_cell_key_injective(other, added);
                }
            }
            assert(self@ =~= old(self)@.insert(added));
        }
        fresh
    }
}

} // verus!
