//! Integer coordinate vectors of fixed dimension.

use vstd::prelude::*;

verus! {

/// A point or displacement with `N` integer coordinates.
#[derive(Clone, Copy, Debug, PartialEq, Eq)]
pub struct Vector<const N: usize>(pub [i64; N]);

/// The sum of the squares of the entries of `coords`.
pub open spec fn sum_of_squares(coords: Seq<int>) -> int
    decreases coords.len(),
{
    if coords.len() == 0 {
        0
    } else {
        sum_of_squares(coords.drop_last()) + coords.last() * coords.last()
    }
}

/// The entries of an array of coordinates as mathematical integers, in order.
pub open spec fn coordinates<const N: usize>(data: [i64; N]) -> Seq<int> {
    Seq::new(N as nat, |i: int| data[i] as int)
}

impl<const N: usize> View for Vector<N> {
    type V = Seq<int>;

    /// The coordinates as mathematical integers.
    open spec fn view(&self) -> Seq<int> {
        coordinates(self.0)
    }
}

/// The entry-wise sum of two coordinate sequences of one length.
pub open spec fn coordinate_sum(a: Seq<int>, b: Seq<int>) -> Seq<int> {
    Seq::new(a.len(), |i: int| a[i] + b[i])
}

/// Whether every entry of the entry-wise sum can be held in a coordinate.
pub open spec fn sum_fits(a: Seq<int>, b: Seq<int>) -> bool {
    forall|i: int| 0 <= i < a.len() ==> i64::MIN <= #[trigger] coordinate_sum(a, b)[i] <= i64::MAX
}

/// The vector with the given coordinates, where they fit.
pub open spec fn vector_of<const N: usize>(coords: Seq<int>) -> Vector<N> {
    choose|v: Vector<N>| v@ == coords
}

/// Two vectors with the same coordinates are the same vector.
pub proof fn lemma_view_injective<const N: usize>(a: Vector<N>, b: Vector<N>)
    requires
        a@ == b@,
    ensures
        a == b,
{
    assert forall|j: int| 0 <= j < N implies a.0[j] == b.0[j] by {
        assert(a@[j] == a.0[j] as int);
        assert(b@[j] == b.0[j] as int);
    }
    assert(a.0 =~= b.0);
}

/// The sum of the squares of two coordinates, written out.
pub proof fn lemma_planar_sum_of_squares(coords: Seq<int>)
    requires
        coords.len() == 2,
    ensures
        sum_of_squares(coords) == coords[0] * coords[0] + coords[1] * coords[1],
{
    let head = coords.drop_last();
    assert(head.len() == 1);
    assert(head.drop_last().len() == 0);
    assert(sum_of_squares(head.drop_last()) == 0);
    assert(sum_of_squares(head) == head.last() * head.last());
    assert(head.last() == coords[0]);
    assert(coords.last() == coords[1]);
}

/// The squared length of a planar vector always fits the result of
/// `len_squared`, and is the squared distance of its cell from the origin.
pub proof fn lemma_planar_len_squared_fits(v: Vector<2>)
    ensures
        0 <= sum_of_squares(v@) <= u128::MAX,
        sum_of_squares(v@) == v.cell().0 * v.cell().0 + v.cell().1 * v.cell().1,
{
    let x = v@[0];
    let y = v@[1];
    lemma_planar_sum_of_squares(v@);
    assert(0 <= x * x <= 0x4000_0000_0000_0000_0000_0000_0000_0000) by (nonlinear_arith)
        requires
            -0x8000_0000_0000_0000 <= x <= 0x7fff_ffff_ffff_ffff,
    ;
    assert(0 <= y * y <= 0x4000_0000_0000_0000_0000_0000_0000_0000) by (nonlinear_arith)
        requires
            -0x8000_0000_0000_0000 <= y <= 0x7fff_ffff_ffff_ffff,
    ;
}

/// A prefix contributes no more to the sum of squares than the whole.
pub proof fn lemma_sum_of_squares_prefix(coords: Seq<int>, k: int)
    requires
        0 <= k <= coords.len(),
    ensures
        sum_of_squares(coords.take(k)) <= sum_of_squares(coords),
    decreases coords.len() - k,
{
    if k == coords.len() {
        assert(coords.take(k) =~= coords);
    } else {
        lemma_sum_of_squares_prefix(coords.drop_last(), k);
        assert(coords.drop_last().take(k) =~= coords.take(k));
        assert(coords.last() * coords.last() >= 0) by (nonlinear_arith);
    }
}

impl<const N: usize> Vector<N> {
    /// Wraps the given coordinates.
    pub fn new(data: [i64; N]) -> (v: Self)
        ensures
            v.0 == data,
            v@ == coordinates(data),
    {
        Self(data)
    }

    /// Replaces the coordinate at `index` by `value`.
    pub fn set(&mut self, index: usize, value: i64)
        requires
            index < N,
        ensures
            final(self)@ == old(self)@.update(index as int, value as int),
    {
        self.0[index] = value;
        proof {
            assert(self@ =~= old(self)@.update(index as int, value as int));
        }
    }

    /// The squared Euclidean length: the sum of the squares of the coordinates.
    pub fn len_squared(&self) -> (squared: u128)
        requires
            sum_of_squares(self@) <= u128::MAX,
        ensures
            squared == sum_of_squares(self@),
    {
        let mut acc: u128 = 0;
        let mut i: usize = 0;
        while i < N
            invariant
                i <= N,
                acc == sum_of_squares(self@.take(i as int)),
                sum_of_squares(self@) <= u128::MAX,
            decreases N - i,
        {
            let c: i128 = self.0[i] as i128;
            proof {
                let next = self@.take(i + 1);
                assert(next.drop_last() =~= self@.take(i as int));
                assert(next.last() == c);
                lemma_sum_of_squares_prefix(self@, i + 1);
                assert(c * c <= 0x4000_0000_0000_0000_0000_0000_0000_0000) by (nonlinear_arith)
                    requires
                        -0x8000_0000_0000_0000 <= c <= 0x7fff_ffff_ffff_ffff,
                ;
                assert(c * c >= 0) by (nonlinear_arith);
            }
            let square: i128 = c * c;
            acc = acc + square as u128;
            i = i + 1;
        }
        proof {
            assert(self@.take(N as int) =~= self@);
        }
        acc
    }
}

impl<const N: usize> std::ops::Index<usize> for Vector<N> {
    type Output = i64;

    /// The coordinate at `index`.
    fn index(&self, index: usize) -> (coord: &i64)
        ensures
            *coord == self@[index as int],
    {
        &self.0[index]
    }
}

impl<const N: usize> vstd::std_specs::core::IndexSpecImpl<usize> for Vector<N> {
    open spec fn index_req(&self, index: &usize) -> bool {
        *index < N
    }
}

impl<const N: usize> std::ops::Add for Vector<N> {
    type Output = Self;

    /// The coordinate-wise sum.
    fn add(self, rhs: Self) -> (sum: Self)
        ensures
            sum@ == coordinate_sum(self@, rhs@),
    {
        let mut out = self;
        let mut i: usize = 0;
        while i < N
            invariant
                i <= N,
                sum_fits(self@, rhs@),
                forall|j: int| 0 <= j < i ==> #[trigger] out.0[j] == self.0[j] + rhs.0[j],
                forall|j: int| i <= j < N ==> #[trigger] out.0[j] == self.0[j],
            decreases N - i,
        {
            assert(coordinate_sum(self@, rhs@)[i as int] == self.0[i as int] + rhs.0[i as int]);
            out.0[i] = self.0[i] + rhs.0[i];
            i = i + 1;
        }
        proof {
            assert(out@ =~= coordinate_sum(self@, rhs@));
            lemma_view_injective(out, vector_of::<N>(coordinate_sum(self@, rhs@)));
        }
        out
    }
}

impl<const N: usize> vstd::std_specs::ops::AddSpecImpl for Vector<N> {
    open spec fn obeys_add_spec() -> bool {
        true
    }

    open spec fn add_req(self, rhs: Self) -> bool {
        sum_fits(self@, rhs@)
    }

    open spec fn add_spec(self, rhs: Self) -> Self {
        vector_of(coordinate_sum(self@, rhs@))
    }
}

impl From<(i64, i64)> for Vector<2> {
    /// The planar vector with the pair's coordinates, in order.
    fn from(pair: (i64, i64)) -> (v: Self)
        ensures
            v@ == seq![pair.0 as int, pair.1 as int],
            v.cell() == (pair.0 as int, pair.1 as int),
    {
        let v = Vector::new([pair.0, pair.1]);
        proof {
            assert(v@ =~= seq![pair.0 as int, pair.1 as int]);
            lemma_view_injective(v, vector_of::<2>(seq![pair.0 as int, pair.1 as int]));
        }
        v
    }
}

impl vstd::std_specs::convert::FromSpecImpl<(i64, i64)> for Vector<2> {
    open spec fn obeys_from_spec() -> bool {
        true
    }

    open spec fn from_spec(pair: (i64, i64)) -> Self {
        vector_of(seq![pair.0 as int, pair.1 as int])
    }
}

impl Vector<2> {
    /// The lattice cell that a planar vector points at.
    pub open spec fn cell(&self) -> (int, int) {
        (self@[0], self@[1])
    }
}

} // verus!
