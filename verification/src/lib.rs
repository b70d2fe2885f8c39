//! Random walks on the square lattice, with machine-checked contracts.
//!
//! Three walks are offered: the simple walk, which may turn back at once;
//! the non-reversing walk, which never undoes its last step; and the
//! self-avoiding walk, which never enters a cell twice and ends when it is
//! hemmed in.
//!
//! Each walk can be driven in two ways. The functions `lattice_with_returns`,
//! `lattice_without_returns` and `lattice_self_avoiding` draw their directions
//! from a random generator; their contracts say what holds of every outcome.
//! `step_with_returns`, `NonReversingWalk::offer` and
//! `SelfAvoidingWalk::offer` take one draw as an argument and say exactly
//! what it does to the walk.
//!
//! Lengths are kept as exact integers: a walk ends on a cell, and the squared
//! distance of that cell from the origin is `Vector::len_squared`.

pub mod direction;
pub mod non_reversing;
mod random;
pub mod rows;
pub mod sampling;
pub mod self_avoiding;
pub mod simple;
pub mod vector;
pub mod visited;
