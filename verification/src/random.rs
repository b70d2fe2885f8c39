//! The source of random draws.

use vstd::prelude::*;

verus! {

/// One draw from the thread-local generator of the `rand` crate, made by
/// `rand::random::<usize>()`.
///
/// Nothing is claimed of the value drawn: callers are proved for every `usize`
/// that may come back. The generator takes its seed from the operating
/// system, on its first use in a thread and again each time it reseeds, and
/// `rand` gives up if the operating system has none to give.
#[verifier::external_body]
pub(crate) fn random_usize() -> (draw: usize) {
    rand::random::<usize>()
}

} // verus!
