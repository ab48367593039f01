//! Distance functions known to the index.
use vstd::prelude::*;

verus! {

/// Squared Euclidean distance. The index never computes a distance itself:
/// it calls the distance function it is handed, which maps a pair of
/// vectors to a distance key.
#[derive(Clone, Copy, Debug, Default)]
pub struct L2Squared;

} // verus!
