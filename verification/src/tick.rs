//! The deterministic index of a simulation step.
use vstd::prelude::*;

verus! {

/// Counts the simulation steps taken.
#[derive(Copy, Clone, Eq, PartialEq, Structural, Ord, PartialOrd, Debug)]
pub struct TickIndex(pub u64);

} // verus!
