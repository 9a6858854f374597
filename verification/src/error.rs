//! The ways in which a request to the navigation can fail.
use vstd::prelude::*;

verus! {

/// Why a path could not be planned or followed, or an occupant not placed.
#[derive(Clone, Copy, Debug, PartialEq, Eq, Structural)]
pub enum NavError {
    /// The voxel on which the requester stands has no partition.
    NoStartingPartition,
    /// No destination has a partition, or none can be reached with the
    /// requester's capabilities.
    NoReachableDestination,
    /// The search expanded as many nodes as it was allowed before it met a
    /// destination.
    SearchBudgetExceeded,
    /// A voxel of a planned path no longer supports the requester's
    /// movement.
    StaleSegment,
    /// A voxel names a partition that the graph does not hold: the world and
    /// the graph are no longer linked.
    MissingGraphReference,
}

impl NavError {
    /// The kind of failure in words.
    pub fn describe(&self) -> (text: &'static str)
        ensures
            text@ == self.spec_describe(),
    {
        match self {
            NavError::NoStartingPartition => "the requester stands on a voxel without partition",
            NavError::NoReachableDestination => "no destination can be reached",
            NavError::SearchBudgetExceeded => "the search used up its budget",
            NavError::StaleSegment => "a planned step is no longer traversable",
            NavError::MissingGraphReference => "a voxel names a partition that does not exist",
        }
    }

    /// The words for each kind of failure.
    pub open spec fn spec_describe(&self) -> Seq<char> {
        match self {
            NavError::NoStartingPartition => "the requester stands on a voxel without partition"@,
            NavError::NoReachableDestination => "no destination can be reached"@,
            NavError::SearchBudgetExceeded => "the search used up its budget"@,
            NavError::StaleSegment => "a planned step is no longer traversable"@,
            NavError::MissingGraphReference => "a voxel names a partition that does not exist"@,
        }
    }
}

} // verus!
