//! Identifiers and requests of the engine.

use vstd::prelude::*;

verus! {

/// The number of a vector.
pub type VecId = usize;

/// The number of a segment.
pub type SegmentId = usize;

/// The number of a cluster.
pub type ClusterId = usize;

/// The number of a container.
pub type ContainerId = usize;

/// The number of a code.
pub type PQCodeId = usize;

/// A request to the storage layer, for some vectors of one cluster.
#[derive(Clone, Debug, PartialEq, Eq)]
pub enum ActionType {
    /// Bring the vectors into memory.
    Load { embeddings: Vec<VecId>, cluster: ClusterId },
    /// Write the vectors back.
    Dump { embeddings: Vec<VecId>, cluster: ClusterId },
}

impl ActionType {
    /// The cluster that the request is about.
    pub fn cluster(&self) -> (c: ClusterId)
        ensures
            c == match *self {
                ActionType::Load { cluster, .. } => cluster,
                ActionType::Dump { cluster, .. } => cluster,
            },
    {
        match self {
            ActionType::Load { cluster, .. } => *cluster,
            ActionType::Dump { cluster, .. } => *cluster,
        }
    }
}

/// Settings of a training run. There are none yet.
#[derive(Clone, Copy, Debug, PartialEq, Eq)]
pub struct Config {}

} // verus!
