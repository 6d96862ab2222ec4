//! What can be missing when a node is to be resolved.
use crate::node::NodeID;
use vstd::prelude::*;

verus! {

/// The first thing that a resolution finds missing, with the node at which it
/// finds it missing.
#[derive(Clone, Copy, Debug, PartialEq, Eq, Structural)]
pub enum CheckpointError {
    /// The node is not in the store: it was never put there, or it was read
    /// as often as it was expected.
    NodeNotFound(NodeID),
    /// The node is pending, and the edge map does not hold its parents.
    ParentsNotFound(NodeID),
    /// The node is pending, and no replay procedure is registered for it.
    RetroForwardNotFound(NodeID),
    /// The node is pending, and its replay procedure cannot read its inputs:
    /// one of them is not stored, or is read more often than it is expected.
    InputsNotFound(NodeID),
    /// The node is stored, and no read of it is expected.
    NotExpected(NodeID),
}

impl CheckpointError {
    /// The node at which something is missing.
    pub open spec fn at(self) -> NodeID {
        match self {
            CheckpointError::NodeNotFound(node) => node,
            CheckpointError::ParentsNotFound(node) => node,
            CheckpointError::RetroForwardNotFound(node) => node,
            CheckpointError::InputsNotFound(node) => node,
            CheckpointError::NotExpected(node) => node,
        }
    }

    /// The node at which something is missing.
    pub fn node(&self) -> (node: NodeID)
        ensures
            node == self.at(),
    {
        match self {
            CheckpointError::NodeNotFound(node) => *node,
            CheckpointError::ParentsNotFound(node) => *node,
            CheckpointError::RetroForwardNotFound(node) => *node,
            CheckpointError::InputsNotFound(node) => *node,
            CheckpointError::NotExpected(node) => *node,
        }
    }
}

} // verus!
