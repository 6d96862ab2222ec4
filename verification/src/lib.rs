//! Bookkeeping core of a reverse-mode automatic-differentiation engine.
//!
//! During the forward pass every operation registers a backward step in a
//! [`graph::base::Graph`] and says, through a
//! [`graph::base::CheckpointingAction`], whether its output is retained or
//! recomputed on demand. At the start of the backward pass those decisions
//! become a [`checkpoint::base::Checkpoint`], which hands each backward step
//! the intermediate values it asks for, replaying the forward computation of
//! the nodes that were not retained.
//!
//! The contracts speak of a store as a map from nodes to states
//! ([`checkpoint::model`]); what holds of every store and every resolution is
//! proved in [`checkpoint::laws`].
pub mod node;
pub mod checkpoint;
pub mod graph;
mod sync;
