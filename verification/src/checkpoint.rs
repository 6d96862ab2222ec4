//! Retained values, replay procedures and the engine that resolves a node's
//! value during the backward pass.
pub mod base;
pub mod builder;
pub mod error;
pub mod laws;
pub mod model;
pub mod replay;
pub mod state;
