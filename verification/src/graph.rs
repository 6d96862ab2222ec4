//! The registry of backward steps and of the retention decisions that the
//! forward pass leaves behind.
pub mod base;
pub mod steps;
