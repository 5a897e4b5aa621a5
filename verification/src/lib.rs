//! A mutual-exclusion lock built on the MCS queue-lock algorithm.
pub mod args;
pub mod mcs;
pub mod poison;
pub mod queue;
