//! A single-threaded engine.

pub mod access;
pub mod context;
pub mod dirty;
pub mod dot;
pub mod dot_laws;
pub mod engine;
pub mod graph2;
pub mod height;
pub mod laws;
pub mod pending;
pub mod recalc;
pub mod stabilize;
pub mod stats;
pub mod trouble;
