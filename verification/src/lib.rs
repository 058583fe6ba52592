//! A concurrent build orchestrator: given an immutable graph of named build
//! targets, it plans and coordinates the execution of each target's recipe so
//! that every target is built at most once and only after all of its direct
//! dependencies have completed.

pub mod graph;
pub mod json;
pub mod lifecycle;
pub mod plan;
pub mod recipe;
pub mod report;
