//! Orchestration core for a multi-service local development environment.
//!
//! The crate resolves declared service dependencies into a deterministic
//! build order, renders the orchestration file tree for an environment, and
//! manages the run state of the external orchestration tool process.

pub mod files;
pub mod generator;
pub mod graph;
pub mod lifecycle;
pub mod paths;
pub mod project;
pub mod statefile;
pub mod strutil;
