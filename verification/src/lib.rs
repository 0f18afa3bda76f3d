//! Build-signal listener and critical-path analysis.
//!
//! Units of work of a build (analyses, action executions, transitive-set
//! projections) report their completion as signals.  A backend accumulates
//! them into a dependency graph and, when the build has finished, names the
//! critical path: the chain of dependencies with the longest total duration.
//!
//! * `signal`, `key`, `data`, `duration`: what the producers send.
//! * `receiver`: turns each signal into what a backend is told, and what
//!   the backend finds into the `report` of the build.
//! * `backend`: what every backend offers; `model`: what a backend has been
//!   told, as two sequences.
//! * `default_backend`: the longest chain, tracked while the nodes arrive in
//!   a predecessor map (`critical_path`); `tracker_laws`: what holds of it.
//! * `longest_path`: the graph (`graph`), kept and prepared for a
//!   longest-path computation; `longest_path_laws` and `graph_laws`: what
//!   holds of it.
//! * `indexed_keys`: keys that are found again by their bucket.
//! * `config`: the choice of the backend.

pub mod backend;
pub mod config;
pub mod critical_path;
pub mod data;
pub mod default_backend;
pub mod duration;
pub mod graph;
pub mod graph_laws;
pub mod indexed_keys;
pub mod key;
pub mod longest_path;
pub mod longest_path_laws;
pub mod model;
pub mod receiver;
pub mod report;
pub mod signal;
pub mod tracker_laws;
