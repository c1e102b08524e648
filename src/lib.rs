//! Build-result classification and benchmark history for a benchmark harness.
//!
//! `compile` decides which build artifacts are benchmark executables and when a failed
//! build is run again for its diagnostics; `id` derives unique titles and directory names
//! of benchmark identities; `model` is the run's index of groups, benchmarks and their
//! latest and previous snapshots; `store` names the files a completed run writes.

pub mod compile;
pub mod id;
pub mod model;
pub mod store;
