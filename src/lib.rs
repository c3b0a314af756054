//! Single-machine job scheduling with release times and tails.
//!
//! A job has a release time `r` (earliest start), a processing time `p`
//! and a tail `q` (time that must pass after processing before the job is
//! complete). The library provides:
//!
//! * [`schrage::schrage`]: the Schrage dispatch heuristic, an upper bound;
//! * [`schrage::part_time_schrage`]: its preemptive relaxation, a lower bound;
//! * [`carlier::carlier`]: Carlier's branch and bound search.

pub mod carlier;
pub mod jobs;
pub mod schrage;
pub mod sorting;
pub mod timeline;
