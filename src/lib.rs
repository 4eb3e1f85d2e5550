//! Reassembly of shredded image strips: palette clustering, pairwise
//! affinity measurement, and greedy chain assembly.
pub mod acquire;
pub mod affinity;
pub mod assembler;
pub mod cluster;
pub mod layout;
pub mod strip;
