//! Dependency-graph analysis for compiler regression-test reports.
//!
//! The crate compares two sets of per-package test outcomes (a baseline run
//! and a candidate run), classifies each package's change, builds a directed
//! "depends on" graph of a package registry snapshot, computes reverse
//! reachability (the packages affected when one package breaks), and filters
//! a set of regressed packages down to the ones with no other regressed
//! package among their dependents.

pub mod outcome;
pub mod filter;
pub mod graph;
pub mod registry;
pub mod results;
pub mod urlid;
pub mod version;
