//! One-dimensional offline bin packing: a workload generator with a known
//! optimum, two greedy placement heuristics, and the statistics that compare
//! them.

pub mod container;
pub mod packing;
pub mod settings;
pub mod solver;
pub mod random;
pub mod generator;
pub mod ordering;
pub mod clock;
pub mod stats;
pub mod bench;
