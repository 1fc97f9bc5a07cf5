//! solvers for hard problems.

pub mod sat;
