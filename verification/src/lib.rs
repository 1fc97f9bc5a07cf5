//! Utilities for the creation and use of bit-level symbolic model checking algorithms:
//! boolean formulas in conjunctive normal form, And-Inverter Graphs read from the binary
//! AIGER format, finite state transition systems built from them, SAT solver front ends,
//! and model checking algorithms: bounded model checking, IC3 and PDR.

/// some algorithms that are already implemented.
pub mod algorithms;
/// representation of boolean logic formulas.
pub mod formulas;
/// models like AndInverterGraph and FiniteStateTransitionSystem.
pub mod models;
/// solvers for hard problems.
pub mod solvers;
/// decimal notation and text building blocks.
pub mod text;

