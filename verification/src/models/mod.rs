//! models like AndInverterGraph and FiniteStateTransitionSystem.

pub mod and_inverter_graph;
pub mod finite_state_transition_system;

pub use and_inverter_graph::AndInverterGraph;
pub use finite_state_transition_system::FiniteStateTransitionSystem;
