//! SAT solvers: the assignments they find and the formats they are called in.

pub mod assignment;
pub mod dimacs;

pub mod sat_response;


pub use assignment::Assignment;
pub use sat_response::SatResponse;

pub mod stateful;
pub mod stateless;

pub use stateful::{CaDiCalSolver, StatefulSatSolver};
pub use stateless::{CadicalSolver, SplrSolver, StatelessSatSolver, VarisatSolver};
