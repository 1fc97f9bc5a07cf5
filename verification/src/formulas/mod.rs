//! representation of boolean logic formulas.
//!
//! This module houses the most basic representation of formulas for the library:
//! how a literal is formed, how clauses and cubes are represented, and how a CNF is
//! represented, together with their meaning under an assignment of truth values.

pub mod clause;
pub mod cnf;
pub mod cube;
pub mod literal;
pub mod semantics;
pub mod variable;

pub use clause::Clause;
pub use cnf::CNF;
pub use cube::Cube;
pub use literal::Literal;
pub use variable::Variable;
