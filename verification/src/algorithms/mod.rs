//! some algorithms that are already implemented.

pub mod bmc;
pub mod formula_logic;
pub mod ic3_v2;
pub mod invariants;
pub mod pdr;

pub use bmc::BMC;
pub use ic3_v2::IC3V2;
pub use pdr::PDR;
