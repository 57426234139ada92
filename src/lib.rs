//! Pedersen commitment parameters and arithmetic, a sparse Merkle tree of
//! commitment leaves, and the constraint check for a state transition.

pub mod pedersen_parameters;
pub mod smt;
pub mod transition;
