//! Arithmetic underneath the factorisation: big integers, residues,
//! sieving, and points on Montgomery curves.

pub mod integer;
pub mod misc;
pub mod modular_arithmetic;
pub mod montgomery_point;
