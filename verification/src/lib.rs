//! Algebraic core of a STARK prover over the 64-bit prime field
//! `p = 2^64 - 2^32 + 1`: NTT-based polynomial arithmetic and the
//! quotienting of execution-trace tables.

pub mod coset_spec;
pub mod division;
pub mod field;
pub mod interpolation_spec;
pub mod modular;
pub mod multivariate;
pub mod number_theory_transform;
pub mod poly_spec;
pub mod polynomial;
pub mod powers_of_two;
pub mod prime;
pub mod products;
pub mod prover;
pub mod stark;
pub mod sums;
pub mod symbolic_spec;
pub mod table;
pub mod transform_spec;
pub mod zerofier_spec;
