//! Gaussian basis set core: a text-format parser for NWChem-style basis
//! definitions, a self-describing binary codec for per-atom shell data,
//! and a lazy per-atom store with load-once semantics.
//!
//! The library is float-free: coefficient values travel as the 64-bit
//! patterns of IEEE-754 doubles. Reading files, listing directories and
//! binding numeric tokens to machine floats belong to the host layer.

pub mod basisparser;
pub mod codec;
pub mod data;
pub mod store;

pub use data::{AtomBasis, BasisError, Shell};
