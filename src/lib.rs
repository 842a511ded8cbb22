//! Deterministic fixed-point decimal arithmetic on a 256-bit signed integer.
//!
//! `WideInt256` is an exact signed 256-bit integer whose arithmetic is carried
//! out by the Soroban host; `Decimal256` interprets such an integer as a value
//! with eighteen fixed decimal places.

pub mod wide;
pub mod decimal;
pub mod text;
pub mod balance;
pub mod laws;
