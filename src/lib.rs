//! Exact rational arithmetic and a dense simplex tableau built on it.

pub mod gcd;
pub mod fraction;
pub mod laws;
pub mod matrix;
pub mod simplex;
