//! The sparse representation: each table lists only the bytes it has seen,
//! in the order in which they were first seen, with 32-bit counts.

pub mod freq;
pub mod laws;
pub mod model;
