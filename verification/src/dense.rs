//! The dense representation: each table holds one 16-bit counter for every
//! byte value, and ages the others when one of them is full.

pub mod freq;
pub mod laws;
pub mod model;
