//! A byte-level Markov text model of order eight: training, weighted
//! sampling, generation, and the binary layouts in which a model is stored.

pub mod context;
pub mod dense;
pub mod lcg;
pub mod sparse;
pub mod tally;
pub mod wire;
