//! Inference and parameter estimation for discrete hidden Markov models,
//! with exact rational probability arithmetic, plus the genome-corpus
//! labeling that produces its training data.

pub mod cube;
pub mod corpus;
pub mod error;
pub mod estimate;
pub mod frac;
pub mod genome;
pub mod matrix;
pub mod model;
pub mod params;
pub mod solve;
pub mod train;
