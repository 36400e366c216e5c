//! What holds of training and prediction as a whole.

pub mod bounded;
pub mod columns;
pub mod derivatives;
pub mod determinism;
pub mod doubling;
pub mod edges;
pub mod ensemble;
pub mod features;
pub mod newton;
pub mod prediction;
pub mod probability;
pub mod queries;
pub mod rounds;
pub mod sampling;
pub mod scoring;
pub mod softmax;
pub mod starting;
pub mod sums;
pub mod symmetry;
pub mod training;
