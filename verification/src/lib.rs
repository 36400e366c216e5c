//! Zero-config gradient boosting for regression and classification.
//!
//! Histogram-binned, second-order (gradient and hessian) boosting with binary trees.
//!
//! - Regression: [`GbmRegressor`] (squared error).
//! - Classification: [`GbmClassifier`] (logistic loss for two classes, softmax for more, chosen
//!   from the labels).
//!
//! A table is a flat row-major slice of `n_rows * n_features` numbers, none of them NaN. Training
//! is deterministic: a small generator ([`rng::SplitMix64`]) drives the subsampling.
//!
//! Numbers are [`F32`] values: IEEE 754 single precision, computed on the bit patterns, so that the
//! contracts say bit for bit what training and prediction give. The exponential and the logarithm,
//! whose last bits the standard library leaves open, are arguments of the functions that need them.
//! A contract then says what comes out for any results that the arguments may have returned.

pub mod batch;
pub mod bins;
pub mod booster;
pub mod classifier;
pub mod distinct;
pub mod float;
pub mod function;
pub mod grid;
pub mod grow;
pub mod laws;
pub mod metrics;
pub mod objective;
pub mod params;
pub mod regressor;
pub mod rng;
pub mod split;
pub mod tree;

pub use batch::{gbm_classify, gbm_classify_proba, gbm_regress};
pub use classifier::GbmClassifier;
pub use float::F32;
pub use metrics::{accuracy, r2_score};
pub use params::GbmParams;
pub use regressor::GbmRegressor;
