//! Training parameters.

use crate::float::laws::{lemma_ratio, lemma_unit, ratio};
use crate::float::F32;
use vstd::prelude::*;

verus! {

/// Hyperparameters. The defaults are meant to work untuned.
#[derive(Clone, Debug)]
pub struct GbmParams {
    /// Boosting rounds.
    pub n_estimators: usize,
    /// The factor on each tree's contribution.
    pub learning_rate: F32,
    /// The most splits that a row can meet in a tree.
    pub max_depth: usize,
    /// The fewest sampled rows on either side of a split; zero counts as one.
    pub min_samples_leaf: usize,
    /// The share of the rows that each tree is grown on.
    pub subsample: F32,
    /// The resolution of the histograms, between 2 and 256.
    pub max_bins: usize,
    /// L2 regularization of leaf values.
    pub lambda: F32,
    /// The seed of the subsampling.
    pub seed: u64,
}

impl GbmParams {
    /// The bound on the number of bins of a feature.
    pub open spec fn bin_limit(self) -> nat {
        if self.max_bins < 2 {
            2
        } else if self.max_bins > 256 {
            256
        } else {
            self.max_bins as nat
        }
    }

    /// The bound on the size of a side of a split.
    pub open spec fn min_leaf(self) -> nat {
        if self.min_samples_leaf < 1 {
            1
        } else {
            self.min_samples_leaf as nat
        }
    }
}

/// The parameters that need no tuning.
pub open spec fn default_params() -> GbmParams {
    GbmParams {
        n_estimators: 200,
        learning_rate: ratio(1, 20),
        max_depth: 3,
        min_samples_leaf: 1,
        subsample: ratio(4, 5),
        max_bins: 128,
        lambda: ratio(1, 1),
        seed: 0x9E37_79B9_7F4A_7C15,
    }
}

impl Default for GbmParams {
    fn default() -> (r: Self)
        ensures
            r == default_params(),
    {
        proof {
            vstd::arithmetic::power2::lemma2_to64();
            lemma_ratio(1, 20, 121, 0xcc_cccd);
            lemma_ratio(4, 5, 125, 0xcc_cccd);
            lemma_unit();
        }
        GbmParams {
            n_estimators: 200,
            learning_rate: F32 { bits: 0x3d4c_cccd },
            max_depth: 3,
            min_samples_leaf: 1,
            subsample: F32 { bits: 0x3f4c_cccd },
            max_bins: 128,
            lambda: F32 { bits: 0x3f80_0000 },
            seed: 0x9E37_79B9_7F4A_7C15,
        }
    }
}

} // verus!
