//! Training hyper-parameters. Real-valued settings are fixed-point `i64`
//! values scaled by `fixed::SCALE`, like every other quantity in the crate.

use crate::fixed::SCALE;
use vstd::prelude::*;

verus! {

/// The loss a node's linear classifiers were fit with. Both losses share the
/// same logistic score transform at prediction time.
#[derive(Clone, Copy, Debug, PartialEq, Eq, Structural)]
pub enum LossType {
    Hinge,
    Logistic,
}

/// Settings handed to the per-node linear-classifier trainer.
#[derive(Clone, Copy, Debug, PartialEq, Eq, Structural)]
pub struct LinearParam {
    pub loss_type: LossType,
    pub c: i64,
    pub eps: i64,
    pub weight_threshold: i64,
}

/// Model training hyper-parameters.
#[derive(Clone, Copy, Debug, PartialEq, Eq, Structural)]
pub struct HyperParam {
    pub n_trees: usize,
    pub max_leaf_size: usize,
    pub cluster_epsilon: i64,
    pub centroid_threshold: i64,
    pub linear: LinearParam,
    pub n_threads: usize,
    pub seed: u64,
}

impl HyperParam {
    /// Every setting lies in its documented range.
    pub open spec fn wf(self) -> bool {
        &&& self.n_trees >= 1
        &&& self.n_trees < 0x7fff_ffff_ffff_ffff
        &&& self.max_leaf_size >= 1
        &&& self.cluster_epsilon > 0
        &&& self.centroid_threshold >= 0
        &&& self.linear.c > 0
        &&& self.linear.eps > 0
        &&& self.linear.weight_threshold >= 0
        &&& self.n_threads >= 1
    }
}

impl Default for HyperParam {
    /// Three hinge-loss trees, leaves of at most 100 labels, clustering
    /// tolerance of 1e-4 units, and a 0.1-unit weight pruning threshold.
    fn default() -> (d: HyperParam)
        ensures
            d.wf(),
            d.n_trees == 3,
            d.max_leaf_size == 100,
            d.linear.loss_type == LossType::Hinge,
    {
        HyperParam {
            n_trees: 3,
            max_leaf_size: 100,
            cluster_epsilon: 105,
            centroid_threshold: 0,
            linear: LinearParam {
                loss_type: LossType::Hinge,
                c: SCALE,
                eps: SCALE / 10,
                weight_threshold: SCALE / 10,
            },
            n_threads: 1,
            seed: 0x5eed,
        }
    }
}

} // verus!
