//! Tree and forest construction: recursive balanced bisection of the label
//! set, one classifier group trained per node, repeated for every tree of
//! the forest.

use crate::centroid::{compute_feature_vectors_per_label, labels_contain, Example};
use crate::cluster::{balanced_2means, copy_sparse, count_true, ClusterError};
use crate::config::HyperParam;
use crate::fixed::{MAX_VAL, SCALE};
use crate::model::{validate_features, Model, SparseMat, Tree, TreeNode};
use crate::sparse::{bounded, sorted_strict, IndexValueVec};
use vstd::prelude::*;

verus! {

/// A training failure: malformed input (no examples, no labels, bad
/// hyper-parameters or feature vectors), a numerical failure in
/// clustering, or a trainer that returned a malformed weight matrix.
#[derive(Clone, Copy, Debug, PartialEq, Eq, Structural)]
pub enum TrainError {
    InvalidInput,
    Numerical,
    BadWeights,
}

/// The per-node linear-classifier trainer: a black-box fit routine that
/// receives the example subset, one target row per example over `k`
/// outputs, and returns a sparse `k x n_cols` weight matrix. Nothing is
/// assumed of the result; the tree builder validates it.
pub trait Trainer {
    fn train_group(
        &self,
        k: usize,
        examples: &Vec<Example>,
        subset: &Vec<usize>,
        targets: &Vec<Vec<bool>>,
        n_cols: usize,
    ) -> SparseMat;
}

/// Checks that a trainer-returned weight matrix has exactly `k` valid
/// sorted rows over `n_cols` columns; true exactly when it does.
fn validate_matrix(m: &SparseMat, k: usize, n_cols: usize) -> (ok: bool)
    ensures
        ok <==> (m.wf(n_cols as int) && m.rows@.len() == k),
{
    if m.rows.len() != k {
        return false;
    }
    let mut i: usize = 0;
    while i < m.rows.len()
        invariant
            i <= m.rows@.len(),
            forall|t: int|
                0 <= t < i ==> sorted_strict((#[trigger] m.rows@[t])@) && bounded(
                    m.rows@[t]@,
                    MAX_VAL as int,
                ) && crate::sparse::indices_below(m.rows@[t]@, n_cols as int),
        decreases m.rows@.len() - i,
    {
        if !validate_features(&m.rows[i], n_cols) {
            proof {
                assert(!m.wf(n_cols as int)) by {
                    if m.wf(n_cols as int) {
                        assert(sorted_strict(m.rows@[i as int]@) && bounded(
                            m.rows@[i as int]@,
                            MAX_VAL as int,
                        ) && crate::sparse::indices_below(m.rows@[i as int]@, n_cols as int));
                    }
                }
            }
            return false;
        }
        i = i + 1;
    }
    true
}

/// Powers of two, for the uniform-depth recursion budget.
pub open spec fn pow2(d: nat) -> int
    decreases d,
{
    if d == 0 {
        1
    } else {
        2 * pow2((d - 1) as nat)
    }
}

/// Builds one subtree of the label tree, `depth` levels deep: a leaf with
/// one classifier per label at depth zero, otherwise a balanced 2-means
/// bisection of the labels with a two-classifier branch above the two
/// recursively built children. The recursion depth is fixed up front, so
/// every leaf sits at the same depth and the tree is uniform.
#[verifier::rlimit(100)]
fn build_node<T: Trainer>(
    trainer: &T,
    examples: &Vec<Example>,
    subset: &Vec<usize>,
    labels: &Vec<u32>,
    centroids: &Vec<IndexValueVec>,
    hp: &HyperParam,
    n_cols: usize,
    seed: u64,
    depth: usize,
) -> (r: Result<TreeNode, TrainError>)
    requires
        labels@.len() == centroids@.len(),
        labels@.len() >= pow2(depth as nat),
        labels@.len() <= 0x1_0000_0000,
        hp.wf(),
        forall|i: int|
            0 <= i < centroids@.len() ==> sorted_strict((#[trigger] centroids@[i])@) && bounded(
                centroids@[i]@,
                SCALE as int,
            ),
        forall|i: int| 0 <= i < subset@.len() ==> (#[trigger] subset@[i]) < examples@.len(),
    ensures
        r matches Ok(node) ==> node.wf(n_cols as int) && node.height() == depth,
        !(r matches Err(e) && e == TrainError::InvalidInput),
    decreases depth,
{
    proof {
        assert(pow2(depth as nat) >= 1) by {
            lemma_pow2_pos(depth as nat);
        }
    }
    if depth == 0 {
        let k = labels.len();
        let mut targets: Vec<Vec<bool>> = Vec::new();
        let mut s: usize = 0;
        while s < subset.len()
            invariant
                s <= subset@.len(),
                k == labels@.len(),
                forall|i: int| 0 <= i < subset@.len() ==> (#[trigger] subset@[i]) < examples@.len(),
            decreases subset@.len() - s,
        {
            let mut row: Vec<bool> = Vec::new();
            let mut t: usize = 0;
            while t < k
                invariant
                    t <= k,
                    k == labels@.len(),
                    s < subset@.len(),
                    forall|i: int|
                        0 <= i < subset@.len() ==> (#[trigger] subset@[i]) < examples@.len(),
                decreases k - t,
            {
                row.push(labels_contain(&examples[subset[s]].labels, labels[t]));
                t = t + 1;
            }
            targets.push(row);
            s = s + 1;
        }
        let wm = trainer.train_group(k, examples, subset, &targets, n_cols);
        if !validate_matrix(&wm, k, n_cols) {
            return Err(TrainError::BadWeights);
        }
        let mut leaf_labels: Vec<u32> = Vec::new();
        let mut q: usize = 0;
        while q < labels.len()
            invariant
                q <= labels@.len(),
                leaf_labels@ == labels@.take(q as int),
            decreases labels@.len() - q,
        {
            leaf_labels.push(labels[q]);
            proof {
                assert(labels@.take(q + 1) == labels@.take(q as int).push(labels@[q as int]));
            }
            q = q + 1;
        }
        proof {
            assert(labels@.take(labels@.len() as int) == labels@);
        }
        return Ok(TreeNode::LeafNode { weight_matrix: wm, labels: leaf_labels });
    }
    let n = labels.len();
    proof {
        assert(pow2(depth as nat) >= 2) by {
            lemma_pow2_pos((depth - 1) as nat);
        }
    }
    let partition = match balanced_2means(centroids, hp.cluster_epsilon, seed) {
        Ok(x) => x.0,
        Err(ClusterError::Numerical) => {
            return Err(TrainError::Numerical);
        },
    };
    let mut labels0: Vec<u32> = Vec::new();
    let mut labels1: Vec<u32> = Vec::new();
    let mut cents0: Vec<IndexValueVec> = Vec::new();
    let mut cents1: Vec<IndexValueVec> = Vec::new();
    let mut i: usize = 0;
    while i < n
        invariant
            i <= n,
            n == labels@.len(),
            n == centroids@.len(),
            partition@.len() == n,
            labels0@.len() == cents0@.len(),
            labels1@.len() == cents1@.len(),
            labels0@.len() + labels1@.len() == i,
            labels1@.len() == count_true(partition@.take(i as int)),
            forall|t: int|
                0 <= t < centroids@.len() ==> sorted_strict((#[trigger] centroids@[t])@)
                    && bounded(centroids@[t]@, SCALE as int),
            forall|t: int|
                0 <= t < cents0@.len() ==> sorted_strict((#[trigger] cents0@[t])@) && bounded(
                    cents0@[t]@,
                    SCALE as int,
                ),
            forall|t: int|
                0 <= t < cents1@.len() ==> sorted_strict((#[trigger] cents1@[t])@) && bounded(
                    cents1@[t]@,
                    SCALE as int,
                ),
        decreases n - i,
    {
        proof {
            assert(partition@.take(i + 1).drop_last() == partition@.take(i as int));
            assert(partition@.take(i + 1).last() == partition@[i as int]);
        }
        let c = copy_sparse(&centroids[i]);
        if partition[i] {
            labels1.push(labels[i]);
            cents1.push(c);
        } else {
            labels0.push(labels[i]);
            cents0.push(c);
        }
        i = i + 1;
    }
    proof {
        assert(partition@.take(n as int) == partition@);
        lemma_pow2_halves(depth as nat, n as int);
    }
    let mut targets: Vec<Vec<bool>> = Vec::new();
    let mut s: usize = 0;
    while s < subset.len()
        invariant
            s <= subset@.len(),
            forall|i2: int| 0 <= i2 < subset@.len() ==> (#[trigger] subset@[i2]) < examples@.len(),
        decreases subset@.len() - s,
    {
        let mut row: Vec<bool> = Vec::new();
        row.push(intersects(&examples[subset[s]].labels, &labels0));
        row.push(intersects(&examples[subset[s]].labels, &labels1));
        targets.push(row);
        s = s + 1;
    }
    let wm = trainer.train_group(2, examples, subset, &targets, n_cols);
    if !validate_matrix(&wm, 2, n_cols) {
        return Err(TrainError::BadWeights);
    }
    let subset0 = filter_subset(examples, subset, &labels0);
    let subset1 = filter_subset(examples, subset, &labels1);
    let left = match build_node(
        trainer,
        examples,
        &subset0,
        &labels0,
        &cents0,
        hp,
        n_cols,
        seed ^ 0x9e3779b97f4a7c15,
        depth - 1,
    ) {
        Ok(nd) => nd,
        Err(e) => {
            return Err(e);
        },
    };
    let right = match build_node(
        trainer,
        examples,
        &subset1,
        &labels1,
        &cents1,
        hp,
        n_cols,
        seed.wrapping_mul(0x5851f42d4c957f2d).wrapping_add(1),
        depth - 1,
    ) {
        Ok(nd) => nd,
        Err(e) => {
            return Err(e);
        },
    };
    Ok(TreeNode::BranchNode { weight_matrix: wm, left: Box::new(left), right: Box::new(right) })
}

/// Powers of two are positive.
proof fn lemma_pow2_pos(d: nat)
    ensures
        pow2(d) >= 1,
    decreases d,
{
    if d > 0 {
        lemma_pow2_pos((d - 1) as nat);
    }
}

/// A balanced split of at least `2^d` items leaves at least `2^(d-1)` on
/// each side.
proof fn lemma_pow2_halves(d: nat, n: int)
    requires
        d >= 1,
        n >= pow2(d),
    ensures
        n / 2 >= pow2((d - 1) as nat),
        n - n / 2 >= pow2((d - 1) as nat),
{
    lemma_pow2_pos((d - 1) as nat);
}

/// Whether the two label lists share a label.
fn intersects(a: &Vec<u32>, b: &Vec<u32>) -> (r: bool)
    ensures
        r == exists|i: int| 0 <= i < a@.len() && b@.contains(#[trigger] a@[i]),
{
    let mut i: usize = 0;
    while i < a.len()
        invariant
            i <= a@.len(),
            forall|t: int| 0 <= t < i ==> !b@.contains(#[trigger] a@[t]),
        decreases a@.len() - i,
    {
        if labels_contain(b, a[i]) {
            return true;
        }
        i = i + 1;
    }
    false
}

/// The example indices whose label sets intersect the given labels.
fn filter_subset(examples: &Vec<Example>, subset: &Vec<usize>, labels: &Vec<u32>) -> (r: Vec<usize>)
    requires
        forall|i: int| 0 <= i < subset@.len() ==> (#[trigger] subset@[i]) < examples@.len(),
    ensures
        forall|i: int| 0 <= i < r@.len() ==> (#[trigger] r@[i]) < examples@.len(),
{
    let mut r: Vec<usize> = Vec::new();
    let mut i: usize = 0;
    while i < subset.len()
        invariant
            i <= subset@.len(),
            forall|t: int| 0 <= t < subset@.len() ==> (#[trigger] subset@[t]) < examples@.len(),
            forall|t: int| 0 <= t < r@.len() ==> (#[trigger] r@[t]) < examples@.len(),
        decreases subset@.len() - i,
    {
        if intersects(&examples[subset[i]].labels, labels) {
            r.push(subset[i]);
        }
        i = i + 1;
    }
    r
}

/// Every example's features are sorted and within one unit.
pub open spec fn examples_ok(examples: Seq<Example>) -> bool {
    forall|e: int| 0 <= e < examples.len() ==> (#[trigger] examples[e]).wf()
}

/// Some example carries some label.
pub open spec fn some_label(examples: Seq<Example>) -> bool {
    exists|e: int| 0 <= e < examples.len() && (#[trigger] examples[e]).labels@.len() > 0
}

impl Model {
    /// Trains a forest: label centroids once, then `n_trees` independently
    /// seeded trees of uniform depth, each built by recursive balanced
    /// 2-means bisection with one trained classifier group per node.
    /// Rejects empty or malformed inputs exactly as stated; clustering and
    /// trainer failures are reported as they arise.
    pub fn train<T: Trainer>(
        examples: &Vec<Example>,
        hyper_param: &HyperParam,
        trainer: &T,
        n_features: usize,
    ) -> (r: Result<Model, TrainError>)
        requires
            n_features < 0x7fff_ffff,
        ensures
            r matches Err(e) && e == TrainError::InvalidInput <==> (examples@.len() == 0
                || !hyper_param.wf() || !examples_ok(examples@) || !some_label(examples@) || (
            exists|e: int|
                0 <= e < examples@.len() && !crate::sparse::indices_below(
                    (#[trigger] examples@[e]).features@,
                    n_features as int,
                ))),
            r matches Ok(m) ==> m.wf() && m.n_features == n_features && m.hyper_parm
                == *hyper_param && m.trees@.len() == hyper_param.n_trees,
    {
        if examples.len() == 0 {
            return Err(TrainError::InvalidInput);
        }
        let hp = *hyper_param;
        let hp_ok = hp.n_trees >= 1 && (hp.n_trees as u64) < 0x7fff_ffff_ffff_ffff
            && hp.max_leaf_size >= 1 && hp.cluster_epsilon > 0
            && hp.centroid_threshold >= 0 && hp.linear.c > 0 && hp.linear.eps > 0
            && hp.linear.weight_threshold >= 0 && hp.n_threads >= 1;
        if !hp_ok {
            return Err(TrainError::InvalidInput);
        }
        let mut any_label = false;
        let mut e: usize = 0;
        while e < examples.len()
            invariant
                e <= examples@.len(),
                n_features < 0x7fff_ffff,
                forall|t: int|
                    0 <= t < e ==> (#[trigger] examples@[t]).wf() && crate::sparse::indices_below(
                        examples@[t].features@,
                        n_features as int,
                    ),
                any_label == exists|t: int|
                    0 <= t < e && (#[trigger] examples@[t]).labels@.len() > 0,
            decreases examples@.len() - e,
        {
            if !validate_features(&examples[e].features, n_features) {
                return Err(TrainError::InvalidInput);
            }
            proof {
                assert(examples@[e as int].wf());
            }
            if examples[e].labels.len() > 0 {
                any_label = true;
            }
            e = e + 1;
        }
        if !any_label {
            return Err(TrainError::InvalidInput);
        }
        let (labels, centroids) = match compute_feature_vectors_per_label(
            examples,
            hp.centroid_threshold,
        ) {
            Ok(x) => x,
            Err(ClusterError::Numerical) => {
                return Err(TrainError::Numerical);
            },
        };
        proof {
            let w = choose|t: int|
                0 <= t < examples@.len() && (#[trigger] examples@[t]).labels@.len() > 0;
            assert(examples@[w].labels@.contains(examples@[w].labels@[0]));
            assert(crate::centroid::label_occurs(examples@, examples@[w].labels@[0]));
            assert(labels@.contains(examples@[w].labels@[0]));
            assert(labels@.len() >= 1);
        }
        proof {
            crate::centroid::lemma_labels_sorted_len(labels@);
        }
        let mut depth: usize = 0;
        let mut cap: usize = 1;
        while (labels.len() - 1) / cap + 1 > hp.max_leaf_size && cap <= labels.len() / 2
            invariant
                1 <= cap <= labels@.len(),
                depth + 1 <= cap + 1,
                cap == pow2(depth as nat),
                labels@.len() <= 0x1_0000_0000,
            decreases labels@.len() - cap,
        {
            proof {
                lemma_pow2_mono(depth as nat);
            }
            cap = cap * 2;
            depth = depth + 1;
        }
        let n_cols = n_features + 1;
        let mut subset: Vec<usize> = Vec::new();
        let mut s: usize = 0;
        while s < examples.len()
            invariant
                s <= examples@.len(),
                forall|t: int| 0 <= t < subset@.len() ==> (#[trigger] subset@[t]) < examples@.len(),
            decreases examples@.len() - s,
        {
            subset.push(s);
            s = s + 1;
        }
        let mut trees: Vec<Tree> = Vec::new();
        let mut t: usize = 0;
        while t < hp.n_trees
            invariant
                t <= hp.n_trees,
                hp.wf(),
                hp == *hyper_param,
                examples@.len() > 0,
                examples_ok(examples@),
                some_label(examples@),
                forall|e2: int|
                    0 <= e2 < examples@.len() ==> crate::sparse::indices_below(
                        (#[trigger] examples@[e2]).features@,
                        n_features as int,
                    ),
                n_cols == n_features + 1,
                n_features < 0x7fff_ffff,
                labels@.len() == centroids@.len(),
                1 <= labels@.len() <= 0x1_0000_0000,
                labels@.len() >= pow2(depth as nat),
                forall|i: int|
                    0 <= i < centroids@.len() ==> sorted_strict((#[trigger] centroids@[i])@)
                        && bounded(centroids@[i]@, SCALE as int),
                forall|i: int|
                    0 <= i < subset@.len() ==> (#[trigger] subset@[i]) < examples@.len(),
                trees@.len() == t,
                forall|i: int|
                    0 <= i < t ==> (#[trigger] trees@[i]).root.wf(n_features + 1),
            decreases hp.n_trees - t,
        {
            let seed = hp.seed.wrapping_add((t as u64).wrapping_mul(0x9e3779b97f4a7c15));
            let root = match build_node(
                trainer,
                examples,
                &subset,
                &labels,
                &centroids,
                &hp,
                n_cols,
                seed,
                depth,
            ) {
                Ok(nd) => nd,
                Err(err) => {
                    return Err(err);
                },
            };
            trees.push(Tree { root });
            t = t + 1;
        }
        let m = Model { trees, n_features, hyper_parm: hp };
        proof {
            assert(m.wf());
        }
        Ok(m)
    }
}

/// Powers of two grow.
proof fn lemma_pow2_mono(d: nat)
    ensures
        pow2(d) >= 1,
        pow2((d + 1) as nat) == 2 * pow2(d),
{
    lemma_pow2_pos(d);
}

} // verus!
