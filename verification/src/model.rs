//! The model proper: sparse weight matrices, probabilistic label trees, and
//! the forest. Prediction walks each tree with a beam search, multiplying
//! probability-like node scores along the path, then averages the per-label
//! scores over the forest.

use crate::aggregate::{accumulate, lemma_distinct_labels, scores_in_range, sort_pairs_desc};
use crate::config::HyperParam;
use crate::fixed::{
    clamp_spec, div_trunc, margin_of_dot, mul_prob, sigmoid, sigmoid_spec, MARGIN_CAP, MAX_VAL,
    SCALE,
};
use crate::sparse::{
    bounded, dot_dense, dot_dense_spec, indices_below, l2_normalize, norm_val, sorted_strict,
    sqrt_floor, sum_sq, value_at, Entry, IndexValueVec,
};
use vstd::arithmetic::div_mod::{lemma_div_is_ordered, lemma_div_pos_is_pos};
use vstd::prelude::*;

verus! {

/// A group of linear classifiers at one node: one sparse weight row per
/// classifier, over feature indices plus the trailing bias slot.
pub struct SparseMat {
    pub rows: Vec<IndexValueVec>,
}

impl SparseMat {
    /// Every row is sorted, bounded and indexes only columns below `n_cols`.
    pub open spec fn wf(self, n_cols: int) -> bool {
        forall|i: int|
            0 <= i < self.rows@.len() ==> {
                &&& sorted_strict((#[trigger] self.rows@[i])@)
                &&& bounded(self.rows@[i]@, MAX_VAL as int)
                &&& indices_below(self.rows@[i]@, n_cols)
            }
    }
}

/// A node of a probabilistic label tree: a branch with exactly two children
/// (the weight matrix rows aligned with them by position), or a leaf whose
/// weight matrix has one row per label.
pub enum TreeNode {
    BranchNode { weight_matrix: SparseMat, left: Box<TreeNode>, right: Box<TreeNode> },
    LeafNode { weight_matrix: SparseMat, labels: Vec<u32> },
}

impl TreeNode {
    /// Distance to the leaves; well-formed trees are uniform, so this is
    /// the same along every path.
    pub open spec fn height(self) -> nat
        decreases self,
    {
        match self {
            TreeNode::LeafNode { .. } => 0,
            TreeNode::BranchNode { left, right, .. } => 1 + if left.height() >= right.height() {
                left.height()
            } else {
                right.height()
            },
        }
    }

    /// Structural invariant: two children per branch with a two-row weight
    /// matrix, one weight row per label at leaves, all rows over columns
    /// below `n_cols`, and both subtrees of equal height so that a beam
    /// search frontier is always homogeneous.
    pub open spec fn wf(self, n_cols: int) -> bool
        decreases self,
    {
        match self {
            TreeNode::LeafNode { weight_matrix, labels } => {
                &&& weight_matrix.wf(n_cols)
                &&& weight_matrix.rows@.len() == labels@.len()
            },
            TreeNode::BranchNode { weight_matrix, left, right } => {
                &&& weight_matrix.wf(n_cols)
                &&& weight_matrix.rows@.len() == 2
                &&& left.wf(n_cols)
                &&& right.wf(n_cols)
                &&& left.height() == right.height()
            },
        }
    }

    /// The labels reachable in this subtree.
    pub open spec fn label_set(self) -> Set<u32>
        decreases self,
    {
        match self {
            TreeNode::LeafNode { labels, .. } => labels@.to_set(),
            TreeNode::BranchNode { left, right, .. } => left.label_set().union(right.label_set()),
        }
    }

    /// Whether this node is a leaf.
    pub fn is_leaf(&self) -> (r: bool)
        ensures
            r <==> self is LeafNode,
            r <==> self.height() == 0,
    {
        match self {
            TreeNode::LeafNode { .. } => true,
            TreeNode::BranchNode { .. } => false,
        }
    }
}

/// One probabilistic label tree.
pub struct Tree {
    pub root: TreeNode,
}

/// A forest of label trees plus the feature-space size and the
/// hyper-parameters it was trained with.
pub struct Model {
    pub trees: Vec<Tree>,
    pub n_features: usize,
    pub hyper_parm: HyperParam,
}

impl Model {
    /// At least one tree, all trees well-formed over `n_features + 1`
    /// columns (features plus the bias slot), and sane hyper-parameters.
    pub open spec fn wf(self) -> bool {
        &&& self.trees@.len() >= 1
        &&& self.n_features < 0x7fff_ffff_ffff_ffff
        &&& self.n_features < usize::MAX
        &&& self.trees@.len() < 0x7fff_ffff_ffff_ffff
        &&& forall|t: int|
            0 <= t < self.trees@.len() ==> (#[trigger] self.trees@[t]).root.wf(
                self.n_features + 1,
            )
        &&& self.hyper_parm.wf()
    }
}

/// A dense feature vector ready for prediction: every slot within one unit.
pub open spec fn dense_wf(d: Seq<i64>) -> bool {
    forall|i: int| 0 <= i < d.len() ==> -SCALE <= #[trigger] d[i] <= SCALE
}

/// The probability-like score one classifier row assigns to a dense feature
/// vector: the raw margin, rescaled, clamped and passed through the
/// logistic transform.
pub open spec fn row_score_spec(row: Seq<Entry>, dense: Seq<i64>) -> int {
    sigmoid_spec(
        clamp_spec(
            div_trunc(dot_dense_spec(row, dense), SCALE as int),
            -MARGIN_CAP as int,
            MARGIN_CAP as int,
        ),
    )
}

/// Evaluates a whole classifier group on one dense feature vector: one
/// probability-like score per row, each in `[0, SCALE]`.
pub fn predict_with_classifier_group(dense: &Vec<i64>, weight_matrix: &SparseMat) -> (scores: Vec<
    i64,
>)
    requires
        weight_matrix.wf(dense@.len() as int),
        dense_wf(dense@),
    ensures
        scores@.len() == weight_matrix.rows@.len(),
        forall|i: int|
            0 <= i < scores@.len() ==> #[trigger] scores@[i] == row_score_spec(
                weight_matrix.rows@[i]@,
                dense@,
            ),
        forall|i: int| 0 <= i < scores@.len() ==> 0 <= #[trigger] scores@[i] <= SCALE,
{
    let mut scores: Vec<i64> = Vec::new();
    let mut i: usize = 0;
    while i < weight_matrix.rows.len()
        invariant
            i <= weight_matrix.rows@.len(),
            weight_matrix.wf(dense@.len() as int),
            dense_wf(dense@),
            scores@.len() == i,
            forall|t: int|
                0 <= t < i ==> #[trigger] scores@[t] == row_score_spec(
                    weight_matrix.rows@[t]@,
                    dense@,
                ),
            forall|t: int| 0 <= t < i ==> 0 <= #[trigger] scores@[t] <= SCALE,
        decreases weight_matrix.rows@.len() - i,
    {
        let d = dot_dense(&weight_matrix.rows[i], dense);
        let m = margin_of_dot(d);
        let s = sigmoid(m);
        scores.push(s);
        i = i + 1;
    }
    scores
}

/// A beam-search frontier entry: a node still in play and the product of
/// probability-like scores along the path to it.
pub type FrontierEntry<'a> = (&'a TreeNode, i64);

/// Whether any of the first `upto` trees emits label `l` for this input.
pub open spec fn forest_emits(
    trees: Seq<Tree>,
    dense: Seq<i64>,
    beam: int,
    l: u32,
    upto: int,
) -> bool
    decreases upto,
{
    if upto <= 0 {
        false
    } else {
        forest_emits(trees, dense, beam, l, upto - 1) || crate::aggregate::has_entry(
            tree_predict_spec(trees[upto - 1], dense, beam),
            l,
        )
    }
}

/// Every frontier entry is a well-formed node of height `h` whose labels
/// come from `root`, carrying a score in `[0, SCALE]`.
pub open spec fn frontier_ok(s: Seq<FrontierEntry<'_>>, h: nat, n_cols: int, root: TreeNode) -> bool {
    forall|k: int|
        0 <= k < s.len() ==> {
            &&& (#[trigger] s[k]).0.wf(n_cols)
            &&& s[k].0.height() == h
            &&& s[k].0.label_set().subset_of(root.label_set())
            &&& 0 <= s[k].1 <= SCALE
        }
}

/// The owned value of a frontier: each entry's node and path score.
pub open spec fn frontier_view<'a>(s: Seq<FrontierEntry<'a>>) -> Seq<(TreeNode, i64)> {
    s.map(|i: int, e: FrontierEntry<'a>| (*e.0, e.1))
}

/// The score of a frontier entry, as the sort key.
pub open spec fn node_score_key() -> spec_fn((TreeNode, i64)) -> int {
    |e: (TreeNode, i64)| e.1 as int
}

/// The score of a `(label, score)` pair, as the sort key.
pub open spec fn entry_score_key() -> spec_fn(Entry) -> int {
    |e: Entry| e.1 as int
}

/// The earliest position of the highest key among the first `upto`
/// entries.
pub open spec fn best_index<T>(s: Seq<T>, key: spec_fn(T) -> int, upto: int) -> int
    decreases upto,
{
    if upto <= 1 {
        0
    } else {
        let b = best_index(s, key, upto - 1);
        if key(s[upto - 1]) > key(s[b]) {
            upto - 1
        } else {
            b
        }
    }
}

/// Stable selection sort by descending key: the earliest highest-keyed
/// entry moves to the front, then the rest are sorted; ties therefore keep
/// their original order.
pub open spec fn sort_desc_by<T>(s: Seq<T>, key: spec_fn(T) -> int) -> Seq<T>
    decreases s.len(),
{
    if s.len() == 0 {
        s
    } else {
        let b0 = best_index(s, key, s.len() as int);
        let b = if 0 <= b0 < s.len() {
            b0
        } else {
            0
        };
        seq![s[b]] + sort_desc_by(s.remove(b), key)
    }
}

/// The stable descending sort keeps the length.
pub proof fn lemma_sort_desc_by_len<T>(s: Seq<T>, key: spec_fn(T) -> int)
    ensures
        sort_desc_by(s, key).len() == s.len(),
    decreases s.len(),
{
    if s.len() > 0 {
        let b0 = best_index(s, key, s.len() as int);
        let b = if 0 <= b0 < s.len() {
            b0
        } else {
            0
        };
        lemma_sort_desc_by_len(s.remove(b), key);
    }
}

/// The next beam level: every branch is replaced by its two children, each
/// scored by the parent's path score times the child's classifier score.
pub open spec fn expand_level(level: Seq<(TreeNode, i64)>, dense: Seq<i64>) -> Seq<(TreeNode, i64)>
    decreases level.len(),
{
    if level.len() == 0 {
        Seq::empty()
    } else {
        (match level[0].0 {
            TreeNode::BranchNode { weight_matrix, left, right } => seq![
                (
                    *left,
                    ((level[0].1 * row_score_spec(weight_matrix.rows@[0]@, dense)) / (
                    SCALE as int)) as i64,
                ),
                (
                    *right,
                    ((level[0].1 * row_score_spec(weight_matrix.rows@[1]@, dense)) / (
                    SCALE as int)) as i64,
                ),
            ],
            TreeNode::LeafNode { .. } => seq![level[0]],
        }) + expand_level(level.drop_first(), dense)
    }
}

/// One leaf's scored labels: each label paired with the path score times
/// its classifier row's score.
pub open spec fn leaf_label_outputs(
    labels: Seq<u32>,
    rows: Seq<IndexValueVec>,
    s: i64,
    dense: Seq<i64>,
) -> Seq<Entry>
    decreases labels.len(),
{
    if labels.len() == 0 {
        Seq::empty()
    } else {
        seq![
            (labels[0], ((s * row_score_spec(rows[0]@, dense)) / (SCALE as int)) as i64),
        ] + leaf_label_outputs(labels.drop_first(), rows.drop_first(), s, dense)
    }
}

/// The scored labels of a frontier of leaves, in frontier order.
pub open spec fn leaf_outputs(level: Seq<(TreeNode, i64)>, dense: Seq<i64>) -> Seq<Entry>
    decreases level.len(),
{
    if level.len() == 0 {
        Seq::empty()
    } else {
        (match level[0].0 {
            TreeNode::LeafNode { weight_matrix, labels } => leaf_label_outputs(
                labels@,
                weight_matrix.rows@,
                level[0].1,
                dense,
            ),
            TreeNode::BranchNode { .. } => Seq::empty(),
        }) + leaf_outputs(level.drop_first(), dense)
    }
}

/// The beam search, level by level: prune to the beam with the stable
/// descending sort, stop at a frontier of leaves, otherwise expand every
/// survivor and recurse one level deeper.
pub open spec fn beam_search_spec(
    curr: Seq<(TreeNode, i64)>,
    dense: Seq<i64>,
    beam: int,
    fuel: nat,
) -> Seq<Entry>
    decreases fuel,
{
    let pruned = if curr.len() > beam {
        sort_desc_by(curr, node_score_key()).take(beam)
    } else {
        curr
    };
    if pruned.len() == 0 {
        Seq::empty()
    } else if pruned[0].0 is LeafNode {
        leaf_outputs(pruned, dense)
    } else if fuel == 0 {
        Seq::empty()
    } else {
        beam_search_spec(expand_level(pruned, dense), dense, beam, (fuel - 1) as nat)
    }
}

/// A whole tree's prediction: the beam search from the root with one unit
/// of path score.
pub open spec fn tree_predict_spec(t: Tree, dense: Seq<i64>, beam: int) -> Seq<Entry> {
    beam_search_spec(seq![(t.root, SCALE)], dense, beam, t.root.height())
}

/// The dense feature vector prediction runs on: the l2-normalized input
/// value at every feature slot, and one unit in the trailing bias slot.
pub open spec fn prepared_dense(n_features: int, sparse: Seq<Entry>) -> Seq<i64> {
    Seq::new(
        (n_features + 1) as nat,
        |j: int|
            if j == n_features {
                SCALE
            } else if sum_sq(sparse) == 0 {
                0i64
            } else {
                norm_val(value_at(sparse, j), sum_sq(sparse)) as i64
            },
    )
}

/// The summed score label `l` receives from the first `upto` trees of the
/// forest.
pub open spec fn forest_total(
    trees: Seq<Tree>,
    dense: Seq<i64>,
    beam: int,
    l: u32,
    upto: int,
) -> int
    decreases upto,
{
    if upto <= 0 {
        0
    } else {
        forest_total(trees, dense, beam, l, upto - 1) + crate::aggregate::sum_for(
            tree_predict_spec(trees[upto - 1], dense, beam),
            l,
        )
    }
}

/// Scores never increase along the sequence.
pub open spec fn sorted_desc<'a>(s: Seq<FrontierEntry<'a>>) -> bool {
    forall|i: int, j: int| 0 <= i < j < s.len() ==> s[i].1 >= s[j].1
}

/// `frontier_ok` depends only on which entries occur, so any permutation
/// preserves it.
proof fn lemma_frontier_permutation(
    a: Seq<FrontierEntry<'_>>,
    b: Seq<FrontierEntry<'_>>,
    h: nat,
    n_cols: int,
    root: TreeNode,
)
    requires
        frontier_ok(a, h, n_cols, root),
        a.to_multiset() == b.to_multiset(),
    ensures
        frontier_ok(b, h, n_cols, root),
{
    broadcast use vstd::seq_lib::group_to_multiset_ensures;
    broadcast use vstd::multiset::group_multiset_axioms;

    assert forall|k: int| 0 <= k < b.len() implies {
        &&& (#[trigger] b[k]).0.wf(n_cols)
        &&& b[k].0.height() == h
        &&& b[k].0.label_set().subset_of(root.label_set())
        &&& 0 <= b[k].1 <= SCALE
    } by {
        assert(b.contains(b[k]));
        assert(b.to_multiset().count(b[k]) > 0);
        assert(a.contains(b[k]));
        let j = choose|j: int| 0 <= j < a.len() && a[j] == b[k];
        assert(a[j].0.wf(n_cols));
    }
}

/// Stable selection sort of a frontier by score, descending; ties keep
/// their insertion order ahead of later entries.
fn sort_frontier_desc<'a>(v: &mut Vec<FrontierEntry<'a>>)
    ensures
        final(v)@.len() == old(v)@.len(),
        final(v)@.to_multiset() == old(v)@.to_multiset(),
        sorted_desc(final(v)@),
        frontier_view(final(v)@) == sort_desc_by(frontier_view(old(v)@), node_score_key()),
{
    broadcast use vstd::seq_lib::group_to_multiset_ensures;
    broadcast use vstd::multiset::group_multiset_axioms;

    let ghost orig = v@;
    let mut out: Vec<FrontierEntry<'a>> = Vec::new();
    while v.len() > 0
        invariant
            out@.to_multiset().add(v@.to_multiset()) == orig.to_multiset(),
            out@.len() + v@.len() == orig.len(),
            sorted_desc(out@),
            forall|k: int|
                0 <= k < v@.len() && out@.len() > 0 ==> out@.last().1 >= (#[trigger] v@[k]).1,
            sort_desc_by(frontier_view(orig), node_score_key()) == frontier_view(out@)
                + sort_desc_by(frontier_view(v@), node_score_key()),
        decreases v@.len(),
    {
        let mut best: usize = 0;
        let mut i: usize = 1;
        while i < v.len()
            invariant
                best < i <= v@.len(),
                forall|t: int| 0 <= t < i ==> v@[best as int].1 >= (#[trigger] v@[t]).1,
                best == best_index(frontier_view(v@), node_score_key(), i as int),
            decreases v@.len() - i,
        {
            proof {
                let vw = frontier_view(v@);
                assert(vw[i as int] == (*v@[i as int].0, v@[i as int].1));
                assert(vw[best as int] == (*v@[best as int].0, v@[best as int].1));
                assert(node_score_key()(vw[i as int]) == v@[i as int].1 as int);
                assert(node_score_key()(vw[best as int]) == v@[best as int].1 as int);
            }
            if v[i].1 > v[best].1 {
                best = i;
            }
            i = i + 1;
        }
        let ghost prev = v@;
        proof {
            let vw = frontier_view(prev);
            assert(best == best_index(vw, node_score_key(), vw.len() as int));
            assert(sort_desc_by(vw, node_score_key()) == seq![vw[best as int]] + sort_desc_by(
                vw.remove(best as int),
                node_score_key(),
            ));
        }
        let e = v.remove(best);
        proof {
            broadcast use vstd::seq_lib::group_to_multiset_ensures;
            broadcast use vstd::multiset::group_multiset_axioms;

            assert(prev.contains(prev[best as int]));
            assert(prev.to_multiset().count(prev[best as int]) > 0);
            assert(v@ == prev.remove(best as int));
            assert(prev.remove(best as int).to_multiset() =~= prev.to_multiset().remove(
                prev[best as int],
            ));
            assert(v@.to_multiset() =~= prev.to_multiset().remove(e));
            assert(out@.push(e).to_multiset() =~= out@.to_multiset().insert(e));
            assert(out@.to_multiset().insert(e).add(prev.to_multiset().remove(e))
                =~= orig.to_multiset());
        }
        let ghost out_prev = out@;
        out.push(e);
        proof {
            let vw = frontier_view(prev);
            assert(frontier_view(v@) =~= vw.remove(best as int)) by {
                assert forall|q: int| 0 <= q < v@.len() implies frontier_view(v@)[q]
                    == vw.remove(best as int)[q] by {
                    assert(frontier_view(v@)[q] == (*v@[q].0, v@[q].1));
                    if q < best {
                        assert(vw[q] == (*prev[q].0, prev[q].1));
                    } else {
                        assert(vw[q + 1] == (*prev[q + 1].0, prev[q + 1].1));
                    }
                }
            }
            assert(frontier_view(out@) =~= frontier_view(out_prev).push(vw[best as int])) by {
                assert forall|q: int| 0 <= q < out@.len() implies frontier_view(out@)[q]
                    == frontier_view(out_prev).push(vw[best as int])[q] by {
                    assert(frontier_view(out@)[q] == (*out@[q].0, out@[q].1));
                    if q < out_prev.len() {
                        assert(frontier_view(out_prev)[q] == (*out_prev[q].0, out_prev[q].1));
                    } else {
                        assert(vw[best as int] == (*prev[best as int].0, prev[best as int].1));
                    }
                }
            }
            assert(frontier_view(out_prev).push(vw[best as int]) + sort_desc_by(
                frontier_view(v@),
                node_score_key(),
            ) =~= frontier_view(out_prev) + (seq![vw[best as int]] + sort_desc_by(
                vw.remove(best as int),
                node_score_key(),
            )));
        }
    }
    proof {
        assert(v@.to_multiset().len() == 0);
        assert(out@.to_multiset().add(v@.to_multiset()) =~= out@.to_multiset());
        assert(frontier_view(v@) =~= Seq::<(TreeNode, i64)>::empty());
        assert(frontier_view(out@) + sort_desc_by(frontier_view(v@), node_score_key())
            =~= frontier_view(out@));
    }
    *v = out;
}

impl Tree {
    /// Beam search from the root: keep at most `beam_size` highest-scoring
    /// nodes per level (stable descending sort, ties by insertion order),
    /// descend until the frontier is all leaves, then expand each
    /// surviving leaf's labels. The output is exactly the spec-level beam
    /// search `tree_predict_spec`; in particular every returned score is a
    /// product of the classifier scores along its root-to-leaf path, lies
    /// in `[0, SCALE]`, and every returned label occurs in the tree.
    pub fn predict(&self, dense: &Vec<i64>, beam_size: usize) -> (out: IndexValueVec)
        requires
            self.root.wf(dense@.len() as int),
            dense_wf(dense@),
            beam_size >= 1,
        ensures
            out@ == tree_predict_spec(*self, dense@, beam_size as int),
            forall|k: int| 0 <= k < out@.len() ==> 0 <= (#[trigger] out@[k]).1 <= SCALE,
            forall|k: int|
                0 <= k < out@.len() ==> self.root.label_set().contains((#[trigger] out@[k]).0),
    {
        let ghost n_cols = dense@.len() as int;
        let ghost root = self.root;
        let ghost goal = tree_predict_spec(*self, dense@, beam_size as int);
        let mut curr: Vec<FrontierEntry<'_>> = Vec::new();
        curr.push((&self.root, SCALE));
        proof {
            assert(frontier_view(curr@) =~= seq![(self.root, SCALE)]);
        }
        loop
            invariant_except_break
                curr@.len() >= 1,
                beam_size >= 1,
                self.root.wf(n_cols),
                dense_wf(dense@),
                n_cols == dense@.len(),
                root == self.root,
                frontier_ok(curr@, curr@[0].0.height(), n_cols, root),
                goal == tree_predict_spec(*self, dense@, beam_size as int),
                goal == beam_search_spec(
                    frontier_view(curr@),
                    dense@,
                    beam_size as int,
                    curr@[0].0.height(),
                ),
            ensures
                curr@.len() >= 1,
                frontier_ok(curr@, 0, n_cols, root),
                self.root.wf(n_cols),
                dense_wf(dense@),
                n_cols == dense@.len(),
                root == self.root,
                goal == tree_predict_spec(*self, dense@, beam_size as int),
                goal == leaf_outputs(frontier_view(curr@), dense@),
            decreases curr@[0].0.height(),
        {
            let ghost h = curr@[0].0.height();
            let ghost fv0 = frontier_view(curr@);
            if curr.len() > beam_size {
                let ghost before = curr@;
                sort_frontier_desc(&mut curr);
                proof {
                    lemma_frontier_permutation(before, curr@, h, n_cols, root);
                }
                let ghost sorted = curr@;
                curr.truncate(beam_size);
                proof {
                    assert(frontier_view(curr@) =~= sort_desc_by(fv0, node_score_key()).take(
                        beam_size as int,
                    )) by {
                        assert forall|q: int| 0 <= q < curr@.len() implies frontier_view(curr@)[q]
                            == sort_desc_by(fv0, node_score_key()).take(beam_size as int)[q] by {
                            assert(frontier_view(curr@)[q] == (*curr@[q].0, curr@[q].1));
                            assert(curr@[q] == sorted[q]);
                            assert(frontier_view(sorted)[q] == (*sorted[q].0, sorted[q].1));
                        }
                        assert(sort_desc_by(fv0, node_score_key()).len() == fv0.len()) by {
                            lemma_sort_desc_by_len(fv0, node_score_key());
                        }
                    }
                }
            }
            proof {
                let pruned = if fv0.len() > beam_size as int {
                    sort_desc_by(fv0, node_score_key()).take(beam_size as int)
                } else {
                    fv0
                };
                assert(frontier_view(curr@) =~= pruned);
                assert(frontier_view(curr@)[0] == (*curr@[0].0, curr@[0].1));
            }
            let head = curr[0];
            if head.0.is_leaf() {
                proof {
                    assert(goal == leaf_outputs(frontier_view(curr@), dense@));
                }
                break;
            }
            let ghost cv = frontier_view(curr@);
            proof {
                assert(cv.skip(0) =~= cv);
            }
            let mut next: Vec<FrontierEntry<'_>> = Vec::new();
            let mut i: usize = 0;
            while i < curr.len()
                invariant
                    i <= curr@.len(),
                    curr@.len() >= 1,
                    dense_wf(dense@),
                    n_cols == dense@.len(),
                    frontier_ok(curr@, h, n_cols, root),
                    h >= 1,
                    next@.len() == 2 * i,
                    frontier_ok(next@, (h - 1) as nat, n_cols, root),
                    cv == frontier_view(curr@),
                    expand_level(cv, dense@) == frontier_view(next@) + expand_level(
                        cv.skip(i as int),
                        dense@,
                    ),
                decreases curr@.len() - i,
            {
                let (node, score) = curr[i];
                proof {
                    assert(cv[i as int] == (*curr@[i as int].0, curr@[i as int].1));
                    assert(cv.skip(i as int)[0] == cv[i as int]);
                    assert(cv.skip(i as int).drop_first() =~= cv.skip(i + 1));
                }
                match node {
                    TreeNode::BranchNode { weight_matrix, left, right } => {
                        let cs = predict_with_classifier_group(dense, weight_matrix);
                        let sl = mul_prob(score, cs[0]);
                        let sr = mul_prob(score, cs[1]);
                        let ghost next_prev = next@;
                        next.push((&**left, sl));
                        next.push((&**right, sr));
                        proof {
                            assert(frontier_view(next@) =~= frontier_view(next_prev) + seq![
                                (*(*left), sl),
                                (*(*right), sr),
                            ]) by {
                                assert forall|q: int| 0 <= q < next@.len() implies frontier_view(
                                    next@,
                                )[q] == (frontier_view(next_prev) + seq![
                                    (*(*left), sl),
                                    (*(*right), sr),
                                ])[q] by {
                                    assert(frontier_view(next@)[q] == (*next@[q].0, next@[q].1));
                                    if q < next_prev.len() {
                                        assert(frontier_view(next_prev)[q] == (
                                        *next_prev[q].0,
                                        next_prev[q].1,
                                        ));
                                    }
                                }
                            }
                            assert(expand_level(cv.skip(i as int), dense@) == seq![
                                (*(*left), sl),
                                (*(*right), sr),
                            ] + expand_level(cv.skip(i + 1), dense@));
                            assert(frontier_view(next_prev) + (seq![
                                (*(*left), sl),
                                (*(*right), sr),
                            ] + expand_level(cv.skip(i + 1), dense@)) =~= (frontier_view(next_prev)
                                + seq![(*(*left), sl), (*(*right), sr)]) + expand_level(
                                cv.skip(i + 1),
                                dense@,
                            ));
                        }
                    },
                    TreeNode::LeafNode { .. } => {
                        proof {
                            assert(false);
                        }
                    },
                }
                i = i + 1;
            }
            proof {
                assert(cv.skip(curr@.len() as int).len() == 0);
                assert(expand_level(cv.skip(curr@.len() as int), dense@) == Seq::<(
                    TreeNode,
                    i64,
                )>::empty());
                assert(frontier_view(next@) + expand_level(cv.skip(curr@.len() as int), dense@)
                    =~= frontier_view(next@));
                assert(expand_level(cv, dense@) == frontier_view(next@));
            }
            curr = next;
            proof {
                assert(curr@.len() >= 1);
                assert(frontier_view(curr@)[0] == (*curr@[0].0, curr@[0].1));
            }
        }
        let ghost fv = frontier_view(curr@);
        proof {
            assert(fv.skip(0) =~= fv);
        }
        let mut out: IndexValueVec = Vec::new();
        let mut i: usize = 0;
        while i < curr.len()
            invariant
                i <= curr@.len(),
                dense_wf(dense@),
                n_cols == dense@.len(),
                frontier_ok(curr@, 0, n_cols, root),
                fv == frontier_view(curr@),
                leaf_outputs(fv, dense@) == out@ + leaf_outputs(fv.skip(i as int), dense@),
                forall|k: int| 0 <= k < out@.len() ==> 0 <= (#[trigger] out@[k]).1 <= SCALE,
                forall|k: int|
                    0 <= k < out@.len() ==> root.label_set().contains((#[trigger] out@[k]).0),
            decreases curr@.len() - i,
        {
            let (node, score) = curr[i];
            proof {
                assert(fv[i as int] == (*curr@[i as int].0, curr@[i as int].1));
                assert(fv.skip(i as int)[0] == fv[i as int]);
                assert(fv.skip(i as int).drop_first() =~= fv.skip(i + 1));
            }
            match node {
                TreeNode::LeafNode { weight_matrix, labels } => {
                    let ls = predict_with_classifier_group(dense, weight_matrix);
                    proof {
                        assert(leaf_outputs(fv.skip(i as int), dense@) == leaf_label_outputs(
                            labels@,
                            weight_matrix.rows@,
                            score,
                            dense@,
                        ) + leaf_outputs(fv.skip(i + 1), dense@));
                        assert(labels@.skip(0) =~= labels@);
                        assert(weight_matrix.rows@.skip(0) =~= weight_matrix.rows@);
                    }
                    let ghost out_base = out@;
                    let mut k: usize = 0;
                    while k < labels.len()
                        invariant
                            k <= labels@.len(),
                            ls@.len() == labels@.len(),
                            weight_matrix.rows@.len() == labels@.len(),
                            node == curr@[i as int].0,
                            node.label_set() == labels@.to_set(),
                            node.label_set().subset_of(root.label_set()),
                            0 <= score <= SCALE,
                            dense_wf(dense@),
                            forall|t: int| 0 <= t < ls@.len() ==> 0 <= #[trigger] ls@[t] <= SCALE,
                            forall|t: int|
                                0 <= t < ls@.len() ==> #[trigger] ls@[t] == row_score_spec(
                                    weight_matrix.rows@[t]@,
                                    dense@,
                                ),
                            out@ + leaf_label_outputs(
                                labels@.skip(k as int),
                                weight_matrix.rows@.skip(k as int),
                                score,
                                dense@,
                            ) == out_base + leaf_label_outputs(
                                labels@,
                                weight_matrix.rows@,
                                score,
                                dense@,
                            ),
                            forall|t: int|
                                0 <= t < out@.len() ==> 0 <= (#[trigger] out@[t]).1 <= SCALE,
                            forall|t: int|
                                0 <= t < out@.len() ==> root.label_set().contains(
                                    (#[trigger] out@[t]).0,
                                ),
                        decreases labels@.len() - k,
                    {
                        let s = mul_prob(score, ls[k]);
                        proof {
                            assert(labels@.to_set().contains(labels@[k as int]));
                            assert(labels@.skip(k as int)[0] == labels@[k as int]);
                            assert(weight_matrix.rows@.skip(k as int)[0]
                                == weight_matrix.rows@[k as int]);
                            assert(labels@.skip(k as int).drop_first() =~= labels@.skip(k + 1));
                            assert(weight_matrix.rows@.skip(k as int).drop_first()
                                =~= weight_matrix.rows@.skip(k + 1));
                        }
                        out.push((labels[k], s));
                        proof {
                            assert(out@ + leaf_label_outputs(
                                labels@.skip(k + 1),
                                weight_matrix.rows@.skip(k + 1),
                                score,
                                dense@,
                            ) =~= out_base + leaf_label_outputs(
                                labels@,
                                weight_matrix.rows@,
                                score,
                                dense@,
                            ));
                        }
                        k = k + 1;
                    }
                    proof {
                        assert(labels@.skip(labels@.len() as int).len() == 0);
                        assert(leaf_label_outputs(
                            labels@.skip(labels@.len() as int),
                            weight_matrix.rows@.skip(labels@.len() as int),
                            score,
                            dense@,
                        ) == Seq::<Entry>::empty());
                        assert(out@ + leaf_label_outputs(
                            labels@.skip(labels@.len() as int),
                            weight_matrix.rows@.skip(labels@.len() as int),
                            score,
                            dense@,
                        ) =~= out@);
                        assert(out@ + leaf_outputs(fv.skip(i + 1), dense@) =~= out_base + (
                        leaf_label_outputs(labels@, weight_matrix.rows@, score, dense@)
                            + leaf_outputs(fv.skip(i + 1), dense@)));
                        assert(leaf_outputs(fv, dense@) == out@ + leaf_outputs(
                            fv.skip(i + 1),
                            dense@,
                        ));
                    }
                },
                TreeNode::BranchNode { .. } => {
                    proof {
                        assert(false);
                    }
                },
            }
            i = i + 1;
        }
        proof {
            assert(fv.skip(curr@.len() as int).len() == 0);
            assert(leaf_outputs(fv.skip(curr@.len() as int), dense@) == Seq::<Entry>::empty());
            assert(out@ + leaf_outputs(fv.skip(curr@.len() as int), dense@) =~= out@);
        }
        out
    }
}

impl Model {
    /// Checks the whole model invariant at run time: a positive tree
    /// count, in-range sizes and hyper-parameters, and structurally valid
    /// uniform trees. True implies well-formedness, so unverified callers
    /// can guard `save_tokens` or `predict` with it before handing in a
    /// hand-built model.
    pub fn is_well_formed(&self) -> (r: bool)
        ensures
            r ==> self.wf(),
            (self.wf() && crate::codec::heights_ok(*self)) ==> r,
    {
        if self.trees.len() < 1 {
            return false;
        }
        if (self.trees.len() as u64) >= 0x7fff_ffff_ffff_ffff {
            return false;
        }
        if (self.n_features as u64) >= 0x7fff_ffff_ffff_ffff || self.n_features >= usize::MAX {
            return false;
        }
        let hp = self.hyper_parm;
        let hp_ok = hp.n_trees >= 1 && (hp.n_trees as u64) < 0x7fff_ffff_ffff_ffff
            && hp.max_leaf_size >= 1 && hp.cluster_epsilon > 0 && hp.centroid_threshold >= 0
            && hp.linear.c > 0 && hp.linear.eps > 0 && hp.linear.weight_threshold >= 0
            && hp.n_threads >= 1;
        if !hp_ok {
            return false;
        }
        let n_cols = self.n_features + 1;
        let mut t: usize = 0;
        while t < self.trees.len()
            invariant
                t <= self.trees@.len(),
                n_cols == self.n_features + 1,
                self.n_features < usize::MAX,
                forall|i: int|
                    0 <= i < t ==> (#[trigger] self.trees@[i]).root.wf(self.n_features + 1),
            decreases self.trees@.len() - t,
        {
            let ok = match node_wf_height(&self.trees[t].root, n_cols) {
                None => false,
                Some(_) => true,
            };
            if !ok {
                proof {
                    assert(!(self.wf() && crate::codec::heights_ok(*self))) by {
                        if self.wf() && crate::codec::heights_ok(*self) {
                            assert(self.trees@[t as int].root.wf(self.n_features + 1));
                            assert(self.trees@[t as int].root.height() < 0xffff_ffff_ffff_ffff);
                        }
                    }
                }
                return false;
            }
            t = t + 1;
        }
        true
    }
}

/// A prediction failure: a malformed input (unsorted, duplicate or
/// out-of-range feature index, an overlarge value, or a zero beam size), or
/// a numerical failure (an aggregated score outgrew its range).
#[derive(Clone, Copy, Debug, PartialEq, Eq, Structural)]
pub enum PredictError {
    InvalidInput,
    Numerical,
}

/// An acceptable prediction input: sorted, duplicate-free feature indices,
/// all below the model's feature count, with machine-representable values.
pub open spec fn valid_features(s: Seq<Entry>, n_features: int) -> bool {
    &&& sorted_strict(s)
    &&& indices_below(s, n_features)
    &&& bounded(s, MAX_VAL as int)
}

/// Checks `valid_features` at run time.
pub fn validate_features(v: &IndexValueVec, n_features: usize) -> (ok: bool)
    ensures
        ok == valid_features(v@, n_features as int),
{
    let mut i: usize = 0;
    while i < v.len()
        invariant
            i <= v@.len(),
            sorted_strict(v@.take(i as int)),
            indices_below(v@.take(i as int), n_features as int),
            bounded(v@.take(i as int), MAX_VAL as int),
        decreases v@.len() - i,
    {
        let (index, value) = v[i];
        if index as usize >= n_features {
            return false;
        }
        if value > MAX_VAL || value < -MAX_VAL {
            return false;
        }
        if i > 0 {
            let prev = v[i - 1];
            if prev.0 >= index {
                return false;
            }
        }
        proof {
            let t = v@.take(i + 1);
            assert(forall|k: int| 0 <= k < i ==> t[k] == #[trigger] v@.take(i as int)[k]);
            assert(t[i as int] == v@[i as int]);
            assert forall|p: int, q: int| 0 <= p < q < t.len() implies t[p].0 < t[q].0 by {
                if q == i && p < i - 1 {
                    assert(v@.take(i as int)[p].0 < v@.take(i as int)[i - 1].0);
                }
            }
        }
        i = i + 1;
    }
    proof {
        assert(v@.take(v@.len() as int) == v@);
    }
    true
}

impl Model {
    /// Normalizes the sparse input and spreads it over a dense vector of
    /// length `n_features + 1`, with the trailing bias slot set to one
    /// unit. Every dense slot holds the l2-normalized value of the
    /// corresponding input index.
    pub fn prepare_dense_feature_vec(&self, sparse_vec: &IndexValueVec) -> (d: Vec<i64>)
        requires
            self.n_features < 0x7fff_ffff_ffff_ffff,
            valid_features(sparse_vec@, self.n_features as int),
        ensures
            d@.len() == self.n_features + 1,
            dense_wf(d@),
            d@[self.n_features as int] == SCALE,
            forall|f: int|
                0 <= f < self.n_features ==> #[trigger] d@[f] == (if sum_sq(sparse_vec@) == 0 {
                    0
                } else {
                    norm_val(value_at(sparse_vec@, f), sum_sq(sparse_vec@))
                }),
            d@ == prepared_dense(self.n_features as int, sparse_vec@),
    {
        let mut norm: IndexValueVec = Vec::new();
        let mut i: usize = 0;
        while i < sparse_vec.len()
            invariant
                i <= sparse_vec@.len(),
                norm@ == sparse_vec@.take(i as int),
            decreases sparse_vec@.len() - i,
        {
            norm.push(sparse_vec[i]);
            proof {
                assert(sparse_vec@.take(i + 1) == sparse_vec@.take(i as int).push(
                    sparse_vec@[i as int],
                ));
            }
            i = i + 1;
        }
        proof {
            assert(sparse_vec@.take(sparse_vec@.len() as int) == sparse_vec@);
        }
        l2_normalize(&mut norm);
        proof {
            crate::sparse::lemma_sum_sq_props(sparse_vec@);
            let ss = sum_sq(sparse_vec@);
            if ss > 0 {
                crate::sparse::lemma_sqrt_floor_exists(ss);
                let r = sqrt_floor(ss);
                assert(r >= 1) by (nonlinear_arith)
                    requires
                        0 <= r,
                        ss < (r + 1) * (r + 1),
                        ss > 0,
                ;
            }
        }
        let mut d: Vec<i64> = Vec::new();
        let mut k: usize = 0;
        while k < self.n_features
            invariant
                k <= self.n_features,
                self.n_features < 0x7fff_ffff_ffff_ffff,
                d@.len() == k,
                forall|f: int| 0 <= f < k ==> #[trigger] d@[f] == 0,
            decreases self.n_features - k,
        {
            d.push(0);
            k = k + 1;
        }
        d.push(SCALE);
        let mut j: usize = 0;
        while j < norm.len()
            invariant
                j <= norm@.len(),
                d@.len() == self.n_features + 1,
                d@[self.n_features as int] == SCALE,
                dense_wf(d@),
                sorted_strict(norm@),
                bounded(norm@, SCALE as int),
                indices_below(norm@, self.n_features as int),
                forall|f: int|
                    0 <= f < self.n_features ==> #[trigger] d@[f] == value_at(
                        norm@.take(j as int),
                        f,
                    ),
            decreases norm@.len() - j,
        {
            let (index, value) = norm[j];
            d.set(index as usize, value);
            proof {
                let t = norm@.take(j + 1);
                assert(t.drop_last() == norm@.take(j as int));
                assert(t.last() == norm@[j as int]);
            }
            j = j + 1;
        }
        proof {
            assert(norm@.take(norm@.len() as int) == norm@);
            if sum_sq(sparse_vec@) == 0 {
                assert forall|f: int| 0 <= f < self.n_features implies value_at(norm@, f)
                    == 0 by {
                    lemma_value_at_zero(norm@, f);
                }
            } else {
                let ss = sum_sq(sparse_vec@);
                assert forall|f: int| 0 <= f < self.n_features implies value_at(norm@, f)
                    == norm_val(value_at(sparse_vec@, f), ss) by {
                    crate::sparse::lemma_value_at_normalized(sparse_vec@, norm@, ss, f);
                }
            }
            assert(d@ =~= prepared_dense(self.n_features as int, sparse_vec@));
        }
        d
    }

    /// Returns the ranked predictions for one input: per-tree beam-search
    /// scores summed per label over the forest, divided by the tree count,
    /// and sorted by score, descending. Rejects a zero beam size or a
    /// malformed feature vector; reports a numerical failure if a score
    /// total outgrows its range.
    pub fn predict(&self, feature_vec: &IndexValueVec, beam_size: usize) -> (r: Result<
        IndexValueVec,
        PredictError,
    >)
        requires
            self.wf(),
        ensures
            (r matches Err(e) && e == PredictError::InvalidInput) <==> (beam_size == 0
                || !valid_features(feature_vec@, self.n_features as int)),
            r matches Ok(out) ==> {
                &&& forall|i: int, j: int| 0 <= i < j < out@.len() ==> out@[i].1 >= out@[j].1
                &&& forall|i: int, j: int|
                    0 <= i < j < out@.len() ==> out@[i].0 != out@[j].0
                &&& forall|k: int| 0 <= k < out@.len() ==> 0 <= (#[trigger] out@[k]).1 <= MAX_VAL
                &&& forall|k: int|
                    0 <= k < out@.len() ==> (#[trigger] out@[k]).1 == forest_total(
                        self.trees@,
                        prepared_dense(self.n_features as int, feature_vec@),
                        beam_size as int,
                        out@[k].0,
                        self.trees@.len() as int,
                    ) / (self.trees@.len() as int)
                &&& forall|l: u32|
                    #[trigger] forest_total(
                        self.trees@,
                        prepared_dense(self.n_features as int, feature_vec@),
                        beam_size as int,
                        l,
                        self.trees@.len() as int,
                    ) <= MAX_VAL
                &&& forall|l: u32|
                    #[trigger] crate::aggregate::has_entry(out@, l) <==> forest_emits(
                        self.trees@,
                        prepared_dense(self.n_features as int, feature_vec@),
                        beam_size as int,
                        l,
                        self.trees@.len() as int,
                    )
            },
    {
        if beam_size == 0 || !validate_features(feature_vec, self.n_features) {
            return Err(PredictError::InvalidInput);
        }
        let dense = self.prepare_dense_feature_vec(feature_vec);
        let mut total: IndexValueVec = Vec::new();
        let mut t: usize = 0;
        while t < self.trees.len()
            invariant
                t <= self.trees@.len(),
                self.wf(),
                beam_size >= 1,
                valid_features(feature_vec@, self.n_features as int),
                dense@.len() == self.n_features + 1,
                dense_wf(dense@),
                dense@ == prepared_dense(self.n_features as int, feature_vec@),
                sorted_strict(total@),
                scores_in_range(total@, MAX_VAL as int),
                forall|l: u32|
                    #[trigger] crate::aggregate::sum_for(total@, l) == forest_total(
                        self.trees@,
                        dense@,
                        beam_size as int,
                        l,
                        t as int,
                    ),
                forall|l: u32|
                    #[trigger] crate::aggregate::has_entry(total@, l) <==> forest_emits(
                        self.trees@,
                        dense@,
                        beam_size as int,
                        l,
                        t as int,
                    ),
            decreases self.trees@.len() - t,
        {
            let tree_pairs = self.trees[t].predict(&dense, beam_size);
            proof {
                assert(scores_in_range(tree_pairs@, MAX_VAL as int));
                assert(tree_pairs@ == tree_predict_spec(self.trees@[t as int], dense@,
                    beam_size as int));
            }
            let ghost total_before = total@;
            let ok = accumulate(&mut total, &tree_pairs);
            if !ok {
                return Err(PredictError::Numerical);
            }
            proof {
                assert forall|l: u32| #[trigger] crate::aggregate::sum_for(total@, l)
                    == forest_total(
                    self.trees@,
                    dense@,
                    beam_size as int,
                    l,
                    t + 1,
                ) by {
                    assert(crate::aggregate::sum_for(total@, l) == crate::aggregate::sum_for(
                        total_before,
                        l,
                    ) + crate::aggregate::sum_for(tree_pairs@, l));
                }
                assert forall|l: u32| #[trigger] crate::aggregate::has_entry(total@, l)
                    <==> forest_emits(
                    self.trees@,
                    dense@,
                    beam_size as int,
                    l,
                    t + 1,
                ) by {
                    assert(crate::aggregate::has_entry(total@, l) <==> (
                    crate::aggregate::has_entry(total_before, l)
                        || crate::aggregate::has_entry(tree_pairs@, l)));
                }
            }
            t = t + 1;
        }
        proof {
            assert forall|l: u32|
                #[trigger] forest_total(
                    self.trees@,
                    dense@,
                    beam_size as int,
                    l,
                    self.trees@.len() as int,
                ) <= MAX_VAL by {
                crate::aggregate::lemma_sum_for_sorted(total@, l, MAX_VAL as int);
            }
        }
        let n: i64 = self.trees.len() as i64;
        let mut averaged: IndexValueVec = Vec::new();
        let mut k: usize = 0;
        while k < total.len()
            invariant
                k <= total@.len(),
                n >= 1,
                sorted_strict(total@),
                scores_in_range(total@, MAX_VAL as int),
                averaged@.len() == k,
                forall|i: int| 0 <= i < k ==> (#[trigger] averaged@[i]).0 == total@[i].0,
                forall|i: int| 0 <= i < k ==> 0 <= (#[trigger] averaged@[i]).1 <= MAX_VAL,
                forall|i: int|
                    0 <= i < k ==> (#[trigger] averaged@[i]).1 == (total@[i].1 as int) / (
                    n as int),
            decreases total@.len() - k,
        {
            let (label, value) = total[k];
            proof {
                lemma_div_pos_is_pos(value as int, n as int);
                lemma_div_is_ordered(value as int, MAX_VAL as int, n as int);
                lemma_div_is_ordered(0, value as int, n as int);
                assert(MAX_VAL as int / (n as int) <= MAX_VAL) by {
                    vstd::arithmetic::div_mod::lemma_div_is_ordered_by_denominator(
                        MAX_VAL as int,
                        1,
                        n as int,
                    );
                }
            }
            averaged.push((label, value / n));
            k = k + 1;
        }
        proof {
            assert(sorted_strict(averaged@)) by {
                assert(forall|i: int, j: int|
                    0 <= i < j < averaged@.len() ==> (#[trigger] averaged@[i]).0
                        == total@[i].0 && (#[trigger] averaged@[j]).0 == total@[j].0);
            }
        }
        let ghost dense_spec = prepared_dense(self.n_features as int, feature_vec@);
        let ghost nn = self.trees@.len() as int;
        proof {
            assert forall|i: int| 0 <= i < averaged@.len() implies (#[trigger] averaged@[i]).1
                == forest_total(self.trees@, dense_spec, beam_size as int, averaged@[i].0, nn) / (
            nn) by {
                crate::aggregate::lemma_sum_for_sorted(total@, averaged@[i].0, MAX_VAL as int);
                assert(total@[i].0 == averaged@[i].0);
                assert(crate::aggregate::sum_for(total@, averaged@[i].0) == total@[i].1);
            }
        }
        proof {
            assert forall|l: u32| #[trigger] crate::aggregate::has_entry(averaged@, l)
                <==> crate::aggregate::has_entry(total@, l) by {
                if crate::aggregate::has_entry(averaged@, l) {
                    let q = choose|q: int|
                        0 <= q < averaged@.len() && (#[trigger] averaged@[q]).0 == l;
                    assert(total@[q].0 == l);
                }
                if crate::aggregate::has_entry(total@, l) {
                    let q = choose|q: int|
                        0 <= q < total@.len() && (#[trigger] total@[q]).0 == l;
                    assert(averaged@[q].0 == l);
                }
            }
        }
        let ghost pre_sort = averaged@;
        sort_pairs_desc(&mut averaged);
        proof {
            lemma_distinct_labels(pre_sort, averaged@);
            lemma_scores_permutation(pre_sort, averaged@, MAX_VAL as int);
            broadcast use vstd::seq_lib::group_to_multiset_ensures;
            broadcast use vstd::multiset::group_multiset_axioms;

            assert forall|l: u32| #[trigger] crate::aggregate::has_entry(averaged@, l)
                <==> crate::aggregate::has_entry(pre_sort, l) by {
                if crate::aggregate::has_entry(averaged@, l) {
                    let q = choose|q: int|
                        0 <= q < averaged@.len() && (#[trigger] averaged@[q]).0 == l;
                    assert(averaged@.contains(averaged@[q]));
                    assert(averaged@.to_multiset().count(averaged@[q]) > 0);
                    assert(pre_sort.contains(averaged@[q]));
                    let w = choose|w: int|
                        0 <= w < pre_sort.len() && pre_sort[w] == averaged@[q];
                    assert(pre_sort[w].0 == l);
                }
                if crate::aggregate::has_entry(pre_sort, l) {
                    let q = choose|q: int|
                        0 <= q < pre_sort.len() && (#[trigger] pre_sort[q]).0 == l;
                    assert(pre_sort.contains(pre_sort[q]));
                    assert(pre_sort.to_multiset().count(pre_sort[q]) > 0);
                    assert(averaged@.contains(pre_sort[q]));
                    let w = choose|w: int|
                        0 <= w < averaged@.len() && averaged@[w] == pre_sort[q];
                    assert(averaged@[w].0 == l);
                }
            }

            assert forall|k: int| 0 <= k < averaged@.len() implies (#[trigger] averaged@[k]).1
                == forest_total(
                self.trees@,
                dense_spec,
                beam_size as int,
                averaged@[k].0,
                nn,
            ) / nn by {
                assert(averaged@.contains(averaged@[k]));
                assert(averaged@.to_multiset().count(averaged@[k]) > 0);
                assert(pre_sort.contains(averaged@[k]));
                let q = choose|q: int| 0 <= q < pre_sort.len() && pre_sort[q] == averaged@[k];
                assert(pre_sort[q].1 == forest_total(
                    self.trees@,
                    dense_spec,
                    beam_size as int,
                    pre_sort[q].0,
                    nn,
                ) / nn);
            }
        }
        Ok(averaged)
    }
}

/// Checks every row of a weight matrix at run time; true exactly when the
/// matrix is well-formed.
fn mat_rows_ok(m: &SparseMat, n_cols: usize) -> (ok: bool)
    ensures
        ok <==> m.wf(n_cols as int),
{
    let mut i: usize = 0;
    while i < m.rows.len()
        invariant
            i <= m.rows@.len(),
            forall|t: int|
                0 <= t < i ==> sorted_strict((#[trigger] m.rows@[t])@) && bounded(
                    m.rows@[t]@,
                    MAX_VAL as int,
                ) && indices_below(m.rows@[t]@, n_cols as int),
        decreases m.rows@.len() - i,
    {
        if !validate_features(&m.rows[i], n_cols) {
            proof {
                assert(!m.wf(n_cols as int)) by {
                    if m.wf(n_cols as int) {
                        assert(sorted_strict(m.rows@[i as int]@) && bounded(
                            m.rows@[i as int]@,
                            MAX_VAL as int,
                        ) && indices_below(m.rows@[i as int]@, n_cols as int));
                    }
                }
            }
            return false;
        }
        i = i + 1;
    }
    true
}

/// Checks one subtree's structural invariants at run time, returning its
/// height when they hold.
fn node_wf_height(n: &TreeNode, n_cols: usize) -> (r: Option<u64>)
    ensures
        r matches Some(h) ==> n.wf(n_cols as int) && h == n.height(),
        (n.wf(n_cols as int) && n.height() < 0xffff_ffff_ffff_ffff) ==> r is Some,
    decreases *n,
{
    match n {
        TreeNode::LeafNode { weight_matrix, labels } => {
            if weight_matrix.rows.len() != labels.len() {
                return None;
            }
            if !mat_rows_ok(weight_matrix, n_cols) {
                return None;
            }
            Some(0)
        },
        TreeNode::BranchNode { weight_matrix, left, right } => {
            if weight_matrix.rows.len() != 2 {
                return None;
            }
            if !mat_rows_ok(weight_matrix, n_cols) {
                return None;
            }
            let hl = match node_wf_height(&**left, n_cols) {
                None => {
                    return None;
                },
                Some(h) => h,
            };
            let hr = match node_wf_height(&**right, n_cols) {
                None => {
                    return None;
                },
                Some(h) => h,
            };
            if hl != hr || hl == u64::MAX {
                return None;
            }
            Some(hl + 1)
        },
    }
}

/// A sparse vector with a zero sum of squares holds zero everywhere.
proof fn lemma_value_at_zero(s: Seq<Entry>, f: int)
    requires
        forall|i: int| 0 <= i < s.len() ==> (#[trigger] s[i]).1 == 0,
    ensures
        value_at(s, f) == 0,
    decreases s.len(),
{
    if s.len() > 0 {
        assert(forall|i: int| 0 <= i < s.len() - 1 ==> #[trigger] s.drop_last()[i] == s[i]);
        lemma_value_at_zero(s.drop_last(), f);
    }
}

/// Score ranges survive any permutation.
proof fn lemma_scores_permutation(a: Seq<Entry>, b: Seq<Entry>, bound: int)
    requires
        scores_in_range(a, bound),
        a.to_multiset() == b.to_multiset(),
    ensures
        scores_in_range(b, bound),
{
    broadcast use vstd::seq_lib::group_to_multiset_ensures;
    broadcast use vstd::multiset::group_multiset_axioms;

    assert forall|k: int| 0 <= k < b.len() implies 0 <= (#[trigger] b[k]).1 <= bound by {
        assert(b.contains(b[k]));
        assert(b.to_multiset().count(b[k]) > 0);
        assert(a.contains(b[k]));
        let j = choose|j: int| 0 <= j < a.len() && a[j] == b[k];
        assert(0 <= a[j].1 <= bound);
    }
}

} // verus!
