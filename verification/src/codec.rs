//! Model persistence: a token-stream codec for the whole forest. The
//! on-disk format is a flat sequence of `u64` tokens; `enc_model` is its
//! definition, the executable encoder produces exactly that sequence, and
//! the decoder's contract states the round-trip law: decoding any valid
//! model's encoding yields an equal model.

use crate::config::{HyperParam, LinearParam, LossType};
use crate::fixed::MAX_VAL;
use crate::model::{Model, SparseMat, Tree, TreeNode};
use crate::sparse::{bounded, indices_below, sorted_strict, Entry, IndexValueVec};
use vstd::prelude::*;

verus! {

/// One signed value as two tokens: sign flag, then magnitude.
pub open spec fn enc_val(v: int) -> Seq<u64> {
    if v < 0 {
        seq![1u64, (-v) as u64]
    } else {
        seq![0u64, v as u64]
    }
}

/// A row's entries, three tokens each: index, sign, magnitude.
pub open spec fn enc_entries(r: Seq<Entry>) -> Seq<u64>
    decreases r.len(),
{
    if r.len() == 0 {
        Seq::empty()
    } else {
        seq![r[0].0 as u64] + enc_val(r[0].1 as int) + enc_entries(r.drop_first())
    }
}

/// A sparse row: its entry count, then its entries.
pub open spec fn enc_row(r: Seq<Entry>) -> Seq<u64> {
    seq![r.len() as u64] + enc_entries(r)
}

/// A weight matrix's rows, in order.
pub open spec fn enc_rows(rs: Seq<IndexValueVec>) -> Seq<u64>
    decreases rs.len(),
{
    if rs.len() == 0 {
        Seq::empty()
    } else {
        enc_row(rs[0]@) + enc_rows(rs.drop_first())
    }
}

/// A weight matrix: its row count, then its rows.
pub open spec fn enc_mat(m: SparseMat) -> Seq<u64> {
    seq![m.rows@.len() as u64] + enc_rows(m.rows@)
}

/// A leaf's labels, one token each.
pub open spec fn enc_labels(ls: Seq<u32>) -> Seq<u64>
    decreases ls.len(),
{
    if ls.len() == 0 {
        Seq::empty()
    } else {
        seq![ls[0] as u64] + enc_labels(ls.drop_first())
    }
}

/// A tree node: tag 0 for a leaf (label count, labels, weight matrix),
/// tag 1 for a branch (weight matrix, then both children).
pub open spec fn enc_node(n: TreeNode) -> Seq<u64>
    decreases n,
{
    match n {
        TreeNode::LeafNode { weight_matrix, labels } => seq![0u64, labels@.len() as u64]
            + enc_labels(labels@) + enc_mat(weight_matrix),
        TreeNode::BranchNode { weight_matrix, left, right } => seq![1u64] + enc_mat(weight_matrix)
            + enc_node(*left) + enc_node(*right),
    }
}

/// The hyper-parameters as ten tokens.
pub open spec fn enc_hyper(h: HyperParam) -> Seq<u64> {
    seq![
        h.n_trees as u64,
        h.max_leaf_size as u64,
        h.cluster_epsilon as u64,
        h.centroid_threshold as u64,
        if h.linear.loss_type == LossType::Logistic {
            1u64
        } else {
            0u64
        },
        h.linear.c as u64,
        h.linear.eps as u64,
        h.linear.weight_threshold as u64,
        h.n_threads as u64,
        h.seed,
    ]
}

/// The trees of the forest, in order.
pub open spec fn enc_trees(ts: Seq<Tree>) -> Seq<u64>
    decreases ts.len(),
{
    if ts.len() == 0 {
        Seq::empty()
    } else {
        enc_node(ts[0].root) + enc_trees(ts.drop_first())
    }
}

/// The whole model: feature count, hyper-parameters, tree count, trees.
pub open spec fn enc_model(m: Model) -> Seq<u64> {
    seq![m.n_features as u64] + enc_hyper(m.hyper_parm) + seq![m.trees@.len() as u64] + enc_trees(
        m.trees@,
    )
}

/// Deep structural equality of weight matrices, by row contents.
pub open spec fn eq_mat(a: SparseMat, b: SparseMat) -> bool {
    &&& a.rows@.len() == b.rows@.len()
    &&& forall|i: int| 0 <= i < a.rows@.len() ==> (#[trigger] a.rows@[i])@ == b.rows@[i]@
}

/// Deep structural equality of tree nodes, by contents.
pub open spec fn eq_node(a: TreeNode, b: TreeNode) -> bool
    decreases a,
{
    match (a, b) {
        (
            TreeNode::LeafNode { weight_matrix: wa, labels: la },
            TreeNode::LeafNode { weight_matrix: wb, labels: lb },
        ) => eq_mat(wa, wb) && la@ == lb@,
        (
            TreeNode::BranchNode { weight_matrix: wa, left: al, right: ar },
            TreeNode::BranchNode { weight_matrix: wb, left: bl, right: br },
        ) => eq_mat(wa, wb) && eq_node(*al, *bl) && eq_node(*ar, *br),
        _ => false,
    }
}

/// Deep structural equality of models, by contents.
pub open spec fn eq_model(a: Model, b: Model) -> bool {
    &&& a.n_features == b.n_features
    &&& a.hyper_parm == b.hyper_parm
    &&& a.trees@.len() == b.trees@.len()
    &&& forall|i: int|
        0 <= i < a.trees@.len() ==> eq_node((#[trigger] a.trees@[i]).root, b.trees@[i].root)
}

/// Appends one signed value's two tokens.
fn encode_val(out: &mut Vec<u64>, v: i64)
    requires
        -MAX_VAL <= v <= MAX_VAL,
    ensures
        final(out)@ == old(out)@ + enc_val(v as int),
{
    if v < 0 {
        out.push(1);
        out.push((-v) as u64);
    } else {
        out.push(0);
        out.push(v as u64);
    }
    proof {
        assert(final(out)@ =~= old(out)@ + enc_val(v as int));
    }
}

/// Appends one sparse row: entry count, then entries.
fn encode_row(out: &mut Vec<u64>, r: &IndexValueVec)
    requires
        bounded(r@, MAX_VAL as int),
    ensures
        final(out)@ == old(out)@ + enc_row(r@),
{
    out.push(r.len() as u64);
    proof {
        assert(r@.skip(0) =~= r@);
        assert(out@ + enc_entries(r@) =~= old(out)@ + enc_row(r@));
    }
    let mut i: usize = 0;
    while i < r.len()
        invariant
            i <= r@.len(),
            bounded(r@, MAX_VAL as int),
            out@ + enc_entries(r@.skip(i as int)) == old(out)@ + enc_row(r@),
        decreases r@.len() - i,
    {
        let (index, value) = r[i];
        out.push(index as u64);
        encode_val(out, value);
        proof {
            assert(r@.skip(i as int)[0] == r@[i as int]);
            assert(r@.skip(i as int).drop_first() =~= r@.skip(i + 1));
            assert(out@ + enc_entries(r@.skip(i + 1)) =~= old(out)@ + enc_row(r@));
        }
        i = i + 1;
    }
    proof {
        assert(enc_entries(r@.skip(r@.len() as int)).len() == 0);
        assert(out@ =~= out@ + enc_entries(r@.skip(r@.len() as int)));
    }
}

/// Appends one weight matrix: row count, then rows.
fn encode_mat(out: &mut Vec<u64>, m: &SparseMat, Ghost(n_cols): Ghost<int>)
    requires
        m.wf(n_cols),
    ensures
        final(out)@ == old(out)@ + enc_mat(*m),
{
    out.push(m.rows.len() as u64);
    proof {
        assert(m.rows@.skip(0) =~= m.rows@);
        assert(out@ + enc_rows(m.rows@) =~= old(out)@ + enc_mat(*m));
    }
    let mut i: usize = 0;
    while i < m.rows.len()
        invariant
            i <= m.rows@.len(),
            m.wf(n_cols),
            out@ + enc_rows(m.rows@.skip(i as int)) == old(out)@ + enc_mat(*m),
        decreases m.rows@.len() - i,
    {
        encode_row(out, &m.rows[i]);
        proof {
            assert(m.rows@.skip(i as int)[0] == m.rows@[i as int]);
            assert(m.rows@.skip(i as int).drop_first() =~= m.rows@.skip(i + 1));
            assert(out@ + enc_rows(m.rows@.skip(i + 1)) =~= old(out)@ + enc_mat(*m));
        }
        i = i + 1;
    }
    proof {
        assert(enc_rows(m.rows@.skip(m.rows@.len() as int)).len() == 0);
        assert(out@ =~= out@ + enc_rows(m.rows@.skip(m.rows@.len() as int)));
    }
}

/// Appends one subtree, depth-first.
fn encode_node(out: &mut Vec<u64>, n: &TreeNode, Ghost(n_cols): Ghost<int>)
    requires
        n.wf(n_cols),
    ensures
        final(out)@ == old(out)@ + enc_node(*n),
    decreases *n,
{
    match n {
        TreeNode::LeafNode { weight_matrix, labels } => {
            out.push(0);
            out.push(labels.len() as u64);
            proof {
                assert(labels@.skip(0) =~= labels@);
                assert(out@ =~= old(out)@ + seq![0u64, labels@.len() as u64]);
                assert(out@ + enc_labels(labels@) =~= old(out)@ + seq![
                    0u64,
                    labels@.len() as u64,
                ] + enc_labels(labels@));
            }
            let mut i: usize = 0;
            while i < labels.len()
                invariant
                    i <= labels@.len(),
                    out@ + enc_labels(labels@.skip(i as int)) == old(out)@ + seq![
                        0u64,
                        labels@.len() as u64,
                    ] + enc_labels(labels@),
                decreases labels@.len() - i,
            {
                out.push(labels[i] as u64);
                proof {
                    assert(labels@.skip(i as int)[0] == labels@[i as int]);
                    assert(labels@.skip(i as int).drop_first() =~= labels@.skip(i + 1));
                    assert(out@ + enc_labels(labels@.skip(i + 1)) =~= old(out)@ + seq![
                        0u64,
                        labels@.len() as u64,
                    ] + enc_labels(labels@));
                }
                i = i + 1;
            }
            proof {
                assert(enc_labels(labels@.skip(labels@.len() as int)).len() == 0);
                assert(out@ =~= out@ + enc_labels(labels@.skip(labels@.len() as int)));
            }
            encode_mat(out, weight_matrix, Ghost(n_cols));
            proof {
                assert(final(out)@ =~= old(out)@ + enc_node(*n));
            }
        },
        TreeNode::BranchNode { weight_matrix, left, right } => {
            out.push(1);
            encode_mat(out, weight_matrix, Ghost(n_cols));
            encode_node(out, left, Ghost(n_cols));
            encode_node(out, right, Ghost(n_cols));
            proof {
                assert(final(out)@ =~= old(out)@ + enc_node(*n));
            }
        },
    }
}

/// Equal nodes have equal heights.
proof fn lemma_eq_node_height(a: TreeNode, b: TreeNode)
    requires
        eq_node(a, b),
    ensures
        a.height() == b.height(),
    decreases a,
{
    match (a, b) {
        (
            TreeNode::BranchNode { left: al, right: ar, .. },
            TreeNode::BranchNode { left: bl, right: br, .. },
        ) => {
            lemma_eq_node_height(*al, *bl);
            lemma_eq_node_height(*ar, *br);
        },
        _ => {},
    }
}

/// Reads one signed value; accepts only the canonical encoding, so a
/// successful parse reproduces its own tokens.
fn decode_val(s: &Vec<u64>, pos: usize) -> (r: Option<(i64, usize)>)
    ensures
        r matches Some(x) ==> x.1 == pos + 2 && x.1 <= s@.len() && -MAX_VAL <= x.0 <= MAX_VAL
            && s@.subrange(pos as int, pos + 2) == enc_val(x.0 as int),
        forall|v: i64|
            -MAX_VAL <= v <= MAX_VAL && pos + 2 <= s@.len() && s@.subrange(pos as int, pos + 2)
                =~= #[trigger] enc_val(v as int) ==> r == Some((v, (pos + 2) as usize)),
{
    if pos >= s.len() || s.len() - pos < 2 {
        return None;
    }
    let sign = s[pos];
    let mag = s[pos + 1];
    if sign > 1 || mag > MAX_VAL as u64 || (sign == 1 && mag == 0) {
        proof {
            assert forall|v: i64|
                -MAX_VAL <= v <= MAX_VAL && pos + 2 <= s@.len() && s@.subrange(pos as int, pos + 2)
                    =~= #[trigger] enc_val(v as int) implies false by {
                assert(s@[pos as int] == enc_val(v as int)[0]);
                assert(s@[pos + 1] == enc_val(v as int)[1]);
            }
        }
        return None;
    }
    let v: i64 = if sign == 1 {
        -(mag as i64)
    } else {
        mag as i64
    };
    proof {
        assert(s@.subrange(pos as int, pos + 2) =~= enc_val(v as int));
        assert forall|w: i64|
            -MAX_VAL <= w <= MAX_VAL && pos + 2 <= s@.len() && s@.subrange(pos as int, pos + 2)
                =~= #[trigger] enc_val(w as int) implies w == v by {
            assert(s@[pos as int] == enc_val(w as int)[0]);
            assert(s@[pos + 1] == enc_val(w as int)[1]);
        }
    }
    Some((v, pos + 2))
}

/// Reads `count` entries of three tokens each.
fn decode_entries(s: &Vec<u64>, pos: usize, count: usize) -> (r: Option<(IndexValueVec, usize)>)
    requires
        pos <= s@.len(),
    ensures
        r matches Some(x) ==> x.0@.len() == count && x.1 == pos + 3 * count && x.1 <= s@.len()
            && bounded(x.0@, MAX_VAL as int) && s@.subrange(pos as int, x.1 as int) == enc_entries(
            x.0@,
        ),
        forall|es: Seq<Entry>|
            bounded(es, MAX_VAL as int) && es.len() == count && pos + 3 * count <= s@.len()
                && s@.subrange(pos as int, pos + 3 * count) =~= #[trigger] enc_entries(es) ==> (
            r matches Some(x) && x.0@ == es),
    decreases count,
{
    if count == 0 {
        let empty: IndexValueVec = Vec::new();
        proof {
            assert(s@.subrange(pos as int, pos as int) =~= enc_entries(empty@));
            assert(forall|es: Seq<Entry>| es.len() == 0 ==> es =~= empty@);
        }
        return Some((empty, pos));
    }
    proof {
        assert forall|es: Seq<Entry>|
            bounded(es, MAX_VAL as int) && es.len() == count && pos + 3 * count <= s@.len()
                && s@.subrange(pos as int, pos + 3 * count) =~= #[trigger] enc_entries(
                es,
            ) implies (s@[pos as int] == es[0].0 as u64 && s@[pos as int] <= u32::MAX as u64
            && s@.subrange(pos + 1, pos + 3) =~= enc_val(es[0].1 as int) && s@.subrange(
            pos + 3,
            pos + 3 * count,
        ) =~= enc_entries(es.drop_first()) && bounded(es.drop_first(), MAX_VAL as int)) by {
            let tail = enc_val(es[0].1 as int) + enc_entries(es.drop_first());
            assert(enc_entries(es) == seq![es[0].0 as u64] + tail);
            assert(s@.subrange(pos as int, pos + 3 * count)[0] == s@[pos as int]);
            assert forall|q: int| 0 <= q < 2 implies s@.subrange(pos + 1, pos + 3)[q] == enc_val(
                es[0].1 as int,
            )[q] by {
                assert(s@.subrange(pos as int, pos + 3 * count)[q + 1] == enc_entries(es)[q + 1]);
            }
            assert forall|q: int|
                0 <= q < 3 * count - 3 implies s@.subrange(pos + 3, pos + 3 * count)[q]
                == enc_entries(es.drop_first())[q] by {
                assert(s@.subrange(pos as int, pos + 3 * count)[q + 3] == enc_entries(es)[q + 3]);
                assert(enc_entries(es)[q + 3] == tail[q + 2]);
            }
            assert(bounded(es.drop_first(), MAX_VAL as int)) by {
                assert(forall|q: int|
                    0 <= q < es.len() - 1 ==> #[trigger] es.drop_first()[q] == es[q + 1]);
            }
        }
    }
    if pos >= s.len() {
        return None;
    }
    let tok = s[pos];
    if tok > u32::MAX as u64 {
        return None;
    }
    match decode_val(s, pos + 1) {
        None => None,
        Some((v, p2)) => {
            match decode_entries(s, p2, count - 1) {
                None => None,
                Some((mut rest, p3)) => {
                    let ghost tail = rest@;
                    rest.insert(0, (tok as u32, v));
                    proof {
                        assert(rest@ =~= seq![(tok as u32, v)] + tail);
                        assert(rest@.drop_first() =~= tail);
                        assert(s@.subrange(pos as int, p3 as int) =~= enc_entries(rest@)) by {
                            let whole = s@.subrange(pos as int, p3 as int);
                            let rhs = seq![tok] + enc_val(v as int) + enc_entries(tail);
                            assert(enc_entries(rest@) == seq![rest@[0].0 as u64] + enc_val(
                                rest@[0].1 as int,
                            ) + enc_entries(rest@.drop_first()));
                            assert forall|q: int| 0 <= q < whole.len() implies whole[q]
                                == rhs[q] by {
                                if q == 0 {
                                } else if q < 3 {
                                    assert(s@.subrange(pos + 1, pos + 3)[q - 1] == enc_val(
                                        v as int,
                                    )[q - 1]);
                                } else {
                                    assert(s@.subrange(p2 as int, p3 as int)[q - 3]
                                        == enc_entries(tail)[q - 3]);
                                }
                            }
                            assert(whole =~= rhs);
                        }
                    }
                    Some((rest, p3))
                },
            }
        },
    }
}

/// Splitting a subrange that equals a concatenation splits the equation.
proof fn lemma_subrange_cat(s: Seq<u64>, pos: int, a: Seq<u64>, b: Seq<u64>)
    requires
        0 <= pos,
        pos + a.len() + b.len() <= s.len(),
        s.subrange(pos, pos + a.len() + b.len()) == a + b,
    ensures
        s.subrange(pos, pos + a.len()) == a,
        s.subrange(pos + a.len(), pos + a.len() + b.len()) == b,
{
    let w = s.subrange(pos, pos + a.len() + b.len());
    assert forall|q: int| 0 <= q < a.len() implies s.subrange(pos, pos + a.len())[q] == a[q] by {
        assert(w[q] == (a + b)[q]);
    }
    assert forall|q: int|
        0 <= q < b.len() implies s.subrange(pos + a.len(), pos + a.len() + b.len())[q] == b[q] by {
        assert(w[q + a.len()] == (a + b)[q + a.len()]);
    }
    assert(s.subrange(pos, pos + a.len()) =~= a);
    assert(s.subrange(pos + a.len(), pos + a.len() + b.len()) =~= b);
}

/// Every row of the sequence is a valid sparse weight row over `n_cols`
/// columns.
pub open spec fn rows_wf(rs: Seq<IndexValueVec>, n_cols: int) -> bool {
    forall|i: int|
        0 <= i < rs.len() ==> {
            &&& sorted_strict((#[trigger] rs[i])@)
            &&& bounded(rs[i]@, MAX_VAL as int)
            &&& indices_below(rs[i]@, n_cols)
        }
}

/// The two row sequences hold the same entries.
pub open spec fn rows_eq(a: Seq<IndexValueVec>, b: Seq<IndexValueVec>) -> bool {
    a.len() == b.len() && forall|i: int| 0 <= i < a.len() ==> (#[trigger] a[i])@ == b[i]@
}

/// Reads one sparse row (count, then entries) and validates it.
fn decode_row(s: &Vec<u64>, pos: usize, n_cols: usize) -> (r: Option<(IndexValueVec, usize)>)
    requires
        pos <= s@.len(),
    ensures
        r matches Some(x) ==> sorted_strict(x.0@) && bounded(x.0@, MAX_VAL as int)
            && indices_below(x.0@, n_cols as int) && pos < x.1 <= s@.len() && x.1 == pos + 1 + 3
            * x.0@.len() && s@.subrange(pos as int, x.1 as int) == enc_row(x.0@),
        forall|es: Seq<Entry>|
            sorted_strict(es) && bounded(es, MAX_VAL as int) && indices_below(es, n_cols as int)
                && es.len() <= usize::MAX && pos + 1 + 3 * es.len() <= s@.len()
                && s@.subrange(
                pos as int,
                pos + 1 + 3 * es.len(),
            ) =~= #[trigger] enc_row(es) ==> (r is Some && r->Some_0.0@ == es),
{
    proof {
        assert forall|es: Seq<Entry>|
            sorted_strict(es) && bounded(es, MAX_VAL as int) && indices_below(es, n_cols as int)
                && es.len() <= usize::MAX && pos + 1 + 3 * es.len() <= s@.len()
                && s@.subrange(
                pos as int,
                pos + 1 + 3 * es.len(),
            ) =~= #[trigger] enc_row(es) implies (pos < s@.len() && s@[pos as int] == es.len()
            && s@.subrange(pos + 1, pos + 1 + 3 * es.len()) =~= enc_entries(es)) by {
            lemma_enc_entries_len(es);
            lemma_subrange_cat(s@, pos as int, seq![es.len() as u64], enc_entries(es));
            assert(s@.subrange(pos as int, pos + 1)[0] == s@[pos as int]);
        }
    }
    if pos >= s.len() {
        return None;
    }
    let lt = s[pos];
    if lt > usize::MAX as u64 {
        return None;
    }
    let count = lt as usize;
    match decode_entries(s, pos + 1, count) {
        None => None,
        Some((es, p2)) => {
            if crate::model::validate_features(&es, n_cols) {
                proof {
                    lemma_enc_entries_len(es@);
                    assert(s@.subrange(pos as int, p2 as int) =~= enc_row(es@)) by {
                        assert forall|q: int|
                            0 <= q < p2 - pos implies s@.subrange(pos as int, p2 as int)[q]
                            == enc_row(es@)[q] by {
                            if q > 0 {
                                assert(s@.subrange(pos + 1, p2 as int)[q - 1] == enc_entries(
                                    es@,
                                )[q - 1]);
                            }
                        }
                    }
                }
                Some((es, p2))
            } else {
                None
            }
        },
    }
}

/// Reads `count` sparse rows.
#[verifier::rlimit(100)]
fn decode_rows(s: &Vec<u64>, pos: usize, count: usize, n_cols: usize) -> (r: Option<
    (Vec<IndexValueVec>, usize),
>)
    requires
        pos <= s@.len(),
    ensures
        r matches Some(x) ==> x.0@.len() == count && rows_wf(x.0@, n_cols as int) && pos <= x.1
            <= s@.len() && s@.subrange(pos as int, x.1 as int) == enc_rows(x.0@),
        forall|rs: Seq<IndexValueVec>|
            rows_wf(rs, n_cols as int) && rs.len() == count && pos + enc_rows(rs).len()
                <= s@.len() && s@.subrange(pos as int, pos + enc_rows(rs).len())
                =~= #[trigger] enc_rows(rs) ==> (r is Some && rows_eq(r->Some_0.0@, rs)
                && r->Some_0.1 == pos + enc_rows(rs).len()),
    decreases count,
{
    if count == 0 {
        let empty: Vec<IndexValueVec> = Vec::new();
        proof {
            assert(s@.subrange(pos as int, pos as int) =~= enc_rows(empty@));
            assert(forall|rs: Seq<IndexValueVec>| rs.len() == 0 ==> rows_eq(empty@, rs));
        }
        return Some((empty, pos));
    }
    proof {
        assert forall|rs: Seq<IndexValueVec>|
            rows_wf(rs, n_cols as int) && rs.len() == count && pos + enc_rows(rs).len()
                <= s@.len() && s@.subrange(pos as int, pos + enc_rows(rs).len())
                =~= #[trigger] enc_rows(rs) implies (s@.subrange(
            pos as int,
            pos + 1 + 3 * rs[0]@.len(),
        ) =~= enc_row(rs[0]@) && s@.subrange(pos + 1 + 3 * rs[0]@.len(), pos + enc_rows(rs).len())
            =~= enc_rows(rs.drop_first()) && rows_wf(rs.drop_first(), n_cols as int)
            && enc_rows(rs).len() == 1 + 3 * rs[0]@.len() + enc_rows(rs.drop_first()).len()
            && sorted_strict(rs[0]@) && bounded(rs[0]@, MAX_VAL as int) && rs[0]@.len()
            <= usize::MAX && indices_below(
            rs[0]@,
            n_cols as int,
        )) by {
            broadcast use vstd::std_specs::vec::group_vec_axioms;

            assert(rs[0].len() == rs[0]@.len());
            assert(enc_rows(rs) == enc_row(rs[0]@) + enc_rows(rs.drop_first()));
            assert(enc_row(rs[0]@).len() == 1 + 3 * rs[0]@.len()) by {
                lemma_enc_entries_len(rs[0]@);
            }
            lemma_subrange_cat(s@, pos as int, enc_row(rs[0]@), enc_rows(rs.drop_first()));
            assert(rows_wf(rs.drop_first(), n_cols as int)) by {
                assert(forall|q: int|
                    0 <= q < rs.len() - 1 ==> #[trigger] rs.drop_first()[q] == rs[q + 1]);
            }
        }
    }
    match decode_row(s, pos, n_cols) {
        None => {
            proof {
                assert forall|rs: Seq<IndexValueVec>|
                    rows_wf(rs, n_cols as int) && rs.len() == count && pos + enc_rows(rs).len()
                        <= s@.len() && s@.subrange(pos as int, pos + enc_rows(rs).len())
                        =~= #[trigger] enc_rows(rs) implies false by {
                    assert(pos + 1 + 3 * rs[0]@.len() <= s@.len());
                    assert(s@.subrange(pos as int, pos + 1 + 3 * rs[0]@.len()) =~= enc_row(
                        rs[0]@,
                    ));
                }
            }
            None
        },
        Some((row, p2)) => {
            match decode_rows(s, p2, count - 1, n_cols) {
                None => {
                    proof {
                        assert forall|rs: Seq<IndexValueVec>|
                            rows_wf(rs, n_cols as int) && rs.len() == count && pos + enc_rows(
                                rs,
                            ).len() <= s@.len() && s@.subrange(pos as int, pos + enc_rows(rs).len())
                                =~= #[trigger] enc_rows(rs) implies false by {
                            assert(pos + 1 + 3 * rs[0]@.len() <= s@.len());
                            assert(s@.subrange(pos as int, pos + 1 + 3 * rs[0]@.len()) =~= enc_row(
                                rs[0]@,
                            ));
                            assert(row@ == rs[0]@);
                            assert(p2 == pos + 1 + 3 * rs[0]@.len());
                            assert(s@.subrange(p2 as int, pos + enc_rows(rs).len()) =~= enc_rows(
                                rs.drop_first(),
                            ));
                            assert(rs.drop_first().len() == count - 1);
                        }
                    }
                    None
                },
                Some((mut rest, p3)) => {
                    let ghost tail = rest@;
                    let ghost rowv = row@;
                    rest.insert(0, row);
                    proof {
                        broadcast use vstd::std_specs::vec::group_vec_axioms;

                        assert(rest@.drop_first() =~= tail);
                        assert(rest@[0]@ == rowv);
                        assert(enc_rows(rest@) == enc_row(rowv) + enc_rows(tail));
                        assert(s@.subrange(pos as int, p3 as int) =~= enc_rows(rest@)) by {
                            lemma_enc_entries_len(rowv);
                            assert forall|q: int|
                                0 <= q < p3 - pos implies s@.subrange(pos as int, p3 as int)[q]
                                == enc_rows(rest@)[q] by {
                                if q < p2 - pos {
                                    assert(s@.subrange(pos as int, p2 as int)[q] == enc_row(
                                        rowv,
                                    )[q]);
                                } else {
                                    assert(s@.subrange(p2 as int, p3 as int)[q - (p2 - pos)]
                                        == enc_rows(tail)[q - (p2 - pos)]);
                                }
                            }
                        }
                        assert forall|rs: Seq<IndexValueVec>|
                            rows_wf(rs, n_cols as int) && rs.len() == count && pos + enc_rows(
                                rs,
                            ).len() <= s@.len() && s@.subrange(pos as int, pos + enc_rows(rs).len())
                                =~= #[trigger] enc_rows(rs) implies (rows_eq(rest@, rs) && p3 == pos
                            + enc_rows(rs).len()) by {
                            assert(rs[0].len() == rs[0]@.len());
                            assert(rs[0]@.len() <= usize::MAX);
                            lemma_enc_entries_len(rs[0]@);
                            assert(rowv == rs[0]@);
                            assert(rows_eq(tail, rs.drop_first()));
                            assert forall|i: int| 0 <= i < rest@.len() implies (
                            #[trigger] rest@[i])@ == rs[i]@ by {
                                if i > 0 {
                                    assert(tail[i - 1]@ == rs.drop_first()[i - 1]@);
                                    assert(rs.drop_first()[i - 1] == rs[i]);
                                }
                            }
                        }
                    }
                    Some((rest, p3))
                },
            }
        },
    }
}

/// The entry tokens are three per entry.
proof fn lemma_enc_entries_len(r: Seq<Entry>)
    ensures
        enc_entries(r).len() == 3 * r.len(),
    decreases r.len(),
{
    if r.len() > 0 {
        lemma_enc_entries_len(r.drop_first());
    }
}

/// Reads one weight matrix: row count, then rows.
fn decode_mat(s: &Vec<u64>, pos: usize, n_cols: usize) -> (r: Option<(SparseMat, usize)>)
    requires
        pos <= s@.len(),
    ensures
        r matches Some(x) ==> x.0.wf(n_cols as int) && pos < x.1 <= s@.len() && s@.subrange(
            pos as int,
            x.1 as int,
        ) == enc_mat(x.0),
        forall|m: SparseMat|
            m.wf(n_cols as int) && m.rows@.len() <= usize::MAX && pos
                + enc_mat(m).len() <= s@.len() && s@.subrange(pos as int, pos + enc_mat(m).len())
                =~= #[trigger] enc_mat(m) ==> (r is Some && eq_mat(r->Some_0.0, m)
                && r->Some_0.1 == pos + enc_mat(m).len()),
{
    proof {
        assert forall|m: SparseMat|
            m.wf(n_cols as int) && m.rows@.len() <= usize::MAX && pos
                + enc_mat(m).len() <= s@.len() && s@.subrange(pos as int, pos + enc_mat(m).len())
                =~= #[trigger] enc_mat(m) implies (pos < s@.len() && s@[pos as int]
            == m.rows@.len() && s@.subrange(pos + 1, pos + enc_mat(m).len()) =~= enc_rows(
            m.rows@,
        )) by {
            lemma_subrange_cat(s@, pos as int, seq![m.rows@.len() as u64], enc_rows(m.rows@));
            assert(s@.subrange(pos as int, pos + 1)[0] == s@[pos as int]);
        }
    }
    if pos >= s.len() {
        return None;
    }
    let ct = s[pos];
    if ct > usize::MAX as u64 {
        return None;
    }
    let count = ct as usize;
    match decode_rows(s, pos + 1, count, n_cols) {
        None => None,
        Some((rows, p2)) => {
            let m = SparseMat { rows };
            proof {
                assert(s@.subrange(pos as int, p2 as int) =~= enc_mat(m)) by {
                    assert forall|q: int|
                        0 <= q < p2 - pos implies s@.subrange(pos as int, p2 as int)[q] == enc_mat(
                        m,
                    )[q] by {
                        if q > 0 {
                            assert(s@.subrange(pos + 1, p2 as int)[q - 1] == enc_rows(
                                m.rows@,
                            )[q - 1]);
                        }
                    }
                }
            }
            Some((m, p2))
        },
    }
}

/// Reads `count` leaf labels.
#[verifier::rlimit(100)]
fn decode_labels(s: &Vec<u64>, pos: usize, count: usize) -> (r: Option<(Vec<u32>, usize)>)
    requires
        pos <= s@.len(),
    ensures
        r matches Some(x) ==> x.0@.len() == count && x.1 == pos + count && x.1 <= s@.len()
            && s@.subrange(pos as int, x.1 as int) == enc_labels(x.0@),
        forall|ls: Seq<u32>|
            ls.len() == count && pos + count <= s@.len() && s@.subrange(pos as int, pos + count)
                =~= #[trigger] enc_labels(ls) ==> (r is Some && r->Some_0.0@ == ls),
    decreases count,
{
    if count == 0 {
        let empty: Vec<u32> = Vec::new();
        proof {
            assert(s@.subrange(pos as int, pos as int) =~= enc_labels(empty@));
            assert(forall|ls: Seq<u32>| ls.len() == 0 ==> ls =~= empty@);
        }
        return Some((empty, pos));
    }
    proof {
        assert forall|ls: Seq<u32>|
            ls.len() == count && pos + count <= s@.len() && s@.subrange(pos as int, pos + count)
                =~= #[trigger] enc_labels(ls) implies (s@[pos as int] == ls[0] as u64
            && s@.subrange(pos + 1, pos + count) =~= enc_labels(ls.drop_first())) by {
            assert(enc_labels(ls) == seq![ls[0] as u64] + enc_labels(ls.drop_first()));
            assert(enc_labels(ls.drop_first()).len() == ls.len() - 1) by {
                lemma_enc_labels_len(ls.drop_first());
            }
            lemma_subrange_cat(s@, pos as int, seq![ls[0] as u64], enc_labels(ls.drop_first()));
            assert(s@.subrange(pos as int, pos + 1)[0] == s@[pos as int]);
        }
    }
    if pos >= s.len() {
        return None;
    }
    let tok = s[pos];
    if tok > u32::MAX as u64 {
        return None;
    }
    match decode_labels(s, pos + 1, count - 1) {
        None => None,
        Some((mut rest, p2)) => {
            let ghost tail = rest@;
            rest.insert(0, tok as u32);
            proof {
                assert(rest@.drop_first() =~= tail);
                assert(enc_labels(rest@) == seq![rest@[0] as u64] + enc_labels(tail));
                assert(s@.subrange(pos as int, p2 as int) =~= enc_labels(rest@)) by {
                    assert forall|q: int|
                        0 <= q < p2 - pos implies s@.subrange(pos as int, p2 as int)[q]
                        == enc_labels(rest@)[q] by {
                        if q > 0 {
                            assert(s@.subrange(pos + 1, p2 as int)[q - 1] == enc_labels(
                                tail,
                            )[q - 1]);
                        }
                    }
                }
            }
            Some((rest, p2))
        },
    }
}

/// The label tokens are one per label.
proof fn lemma_enc_labels_len(ls: Seq<u32>)
    ensures
        enc_labels(ls).len() == ls.len(),
    decreases ls.len(),
{
    if ls.len() > 0 {
        lemma_enc_labels_len(ls.drop_first());
    }
}

/// Reads one subtree; checks well-formedness (two-row matrices at
/// branches, one row per label at leaves, equal child heights) and returns
/// the node with its height.
#[verifier::rlimit(100)]
fn decode_node(s: &Vec<u64>, pos: usize, n_cols: usize) -> (r: Option<(TreeNode, u64, usize)>)
    requires
        pos <= s@.len(),
    ensures
        r matches Some(x) ==> x.0.wf(n_cols as int) && x.1 == x.0.height() && pos < x.2
            <= s@.len() && s@.subrange(pos as int, x.2 as int) == enc_node(x.0),
        forall|n: TreeNode|
            n.wf(n_cols as int) && n.height() < 0xffff_ffff_ffff_ffff && pos + enc_node(n).len()
                <= s@.len() && s@.subrange(pos as int, pos + enc_node(n).len())
                =~= #[trigger] enc_node(n) ==> (r is Some && eq_node(r->Some_0.0, n)
                && r->Some_0.2 == pos + enc_node(n).len()),
    decreases s@.len() - pos,
{
    proof {
        broadcast use vstd::std_specs::vec::group_vec_axioms;

        assert forall|n: TreeNode|
            n.wf(n_cols as int) && n.height() < 0xffff_ffff_ffff_ffff && pos + enc_node(n).len()
                <= s@.len() && s@.subrange(pos as int, pos + enc_node(n).len())
                =~= #[trigger] enc_node(n) implies ((n matches TreeNode::LeafNode {
            weight_matrix,
            labels,
        } ==> (s@[pos as int] == 0 && pos + 2 <= s@.len() && s@[pos + 1] == labels@.len()
            && labels@.len() <= usize::MAX && pos + 2 + labels@.len() <= s@.len() && s@.subrange(
            pos + 2,
            pos + 2 + labels@.len(),
        ) =~= enc_labels(labels@) && s@.subrange(
            pos + 2 + labels@.len(),
            pos + enc_node(n).len(),
        ) =~= enc_mat(weight_matrix) && weight_matrix.rows@.len() <= usize::MAX
            && weight_matrix.wf(n_cols as int))) && (n matches TreeNode::BranchNode {
            weight_matrix,
            left,
            right,
        } ==> (s@[pos as int] == 1 && s@.subrange(pos + 1, pos + 1 + enc_mat(weight_matrix).len())
            =~= enc_mat(weight_matrix) && s@.subrange(
            pos + 1 + enc_mat(weight_matrix).len(),
            pos + 1 + enc_mat(weight_matrix).len() + enc_node(*left).len(),
        ) =~= enc_node(*left) && s@.subrange(
            pos + 1 + enc_mat(weight_matrix).len() + enc_node(*left).len(),
            pos + enc_node(n).len(),
        ) =~= enc_node(*right) && weight_matrix.rows@.len() <= usize::MAX && weight_matrix.wf(
            n_cols as int,
        ) && left.wf(n_cols as int) && right.wf(n_cols as int) && left.height() < 0xffff_ffff_ffff_ffff
            && right.height() < 0xffff_ffff_ffff_ffff && enc_node(n).len() == 1 + enc_mat(
            weight_matrix,
        ).len() + enc_node(*left).len() + enc_node(*right).len()))) by {
            match n {
                TreeNode::LeafNode { weight_matrix, labels } => {
                    lemma_enc_labels_len(labels@);
                    assert(labels.len() == labels@.len());
                    assert(weight_matrix.rows.len() == weight_matrix.rows@.len());
                    assert(enc_node(n) == seq![0u64, labels@.len() as u64] + (enc_labels(labels@)
                        + enc_mat(weight_matrix)));
                    lemma_subrange_cat(
                        s@,
                        pos as int,
                        seq![0u64, labels@.len() as u64],
                        enc_labels(labels@) + enc_mat(weight_matrix),
                    );
                    lemma_subrange_cat(
                        s@,
                        pos + 2,
                        enc_labels(labels@),
                        enc_mat(weight_matrix),
                    );
                    assert(s@.subrange(pos as int, pos + 2)[0] == s@[pos as int]);
                    assert(s@.subrange(pos as int, pos + 2)[1] == s@[pos + 1]);
                },
                TreeNode::BranchNode { weight_matrix, left, right } => {
                    assert(weight_matrix.rows.len() == weight_matrix.rows@.len());
                    assert(enc_node(n) == seq![1u64] + (enc_mat(weight_matrix) + (enc_node(*left)
                        + enc_node(*right))));
                    lemma_subrange_cat(
                        s@,
                        pos as int,
                        seq![1u64],
                        enc_mat(weight_matrix) + (enc_node(*left) + enc_node(*right)),
                    );
                    lemma_subrange_cat(
                        s@,
                        pos + 1,
                        enc_mat(weight_matrix),
                        enc_node(*left) + enc_node(*right),
                    );
                    lemma_subrange_cat(
                        s@,
                        pos + 1 + enc_mat(weight_matrix).len(),
                        enc_node(*left),
                        enc_node(*right),
                    );
                    assert(s@.subrange(pos as int, pos + 1)[0] == s@[pos as int]);
                },
            }
        }
    }
    if pos >= s.len() {
        return None;
    }
    let tag = s[pos];
    if tag == 0 {
        if pos + 1 >= s.len() {
            return None;
        }
        let lc = s[pos + 1];
        if lc > usize::MAX as u64 {
            return None;
        }
        match decode_labels(s, pos + 2, lc as usize) {
            None => None,
            Some((labels, p2)) => {
                match decode_mat(s, p2, n_cols) {
                    None => None,
                    Some((wm, p3)) => {
                        if wm.rows.len() != labels.len() {
                            return None;
                        }
                        let node = TreeNode::LeafNode { weight_matrix: wm, labels };
                        proof {
                            assert(node.wf(n_cols as int));
                            assert(node.height() == 0);
                            assert(s@.subrange(pos as int, p3 as int) =~= enc_node(node)) by {
                                assert forall|q: int|
                                    0 <= q < p3 - pos implies s@.subrange(pos as int, p3 as int)[q]
                                    == enc_node(node)[q] by {
                                    if q >= 2 && q < p2 - pos {
                                        assert(s@.subrange(pos + 2, p2 as int)[q - 2]
                                            == enc_labels(node->LeafNode_labels@)[q - 2]);
                                    } else if q >= 2 {
                                        assert(s@.subrange(p2 as int, p3 as int)[q - (p2 - pos)]
                                            == enc_mat(node->LeafNode_weight_matrix)[q - (p2
                                            - pos)]);
                                    }
                                }
                            }
                        }
                        Some((node, 0, p3))
                    },
                }
            },
        }
    } else if tag == 1 {
        match decode_mat(s, pos + 1, n_cols) {
            None => None,
            Some((wm, p2)) => {
                if wm.rows.len() != 2 {
                    return None;
                }
                match decode_node(s, p2, n_cols) {
                    None => None,
                    Some((nl, hl, p3)) => {
                        match decode_node(s, p3, n_cols) {
                            None => None,
                            Some((nr, hr, p4)) => {
                                if hl != hr || hl == u64::MAX {
                                    proof {
                                        assert forall|n: TreeNode|
                                            n.wf(n_cols as int) && n.height()
                                                < 0xffff_ffff_ffff_ffff && pos + enc_node(n).len()
                                                <= s@.len() && s@.subrange(
                                                pos as int,
                                                pos + enc_node(n).len(),
                                            ) =~= #[trigger] enc_node(n) implies false by {
                                            match n {
                                                TreeNode::BranchNode {
                                                    weight_matrix,
                                                    left,
                                                    right,
                                                } => {
                                                    lemma_eq_node_height(nl, *left);
                                                    lemma_eq_node_height(nr, *right);
                                                },
                                                TreeNode::LeafNode { .. } => {},
                                            }
                                        }
                                    }
                                    return None;
                                }
                                let node = TreeNode::BranchNode {
                                    weight_matrix: wm,
                                    left: Box::new(nl),
                                    right: Box::new(nr),
                                };
                                proof {
                                    assert(node.wf(n_cols as int));
                                    assert(node.height() == hl + 1);
                                    assert(s@.subrange(pos as int, p4 as int) =~= enc_node(
                                        node,
                                    )) by {
                                        assert(enc_node(node) == seq![1u64] + enc_mat(wm)
                                            + enc_node(nl) + enc_node(nr));
                                        assert forall|q: int|
                                            0 <= q < p4 - pos implies s@.subrange(
                                            pos as int,
                                            p4 as int,
                                        )[q] == enc_node(node)[q] by {
                                            if 0 < q && q < p2 - pos {
                                                assert(s@.subrange(pos + 1, p2 as int)[q - 1]
                                                    == enc_mat(wm)[q - 1]);
                                            } else if p2 - pos <= q < p3 - pos {
                                                assert(s@.subrange(p2 as int, p3 as int)[q - (p2
                                                    - pos)] == enc_node(nl)[q - (p2 - pos)]);
                                            } else if q >= p3 - pos {
                                                assert(s@.subrange(p3 as int, p4 as int)[q - (p3
                                                    - pos)] == enc_node(nr)[q - (p3 - pos)]);
                                            }
                                        }
                                    }
                                    assert forall|n: TreeNode|
                                        n.wf(n_cols as int) && n.height() < 0xffff_ffff_ffff_ffff
                                            && pos + enc_node(n).len() <= s@.len() && s@.subrange(
                                            pos as int,
                                            pos + enc_node(n).len(),
                                        ) =~= #[trigger] enc_node(n) implies (eq_node(node, n)
                                        && p4 == pos + enc_node(n).len()) by {
                                        match n {
                                            TreeNode::BranchNode {
                                                weight_matrix,
                                                left,
                                                right,
                                            } => {},
                                            TreeNode::LeafNode { .. } => {},
                                        }
                                    }
                                }
                                Some((node, hl + 1, p4))
                            },
                        }
                    },
                }
            },
        }
    } else {
        None
    }
}

/// Every tree in the sequence is well-formed over `n_cols` columns with a
/// machine-representable height.
pub open spec fn trees_wf(ts: Seq<Tree>, n_cols: int) -> bool {
    forall|i: int|
        0 <= i < ts.len() ==> (#[trigger] ts[i]).root.wf(n_cols) && ts[i].root.height()
            < 0xffff_ffff_ffff_ffff
}

/// The two tree sequences hold equal trees.
pub open spec fn trees_eq(a: Seq<Tree>, b: Seq<Tree>) -> bool {
    a.len() == b.len() && forall|i: int|
        0 <= i < a.len() ==> eq_node((#[trigger] a[i]).root, b[i].root)
}

/// Reads `count` trees.
#[verifier::rlimit(100)]
fn decode_trees(s: &Vec<u64>, pos: usize, count: usize, n_cols: usize) -> (r: Option<
    (Vec<Tree>, usize),
>)
    requires
        pos <= s@.len(),
    ensures
        r matches Some(x) ==> x.0@.len() == count && trees_wf(x.0@, n_cols as int) && pos <= x.1
            <= s@.len() && s@.subrange(pos as int, x.1 as int) == enc_trees(x.0@),
        forall|ts: Seq<Tree>|
            trees_wf(ts, n_cols as int) && ts.len() == count && pos + enc_trees(ts).len()
                <= s@.len() && s@.subrange(pos as int, pos + enc_trees(ts).len())
                =~= #[trigger] enc_trees(ts) ==> (r is Some && trees_eq(r->Some_0.0@, ts)
                && r->Some_0.1 == pos + enc_trees(ts).len()),
    decreases count,
{
    if count == 0 {
        let empty: Vec<Tree> = Vec::new();
        proof {
            assert(s@.subrange(pos as int, pos as int) =~= enc_trees(empty@));
            assert(forall|ts: Seq<Tree>| ts.len() == 0 ==> trees_eq(empty@, ts));
        }
        return Some((empty, pos));
    }
    proof {
        assert forall|ts: Seq<Tree>|
            trees_wf(ts, n_cols as int) && ts.len() == count && pos + enc_trees(ts).len()
                <= s@.len() && s@.subrange(pos as int, pos + enc_trees(ts).len())
                =~= #[trigger] enc_trees(ts) implies (s@.subrange(
            pos as int,
            pos + enc_node(ts[0].root).len(),
        ) =~= enc_node(ts[0].root) && s@.subrange(
            pos + enc_node(ts[0].root).len(),
            pos + enc_trees(ts).len(),
        ) =~= enc_trees(ts.drop_first()) && trees_wf(ts.drop_first(), n_cols as int)
            && enc_trees(ts).len() == enc_node(ts[0].root).len() + enc_trees(
            ts.drop_first(),
        ).len() && ts[0].root.wf(n_cols as int) && ts[0].root.height()
            < 0xffff_ffff_ffff_ffff) by {
            assert(enc_trees(ts) == enc_node(ts[0].root) + enc_trees(ts.drop_first()));
            lemma_subrange_cat(s@, pos as int, enc_node(ts[0].root), enc_trees(ts.drop_first()));
            assert(trees_wf(ts.drop_first(), n_cols as int)) by {
                assert(forall|q: int|
                    0 <= q < ts.len() - 1 ==> #[trigger] ts.drop_first()[q] == ts[q + 1]);
            }
        }
    }
    match decode_node(s, pos, n_cols) {
        None => None,
        Some((node, h, p2)) => {
            if h == u64::MAX {
                proof {
                    assert forall|ts: Seq<Tree>|
                        trees_wf(ts, n_cols as int) && ts.len() == count && pos + enc_trees(
                            ts,
                        ).len() <= s@.len() && s@.subrange(pos as int, pos + enc_trees(ts).len())
                            =~= #[trigger] enc_trees(ts) implies false by {
                        lemma_eq_node_height(node, ts[0].root);
                    }
                }
                return None;
            }
            match decode_trees(s, p2, count - 1, n_cols) {
                None => None,
                Some((mut rest, p3)) => {
                    let ghost tail = rest@;
                    let ghost nodev = node;
                    rest.insert(0, Tree { root: node });
                    proof {
                        assert(rest@.drop_first() =~= tail);
                        assert(rest@[0].root == nodev);
                        assert(enc_trees(rest@) == enc_node(nodev) + enc_trees(tail));
                        assert(s@.subrange(pos as int, p3 as int) =~= enc_trees(rest@)) by {
                            assert forall|q: int|
                                0 <= q < p3 - pos implies s@.subrange(pos as int, p3 as int)[q]
                                == enc_trees(rest@)[q] by {
                                if q < p2 - pos {
                                    assert(s@.subrange(pos as int, p2 as int)[q] == enc_node(
                                        nodev,
                                    )[q]);
                                } else {
                                    assert(s@.subrange(p2 as int, p3 as int)[q - (p2 - pos)]
                                        == enc_trees(tail)[q - (p2 - pos)]);
                                }
                            }
                        }
                        assert forall|ts: Seq<Tree>|
                            trees_wf(ts, n_cols as int) && ts.len() == count && pos + enc_trees(
                                ts,
                            ).len() <= s@.len() && s@.subrange(pos as int, pos + enc_trees(ts).len())
                                =~= #[trigger] enc_trees(ts) implies (trees_eq(rest@, ts) && p3
                            == pos + enc_trees(ts).len()) by {
                            lemma_eq_node_height(nodev, ts[0].root);
                            assert(trees_eq(tail, ts.drop_first()));
                            assert forall|i: int| 0 <= i < rest@.len() implies eq_node(
                                (#[trigger] rest@[i]).root,
                                ts[i].root,
                            ) by {
                                if i > 0 {
                                    assert(eq_node(tail[i - 1].root, ts.drop_first()[i - 1].root));
                                    assert(ts.drop_first()[i - 1] == ts[i]);
                                }
                            }
                        }
                    }
                    Some((rest, p3))
                },
            }
        },
    }
}

/// Every tree of the model has a machine-representable height.
pub open spec fn heights_ok(m: Model) -> bool {
    forall|t: int|
        0 <= t < m.trees@.len() ==> (#[trigger] m.trees@[t]).root.height() < 0xffff_ffff_ffff_ffff
}

/// Reads a whole model: feature count, hyper-parameters, tree count and
/// trees, enforcing every well-formedness condition along the way.
#[verifier::rlimit(100)]
fn decode_model(s: &Vec<u64>) -> (r: Option<(Model, usize)>)
    ensures
        r matches Some(x) ==> x.0.wf() && x.1 <= s@.len() && s@.subrange(0, x.1 as int)
            == enc_model(x.0),
        forall|m: Model|
            m.wf() && heights_ok(m) && #[trigger] enc_model(m).len() <= s@.len() && s@.subrange(
                0,
                enc_model(m).len() as int,
            ) =~= enc_model(m) ==> (r is Some && eq_model(r->Some_0.0, m) && r->Some_0.1
                == enc_model(m).len()),
{
    proof {
        broadcast use vstd::std_specs::vec::group_vec_axioms;

        assert forall|m: Model|
            m.wf() && heights_ok(m) && #[trigger] enc_model(m).len() <= s@.len() && s@.subrange(
                0,
                enc_model(m).len() as int,
            ) =~= enc_model(m) implies (s@.len() >= 12 && (forall|q: int|
            0 <= q < 12 ==> s@[q] == (seq![m.n_features as u64] + enc_hyper(m.hyper_parm) + seq![
                m.trees@.len() as u64,
            ])[q]) && s@.subrange(12, enc_model(m).len() as int) =~= enc_trees(m.trees@)
            && trees_wf(m.trees@, m.n_features + 1) && m.trees@.len() <= usize::MAX) by {
            let header = seq![m.n_features as u64] + enc_hyper(m.hyper_parm) + seq![
                m.trees@.len() as u64,
            ];
            assert(m.trees.len() == m.trees@.len());
            assert(header.len() == 12);
            assert(enc_model(m) == header + enc_trees(m.trees@));
            lemma_subrange_cat(s@, 0, header, enc_trees(m.trees@));
            assert(trees_wf(m.trees@, m.n_features + 1));
            assert forall|q: int| 0 <= q < 12 implies s@[q] == header[q] by {
                assert(s@.subrange(0, 12)[q] == header[q]);
            }
        }
    }
    if s.len() < 12 {
        return None;
    }
    let nf = s[0];
    if nf >= 0x7fff_ffff_ffff_ffff || nf >= usize::MAX as u64 {
        return None;
    }
    let t1 = s[1];
    let t2 = s[2];
    let t3 = s[3];
    let t4 = s[4];
    let t5 = s[5];
    let t6 = s[6];
    let t7 = s[7];
    let t8 = s[8];
    let t9 = s[9];
    let t10 = s[10];
    let tc = s[11];
    if t1 < 1 || t1 > usize::MAX as u64 || t1 >= 0x7fff_ffff_ffff_ffff || t2 < 1 || t2 > usize::MAX as u64 || t3 < 1 || t3
        > i64::MAX as u64 || t4 > i64::MAX as u64 || t5 > 1 || t6 < 1 || t6 > i64::MAX as u64 || t7
        < 1 || t7 > i64::MAX as u64 || t8 > i64::MAX as u64 || t9 < 1 || t9 > usize::MAX as u64 {
        return None;
    }
    if tc < 1 || tc > usize::MAX as u64 || tc >= 0x7fff_ffff_ffff_ffff {
        return None;
    }
    let hyper = HyperParam {
        n_trees: t1 as usize,
        max_leaf_size: t2 as usize,
        cluster_epsilon: t3 as i64,
        centroid_threshold: t4 as i64,
        linear: LinearParam {
            loss_type: if t5 == 1 {
                LossType::Logistic
            } else {
                LossType::Hinge
            },
            c: t6 as i64,
            eps: t7 as i64,
            weight_threshold: t8 as i64,
        },
        n_threads: t9 as usize,
        seed: t10,
    };
    let n_features = nf as usize;
    match decode_trees(s, 12, tc as usize, n_features + 1) {
        None => None,
        Some((trees, p)) => {
            let m = Model { trees, n_features, hyper_parm: hyper };
            proof {
                assert(m.wf());
                assert(s@.subrange(0, p as int) =~= enc_model(m)) by {
                    let header = seq![m.n_features as u64] + enc_hyper(m.hyper_parm) + seq![
                        m.trees@.len() as u64,
                    ];
                    assert(enc_model(m) == header + enc_trees(m.trees@));
                    assert forall|q: int| 0 <= q < p implies s@.subrange(0, p as int)[q]
                        == enc_model(m)[q] by {
                        if q >= 12 {
                            assert(s@.subrange(12, p as int)[q - 12] == enc_trees(
                                m.trees@,
                            )[q - 12]);
                        }
                    }
                }
            }
            Some((m, p))
        },
    }
}

impl Model {
    /// Reads a model back from its token stream, validating every
    /// structural invariant; decoding the encoding of any well-formed
    /// model yields an equal model (the round-trip law).
    pub fn load_tokens(tokens: &Vec<u64>) -> (r: Option<Model>)
        ensures
            r matches Some(m2) ==> m2.wf() && tokens@ == enc_model(m2),
            forall|m: Model|
                m.wf() && heights_ok(m) && tokens@ =~= #[trigger] enc_model(m) ==> (r is Some
                    && eq_model(r->Some_0, m)),
    {
        match decode_model(tokens) {
            None => None,
            Some((m, p)) => {
                if p == tokens.len() {
                    proof {
                        assert(tokens@.subrange(0, p as int) =~= tokens@);
                    }
                    Some(m)
                } else {
                    proof {
                        assert forall|m2: Model|
                            m2.wf() && heights_ok(m2) && tokens@ =~= #[trigger] enc_model(
                                m2,
                            ) implies false by {
                            assert(tokens@.subrange(0, enc_model(m2).len() as int) =~= enc_model(
                                m2,
                            ));
                        }
                    }
                    None
                }
            },
        }
    }

    /// Serializes the model to its token stream; the result is exactly
    /// `enc_model`, so `load_tokens` recovers an equal model.
    pub fn save_tokens(&self) -> (out: Vec<u64>)
        requires
            self.wf(),
        ensures
            out@ == enc_model(*self),
    {
        let mut out: Vec<u64> = Vec::new();
        out.push(self.n_features as u64);
        let h = self.hyper_parm;
        out.push(h.n_trees as u64);
        out.push(h.max_leaf_size as u64);
        out.push(h.cluster_epsilon as u64);
        out.push(h.centroid_threshold as u64);
        match h.linear.loss_type {
            LossType::Logistic => out.push(1),
            LossType::Hinge => out.push(0),
        }
        out.push(h.linear.c as u64);
        out.push(h.linear.eps as u64);
        out.push(h.linear.weight_threshold as u64);
        out.push(h.n_threads as u64);
        out.push(h.seed);
        out.push(self.trees.len() as u64);
        proof {
            assert(out@ =~= seq![self.n_features as u64] + enc_hyper(self.hyper_parm) + seq![
                self.trees@.len() as u64,
            ]);
            assert(self.trees@.skip(0) =~= self.trees@);
        }
        let ghost header = out@;
        let mut t: usize = 0;
        while t < self.trees.len()
            invariant
                t <= self.trees@.len(),
                self.wf(),
                out@ + enc_trees(self.trees@.skip(t as int)) == header + enc_trees(self.trees@),
            decreases self.trees@.len() - t,
        {
            encode_node(&mut out, &self.trees[t].root, Ghost(self.n_features + 1));
            proof {
                assert(self.trees@.skip(t as int)[0] == self.trees@[t as int]);
                assert(self.trees@.skip(t as int).drop_first() =~= self.trees@.skip(t + 1));
                assert(out@ + enc_trees(self.trees@.skip(t + 1)) =~= header + enc_trees(
                    self.trees@,
                ));
            }
            t = t + 1;
        }
        proof {
            assert(enc_trees(self.trees@.skip(self.trees@.len() as int)).len() == 0);
            assert(out@ =~= out@ + enc_trees(self.trees@.skip(self.trees@.len() as int)));
            assert(out@ =~= enc_model(*self));
        }
        out
    }
}

} // verus!
