//! Label centroids: for every label, the pruned, l2-normalized sum of the
//! feature vectors of the training examples tagged with it.

use crate::aggregate::sum_for;
use crate::cluster::{accumulate_signed, ClusterError};
use crate::fixed::{abs_val, MAX_VAL, SCALE};
use crate::sparse::{
    bounded, keeps, l2_normalize, norm_val, prune_with_threshold, sorted_strict, sum_sq, Entry,
    IndexValueVec,
};
use vstd::prelude::*;

verus! {

/// A training example: an l2-normalized sparse feature vector and the set
/// of labels tagged on it.
pub struct Example {
    pub features: IndexValueVec,
    pub labels: Vec<u32>,
}

impl Example {
    /// Features are sorted by index with machine-representable values.
    pub open spec fn wf(self) -> bool {
        sorted_strict(self.features@) && bounded(self.features@, MAX_VAL as int)
    }
}

/// Strictly ascending label list: sorted and duplicate-free.
pub open spec fn labels_sorted(s: Seq<u32>) -> bool {
    forall|i: int, j: int| 0 <= i < j < s.len() ==> s[i] < s[j]
}

/// In a strictly ascending label list the `i`th label is at least `i`, so
/// the list never outgrows the label space.
pub proof fn lemma_labels_sorted_len(s: Seq<u32>)
    requires
        labels_sorted(s),
    ensures
        s.len() <= 0x1_0000_0000,
    decreases s.len(),
{
    if s.len() > 0 {
        assert(labels_sorted(s.drop_last())) by {
            assert(forall|i: int| 0 <= i < s.len() - 1 ==> #[trigger] s.drop_last()[i] == s[i]);
        }
        lemma_labels_sorted_len(s.drop_last());
        assert forall|i: int| 0 <= i < s.len() implies (#[trigger] s[i]) >= i by {
            lemma_labels_sorted_grow(s, i);
        }
        assert(s[s.len() - 1] >= s.len() - 1);
        assert(s[s.len() - 1] < 0x1_0000_0000);
    }
}

/// Each label in a strictly ascending list is at least its position.
proof fn lemma_labels_sorted_grow(s: Seq<u32>, i: int)
    requires
        labels_sorted(s),
        0 <= i < s.len(),
    ensures
        s[i] >= i,
    decreases i,
{
    if i > 0 {
        lemma_labels_sorted_grow(s, i - 1);
        assert(s[i - 1] < s[i]);
    }
}

/// Some example carries this label.
pub open spec fn label_occurs(examples: Seq<Example>, l: u32) -> bool {
    exists|e: int| 0 <= e < examples.len() && (#[trigger] examples[e]).labels@.contains(l)
}

/// The total feature value at index `f`, summed over the examples that
/// carry label `l`.
pub open spec fn label_feature_sum(examples: Seq<Example>, l: u32, f: u32) -> int
    decreases examples.len(),
{
    if examples.len() == 0 {
        0
    } else {
        label_feature_sum(examples.drop_last(), l, f) + if examples.last().labels@.contains(l) {
            sum_for(examples.last().features@, f)
        } else {
            0
        }
    }
}

/// The entry-wise l2 normalization of a raw vector: each value divided by
/// the vector's norm.
pub open spec fn normalized_seq(raw: Seq<Entry>) -> Seq<Entry> {
    raw.map(|i: int, e: Entry| (e.0, norm_val(e.1 as int, sum_sq(raw)) as i64))
}

/// `c` is the centroid of label `l`: some sorted raw vector `raw` holds
/// exactly the label's per-index feature totals, and `c` is `raw`
/// l2-normalized (entry-wise `norm_val`, a no-op on an all-zero vector)
/// and then pruned at `threshold`.
pub open spec fn centroid_of(
    raw: Seq<Entry>,
    examples: Seq<Example>,
    l: u32,
    threshold: i64,
    c: Seq<Entry>,
) -> bool {
    &&& sorted_strict(raw)
    &&& bounded(raw, MAX_VAL as int)
    &&& forall|f: u32| #[trigger] sum_for(raw, f) == label_feature_sum(examples, l, f)
    &&& if sum_sq(raw) == 0 {
        c == raw.filter(keeps(threshold))
    } else {
        c == normalized_seq(raw).filter(keeps(threshold))
    }
}

/// Some raw total vector realizes `c` as label `l`'s centroid.
pub open spec fn has_centroid(examples: Seq<Example>, l: u32, threshold: i64, c: Seq<Entry>) -> bool {
    exists|raw: Seq<Entry>| #[trigger] centroid_of(raw, examples, l, threshold, c)
}

/// Inserts a label into a sorted label list if it is not yet present.
fn insert_label(ls: &mut Vec<u32>, l: u32)
    requires
        labels_sorted(old(ls)@),
    ensures
        labels_sorted(final(ls)@),
        forall|x: u32| final(ls)@.contains(x) <==> (old(ls)@.contains(x) || x == l),
{
    let ghost before = ls@;
    let mut pos: usize = 0;
    while pos < ls.len() && ls[pos] < l
        invariant
            pos <= ls@.len(),
            ls@ == before,
            forall|t: int| 0 <= t < pos ==> (#[trigger] ls@[t]) < l,
        decreases ls@.len() - pos,
    {
        pos = pos + 1;
    }
    if pos < ls.len() && ls[pos] == l {
        proof {
            assert(ls@.contains(ls@[pos as int]));
            assert(forall|x: u32| final(ls)@.contains(x) <==> (before.contains(x) || x == l));
        }
        return ;
    }
    ls.insert(pos, l);
    proof {
        assert(labels_sorted(ls@)) by {
            assert(forall|t: int| 0 <= t < pos ==> #[trigger] ls@[t] == before[t]);
            assert(forall|t: int|
                pos < t < ls@.len() ==> #[trigger] ls@[t] == before[t - 1]);
            assert(ls@[pos as int] == l);
        }
        assert forall|x: u32| ls@.contains(x) <==> (before.contains(x) || x == l) by {
            if before.contains(x) {
                let t = choose|t: int| 0 <= t < before.len() && before[t] == x;
                if t < pos {
                    assert(ls@[t] == x);
                } else {
                    assert(ls@[t + 1] == x);
                }
            }
            if ls@.contains(x) {
                let t = choose|t: int| 0 <= t < ls@.len() && ls@[t] == x;
                if t < pos {
                    assert(before[t] == x);
                } else if t > pos {
                    assert(before[t - 1] == x);
                }
            }
            assert(ls@[pos as int] == l);
        }
    }
}

/// Whether a label list contains `l`.
pub fn labels_contain(ls: &Vec<u32>, l: u32) -> (r: bool)
    ensures
        r == ls@.contains(l),
{
    let mut i: usize = 0;
    while i < ls.len()
        invariant
            i <= ls@.len(),
            forall|t: int| 0 <= t < i ==> (#[trigger] ls@[t]) != l,
        decreases ls@.len() - i,
    {
        if ls[i] == l {
            return true;
        }
        i = i + 1;
    }
    false
}

/// Builds one pruned, l2-normalized sparse centroid per label occurring in
/// the examples. The two returned sequences are parallel: the strictly
/// ascending labels, and their centroids. A label appears exactly when
/// some example carries it; every centroid entry is at least `threshold`
/// in magnitude and at most one unit. The error reports an accumulator
/// overflow, a numerical failure.
pub fn compute_feature_vectors_per_label(examples: &Vec<Example>, threshold: i64) -> (r: Result<
    (Vec<u32>, Vec<IndexValueVec>),
    ClusterError,
>)
    requires
        threshold >= 0,
        forall|e: int| 0 <= e < examples@.len() ==> (#[trigger] examples@[e]).wf(),
    ensures
        r matches Ok(out) ==> {
            &&& out.0@.len() == out.1@.len()
            &&& labels_sorted(out.0@)
            &&& forall|x: u32| out.0@.contains(x) <==> label_occurs(examples@, x)
            &&& forall|k: int|
                0 <= k < out.1@.len() ==> sorted_strict((#[trigger] out.1@[k])@) && bounded(
                    out.1@[k]@,
                    SCALE as int,
                ) && (forall|t: int|
                    0 <= t < out.1@[k]@.len() ==> abs_val(
                        (#[trigger] out.1@[k]@[t]).1 as int,
                    ) >= threshold)
            &&& forall|k: int|
                0 <= k < out.1@.len() ==> has_centroid(
                    examples@,
                    out.0@[k],
                    threshold,
                    (#[trigger] out.1@[k])@,
                )
        },
        (forall|l: u32, e: int, f: u32|
            0 <= e <= examples@.len() ==> -MAX_VAL <= #[trigger] label_feature_sum(
                examples@.take(e),
                l,
                f,
            ) <= MAX_VAL) ==> r is Ok,
{
    let mut labels: Vec<u32> = Vec::new();
    let mut e: usize = 0;
    while e < examples.len()
        invariant
            e <= examples@.len(),
            labels_sorted(labels@),
            forall|x: u32|
                labels@.contains(x) <==> exists|t: int|
                    0 <= t < e && (#[trigger] examples@[t]).labels@.contains(x),
        decreases examples@.len() - e,
    {
        let ex_labels_len = examples[e].labels.len();
        let mut j: usize = 0;
        while j < ex_labels_len
            invariant
                j <= examples@[e as int].labels@.len(),
                ex_labels_len == examples@[e as int].labels@.len(),
                e < examples@.len(),
                labels_sorted(labels@),
                forall|x: u32|
                    labels@.contains(x) <==> ((exists|t: int|
                        0 <= t < e && (#[trigger] examples@[t]).labels@.contains(x)) || (exists|
                        q: int,
                    |
                        0 <= q < j && (#[trigger] examples@[e as int].labels@[q]) == x)),
            decreases ex_labels_len - j,
        {
            let l = examples[e].labels[j];
            insert_label(&mut labels, l);
            proof {
                assert(examples@[e as int].labels@[j as int] == l);
            }
            j = j + 1;
        }
        proof {
            assert forall|x: u32| labels@.contains(x) implies ((exists|t: int|
                0 <= t < e + 1 && (#[trigger] examples@[t]).labels@.contains(x))) by {
                if exists|q: int|
                    0 <= q < ex_labels_len && (#[trigger] examples@[e as int].labels@[q]) == x {
                    let q = choose|q: int|
                        0 <= q < ex_labels_len && (#[trigger] examples@[e as int].labels@[q]) == x;
                    assert(examples@[e as int].labels@.contains(x));
                }
            }
            assert forall|x: u32| (exists|t: int|
                0 <= t < e + 1 && (#[trigger] examples@[t]).labels@.contains(
                    x,
                )) implies labels@.contains(x) by {
                let t = choose|t: int|
                    0 <= t < e + 1 && (#[trigger] examples@[t]).labels@.contains(x);
                if t == e {
                    let q = choose|q: int|
                        0 <= q < examples@[t].labels@.len() && examples@[t].labels@[q] == x;
                }
            }
        }
        e = e + 1;
    }
    let mut vectors: Vec<IndexValueVec> = Vec::new();
    let mut k: usize = 0;
    while k < labels.len()
        invariant
            k <= labels@.len(),
            threshold >= 0,
            forall|t: int| 0 <= t < examples@.len() ==> (#[trigger] examples@[t]).wf(),
            vectors@.len() == k,
            forall|t: int|
                0 <= t < k ==> sorted_strict((#[trigger] vectors@[t])@) && bounded(
                    vectors@[t]@,
                    SCALE as int,
                ) && (forall|q: int|
                    0 <= q < vectors@[t]@.len() ==> abs_val(
                        (#[trigger] vectors@[t]@[q]).1 as int,
                    ) >= threshold),
            forall|t: int|
                0 <= t < k ==> has_centroid(
                    examples@,
                    labels@[t],
                    threshold,
                    (#[trigger] vectors@[t])@,
                ),
        decreases labels@.len() - k,
    {
        let label = labels[k];
        let mut acc: IndexValueVec = Vec::new();
        let mut e2: usize = 0;
        while e2 < examples.len()
            invariant
                e2 <= examples@.len(),
                forall|t: int| 0 <= t < examples@.len() ==> (#[trigger] examples@[t]).wf(),
                sorted_strict(acc@),
                bounded(acc@, MAX_VAL as int),
                forall|f: u32| #[trigger] sum_for(acc@, f) == label_feature_sum(
                    examples@.take(e2 as int),
                    label,
                    f,
                ),
            decreases examples@.len() - e2,
        {
            let ghost before = acc@;
            if labels_contain(&examples[e2].labels, label) {
                proof {
                    assert(bounded(examples@[e2 as int].features@, MAX_VAL as int));
                }
                let ghost acc_pre = acc@;
                let ok = accumulate_signed(&mut acc, &examples[e2].features);
                if !ok {
                    proof {
                        let f = choose|f: u32|
                            !(-MAX_VAL <= sum_for(acc_pre, f) + #[trigger] sum_for(
                                examples@[e2 as int].features@,
                                f,
                            ) <= MAX_VAL);
                        assert(examples@.take(e2 + 1).drop_last() == examples@.take(e2 as int));
                        assert(examples@.take(e2 + 1).last() == examples@[e2 as int]);
                        assert(sum_for(acc_pre, f) == label_feature_sum(
                            examples@.take(e2 as int),
                            label,
                            f,
                        ));
                        assert(examples@.take(e2 + 1).last().labels@.contains(label));
                        assert(label_feature_sum(examples@.take(e2 + 1), label, f) == sum_for(
                            acc_pre,
                            f,
                        ) + sum_for(examples@[e2 as int].features@, f));
                        assert(!(-MAX_VAL <= label_feature_sum(
                            examples@.take(e2 + 1),
                            label,
                            f,
                        ) <= MAX_VAL));
                    }
                    return Err(ClusterError::Numerical);
                }
            }
            proof {
                assert(examples@.take(e2 + 1).drop_last() == examples@.take(e2 as int));
                assert(examples@.take(e2 + 1).last() == examples@[e2 as int]);
            }
            e2 = e2 + 1;
        }
        proof {
            assert(examples@.take(examples@.len() as int) == examples@);
        }
        let ghost raw = acc@;
        l2_normalize(&mut acc);
        proof {
            if sum_sq(raw) > 0 {
                let mapped = normalized_seq(raw);
                assert(mapped.len() == raw.len());
                assert forall|i: int| 0 <= i < raw.len() implies acc@[i] == mapped[i] by {
                    assert(acc@[i].0 == raw[i].0);
                    assert(acc@[i].1 == norm_val(raw[i].1 as int, sum_sq(raw)));
                    assert(mapped[i] == (raw[i].0, norm_val(raw[i].1 as int, sum_sq(raw)) as i64));
                }
                assert(acc@ =~= mapped);
            }
        }
        let pruned = prune_with_threshold(&acc, threshold);
        proof {
            crate::sparse::lemma_sum_sq_props(raw);
            assert(sorted_strict(raw));
            assert(bounded(raw, MAX_VAL as int));
            assert(forall|f: u32| #[trigger] sum_for(raw, f) == label_feature_sum(
                examples@,
                label,
                f,
            ));
            if sum_sq(raw) == 0 {
                assert(pruned@ == raw.filter(keeps(threshold)));
            } else {
                let mapped = normalized_seq(raw);
                assert(acc@ == mapped);
                assert(pruned@ == mapped.filter(keeps(threshold)));
            }
            assert(centroid_of(raw, examples@, label, threshold, pruned@));
            assert(has_centroid(examples@, label, threshold, pruned@));
        }
        let ghost prev_vectors = vectors@;
        let ghost prunedv = pruned@;
        vectors.push(pruned);
        proof {
            assert forall|t: int| 0 <= t < k + 1 implies has_centroid(
                examples@,
                labels@[t],
                threshold,
                (#[trigger] vectors@[t])@,
            ) by {
                if t < k {
                    assert(vectors@[t] == prev_vectors[t]);
                    assert(has_centroid(examples@, labels@[t], threshold, prev_vectors[t]@));
                } else {
                    assert(vectors@[t]@ == prunedv);
                    assert(labels@[t] == label);
                    assert(has_centroid(examples@, label, threshold, prunedv));
                }
            }
        }
        k = k + 1;
    }
    Ok((labels, vectors))
}

} // verus!
