//! Per-label score aggregation across the forest: sums of `(label, score)`
//! pairs into a sorted accumulator, averaging, and the final ranking.

use crate::fixed::MAX_VAL;
use crate::model::{best_index, entry_score_key, sort_desc_by};
use crate::sparse::{sorted_strict, Entry, IndexValueVec};
use vstd::prelude::*;

verus! {

/// The total score a pair list assigns to one label.
pub open spec fn sum_for(s: Seq<Entry>, label: u32) -> int
    decreases s.len(),
{
    if s.len() == 0 {
        0
    } else {
        sum_for(s.drop_last(), label) + if s.last().0 == label {
            s.last().1 as int
        } else {
            0
        }
    }
}

/// Some entry of the pair list carries label `l`.
pub open spec fn has_entry(s: Seq<Entry>, l: u32) -> bool {
    exists|j: int| 0 <= j < s.len() && (#[trigger] s[j]).0 == l
}

/// Every score lies in `[0, b]`.
pub open spec fn scores_in_range(s: Seq<Entry>, b: int) -> bool {
    forall|k: int| 0 <= k < s.len() ==> 0 <= (#[trigger] s[k]).1 <= b
}

/// Updating one entry's score shifts exactly that label's total.
pub proof fn lemma_sum_for_update(s: Seq<Entry>, i: int, d: int, label: u32)
    requires
        0 <= i < s.len(),
        s[i].1 + d <= i64::MAX,
        i64::MIN <= s[i].1 + d,
    ensures
        sum_for(s.update(i, (s[i].0, (s[i].1 + d) as i64)), label) == sum_for(s, label) + if s[i].0
            == label {
            d
        } else {
            0
        },
    decreases s.len(),
{
    let s2 = s.update(i, (s[i].0, (s[i].1 + d) as i64));
    if i == s.len() - 1 {
        assert(s2.drop_last() =~= s.drop_last());
    } else {
        lemma_sum_for_update(s.drop_last(), i, d, label);
        assert(s2.drop_last() =~= s.drop_last().update(i, (s[i].0, (s[i].1 + d) as i64)));
        assert(s2.last() == s.last());
    }
}

/// Inserting an entry adds its score to exactly its label's total.
pub proof fn lemma_sum_for_insert(s: Seq<Entry>, i: int, e: Entry, label: u32)
    requires
        0 <= i <= s.len(),
    ensures
        sum_for(s.insert(i, e), label) == sum_for(s, label) + if e.0 == label {
            e.1 as int
        } else {
            0
        },
    decreases s.len(),
{
    let s2 = s.insert(i, e);
    if i == s.len() {
        assert(s2 =~= s.push(e));
        assert(s2.drop_last() =~= s);
    } else {
        lemma_sum_for_insert(s.drop_last(), i, e, label);
        assert(s2.drop_last() =~= s.drop_last().insert(i, e));
        assert(s2.last() == s.last());
    }
}

/// A label absent from a pair list contributes nothing.
pub proof fn lemma_sum_for_absent(s: Seq<Entry>, label: u32)
    requires
        forall|i: int| 0 <= i < s.len() ==> (#[trigger] s[i]).0 != label,
    ensures
        sum_for(s, label) == 0,
    decreases s.len(),
{
    if s.len() > 0 {
        assert(forall|i: int| 0 <= i < s.len() - 1 ==> #[trigger] s.drop_last()[i] == s[i]);
        lemma_sum_for_absent(s.drop_last(), label);
    }
}

/// In a label-sorted list a label's total is the one entry holding it, so
/// the total stays within the entry range.
pub proof fn lemma_sum_for_sorted(s: Seq<Entry>, label: u32, b: int)
    requires
        sorted_strict(s),
        scores_in_range(s, b),
        b >= 0,
    ensures
        0 <= sum_for(s, label) <= b,
        forall|i: int| 0 <= i < s.len() && (#[trigger] s[i]).0 == label ==> sum_for(s, label) == s[i].1,
    decreases s.len(),
{
    if s.len() > 0 {
        assert(sorted_strict(s.drop_last()) && scores_in_range(s.drop_last(), b)) by {
            assert(forall|i: int| 0 <= i < s.len() - 1 ==> #[trigger] s.drop_last()[i] == s[i]);
        }
        lemma_sum_for_sorted(s.drop_last(), label, b);
        if s.last().0 == label {
            assert(sum_for(s.drop_last(), label) == 0) by {
                assert(forall|i: int|
                    0 <= i < s.len() - 1 ==> (#[trigger] s.drop_last()[i]).0 != label);
                lemma_sum_for_absent(s.drop_last(), label);
            }
        }
        assert(forall|i: int| 0 <= i < s.len() - 1 ==> #[trigger] s.drop_last()[i] == s[i]);
        assert forall|i: int| 0 <= i < s.len() && (#[trigger] s[i]).0 == label implies sum_for(
            s,
            label,
        ) == s[i].1 by {
            if i < s.len() - 1 {
                assert(s.drop_last()[i] == s[i]);
                assert(s[i].0 < s.last().0);
            }
        }
    }
}

/// In a label-sorted list with values of magnitude at most `b`, a label's
/// total is the one entry holding it, so it stays within `[-b, b]`.
pub proof fn lemma_sum_for_sorted_abs(s: Seq<Entry>, label: u32, b: int)
    requires
        sorted_strict(s),
        forall|i: int| 0 <= i < s.len() ==> -b <= (#[trigger] s[i]).1 <= b,
        b >= 0,
    ensures
        -b <= sum_for(s, label) <= b,
        forall|i: int| 0 <= i < s.len() && (#[trigger] s[i]).0 == label ==> sum_for(s, label) == s[i].1,
    decreases s.len(),
{
    if s.len() > 0 {
        assert(sorted_strict(s.drop_last()) && forall|i: int|
            0 <= i < s.len() - 1 ==> -b <= (#[trigger] s.drop_last()[i]).1 <= b) by {
            assert(forall|i: int| 0 <= i < s.len() - 1 ==> #[trigger] s.drop_last()[i] == s[i]);
        }
        lemma_sum_for_sorted_abs(s.drop_last(), label, b);
        if s.last().0 == label {
            assert(sum_for(s.drop_last(), label) == 0) by {
                assert(forall|i: int|
                    0 <= i < s.len() - 1 ==> (#[trigger] s.drop_last()[i]).0 != label);
                lemma_sum_for_absent(s.drop_last(), label);
            }
        }
        assert(forall|i: int| 0 <= i < s.len() - 1 ==> #[trigger] s.drop_last()[i] == s[i]);
        assert forall|i: int| 0 <= i < s.len() && (#[trigger] s[i]).0 == label implies sum_for(
            s,
            label,
        ) == s[i].1 by {
            if i < s.len() - 1 {
                assert(s.drop_last()[i] == s[i]);
                assert(s[i].0 < s.last().0);
            }
        }
    }
}

/// With nonnegative scores, a prefix's total never exceeds the whole
/// list's total.
proof fn lemma_sum_for_take(s: Seq<Entry>, j: int, label: u32)
    requires
        0 <= j <= s.len(),
        forall|i: int| 0 <= i < s.len() ==> (#[trigger] s[i]).1 >= 0,
    ensures
        0 <= sum_for(s.take(j), label) <= sum_for(s, label),
    decreases s.len() - j,
{
    if j == s.len() {
        assert(s.take(j) =~= s);
        lemma_sum_for_nonneg(s, label);
    } else {
        assert(s.take(j + 1).drop_last() == s.take(j));
        assert(s.take(j + 1).last() == s[j]);
        lemma_sum_for_take(s, j + 1, label);
        assert(forall|i: int| 0 <= i < j ==> #[trigger] s.take(j)[i] == s[i]);
        lemma_sum_for_nonneg(s.take(j), label);
    }
}

/// Nonnegative scores give nonnegative totals.
pub proof fn lemma_sum_for_nonneg(s: Seq<Entry>, label: u32)
    requires
        forall|i: int| 0 <= i < s.len() ==> (#[trigger] s[i]).1 >= 0,
    ensures
        sum_for(s, label) >= 0,
    decreases s.len(),
{
    if s.len() > 0 {
        assert(forall|i: int| 0 <= i < s.len() - 1 ==> #[trigger] s.drop_last()[i] == s[i]);
        lemma_sum_for_nonneg(s.drop_last(), label);
    }
}

/// Adds every `(label, score)` pair into the sorted accumulator, keeping it
/// sorted by label. Returns `false` if a total would leave `[0, MAX_VAL]`
/// (a numerical failure); on success every label's total has grown by
/// exactly the pairs' contribution.
pub fn accumulate(acc: &mut IndexValueVec, pairs: &IndexValueVec) -> (ok: bool)
    requires
        sorted_strict(old(acc)@),
        scores_in_range(old(acc)@, MAX_VAL as int),
        scores_in_range(pairs@, MAX_VAL as int),
    ensures
        sorted_strict(final(acc)@),
        scores_in_range(final(acc)@, MAX_VAL as int),
        ok ==> forall|l: u32|
            sum_for(final(acc)@, l) == sum_for(old(acc)@, l) + sum_for(#[trigger] pairs@, l),
        ok <==> forall|l: u32|
            sum_for(old(acc)@, l) + #[trigger] sum_for(pairs@, l) <= MAX_VAL,
        ok ==> forall|l: u32|
            #[trigger] has_entry(final(acc)@, l) <==> (has_entry(old(acc)@, l) || has_entry(
                pairs@,
                l,
            )),
{
    let ghost acc0 = old(acc)@;
    let mut j: usize = 0;
    while j < pairs.len()
        invariant
            acc0 == old(acc)@,
            j <= pairs@.len(),
            sorted_strict(acc@),
            scores_in_range(acc@, MAX_VAL as int),
            scores_in_range(pairs@, MAX_VAL as int),
            forall|l: u32|
                sum_for(acc@, l) == sum_for(acc0, l) + sum_for(#[trigger] pairs@.take(j as int), l),
            forall|l: u32|
                #[trigger] has_entry(acc@, l) <==> (has_entry(acc0, l) || has_entry(
                    pairs@.take(j as int),
                    l,
                )),
        decreases pairs@.len() - j,
    {
        let (label, value) = pairs[j];
        let ghost before = acc@;
        let mut pos: usize = 0;
        while pos < acc.len() && acc[pos].0 < label
            invariant
                pos <= acc@.len(),
                acc@ == before,
                forall|t: int| 0 <= t < pos ==> (#[trigger] acc@[t]).0 < label,
            decreases acc@.len() - pos,
        {
            pos = pos + 1;
        }
        if pos < acc.len() && acc[pos].0 == label {
            let cur = acc[pos].1;
            if cur > MAX_VAL - value {
                proof {
                    lemma_sum_for_sorted(before, label, MAX_VAL as int);
                    assert(before[pos as int].0 == label);
                    assert(sum_for(before, label) == cur);
                    assert(sum_for(before, label) == sum_for(acc0, label) + sum_for(
                        pairs@.take(j as int),
                        label,
                    ));
                    assert(pairs@.take(j + 1).drop_last() == pairs@.take(j as int));
                    assert(pairs@.take(j + 1).last() == pairs@[j as int]);
                    assert(sum_for(pairs@.take(j + 1), label) == sum_for(
                        pairs@.take(j as int),
                        label,
                    ) + value);
                    lemma_sum_for_take(pairs@, j + 1, label);
                    assert(sum_for(pairs@, label) >= sum_for(pairs@.take(j + 1), label));
                    assert(sum_for(acc0, label) + sum_for(pairs@, label) > MAX_VAL);
                }
                return false;
            }
            acc.set(pos, (label, cur + value));
            proof {
                assert forall|l: u32| true implies #[trigger] sum_for(acc@, l) == sum_for(
                    before,
                    l,
                ) + if label == l {
                    value as int
                } else {
                    0
                } by {
                    lemma_sum_for_update(before, pos as int, value as int, l);
                }
                assert(before[pos as int].0 == label);
                assert forall|l: u32| #[trigger] has_entry(acc@, l) <==> (has_entry(before, l)
                    || l == label) by {
                    if has_entry(acc@, l) {
                        let q = choose|q: int| 0 <= q < acc@.len() && (#[trigger] acc@[q]).0 == l;
                        if q != pos {
                            assert(before[q].0 == l);
                        }
                    }
                    if has_entry(before, l) {
                        let q = choose|q: int|
                            0 <= q < before.len() && (#[trigger] before[q]).0 == l;
                        assert(acc@[q].0 == l);
                    }
                    if l == label {
                        assert(acc@[pos as int].0 == l);
                    }
                }
            }
        } else {
            acc.insert(pos, (label, value));
            proof {
                assert forall|l: u32| true implies #[trigger] sum_for(acc@, l) == sum_for(
                    before,
                    l,
                ) + if label == l {
                    value as int
                } else {
                    0
                } by {
                    lemma_sum_for_insert(before, pos as int, (label, value), l);
                }
                assert forall|l: u32| #[trigger] has_entry(acc@, l) <==> (has_entry(before, l)
                    || l == label) by {
                    if has_entry(acc@, l) {
                        let q = choose|q: int| 0 <= q < acc@.len() && (#[trigger] acc@[q]).0 == l;
                        if q < pos {
                            assert(before[q].0 == l);
                        } else if q > pos {
                            assert(before[q - 1].0 == l);
                        }
                    }
                    if has_entry(before, l) {
                        let q = choose|q: int|
                            0 <= q < before.len() && (#[trigger] before[q]).0 == l;
                        if q < pos {
                            assert(acc@[q].0 == l);
                        } else {
                            assert(acc@[q + 1].0 == l);
                        }
                    }
                    if l == label {
                        assert(acc@[pos as int].0 == l);
                    }
                }
            }
        }
        proof {
            assert(pairs@.take(j + 1).drop_last() == pairs@.take(j as int));
            assert(pairs@.take(j + 1).last() == pairs@[j as int]);
            assert forall|l: u32| #[trigger] has_entry(pairs@.take(j + 1), l) <==> (has_entry(
                pairs@.take(j as int),
                l,
            ) || l == label) by {
                if has_entry(pairs@.take(j + 1), l) {
                    let q = choose|q: int|
                        0 <= q < j + 1 && (#[trigger] pairs@.take(j + 1)[q]).0 == l;
                    if q < j {
                        assert(pairs@.take(j as int)[q].0 == l);
                    }
                }
                if has_entry(pairs@.take(j as int), l) {
                    let q = choose|q: int|
                        0 <= q < j && (#[trigger] pairs@.take(j as int)[q]).0 == l;
                    assert(pairs@.take(j + 1)[q].0 == l);
                }
                if l == label {
                    assert(pairs@.take(j + 1)[j as int].0 == l);
                }
            }
        }
        j = j + 1;
    }
    proof {
        assert(pairs@.take(pairs@.len() as int) == pairs@);
        assert forall|l: u32|
            sum_for(acc0, l) + sum_for(#[trigger] pairs@, l) <= MAX_VAL by {
            lemma_sum_for_sorted(acc@, l, MAX_VAL as int);
        }
    }
    true
}

/// Forest averaging: a forest of two identical trees scores every label
/// exactly as the single tree does, because doubling a total and halving
/// it is the identity.
pub proof fn lemma_forest_averaging(pairs: Seq<Entry>, label: u32)
    ensures
        (sum_for(pairs, label) + sum_for(pairs, label)) / 2 == sum_for(pairs, label) / 1,
{
    let a = sum_for(pairs, label);
    vstd::arithmetic::div_mod::lemma_div_multiples_vanish(a, 2);
    assert(a + a == 2 * a);
}

/// Forest averaging at the forest-total level: a forest of two identical
/// trees gives every label exactly the averaged score of the single tree,
/// which `Model::predict`'s score law then carries to the output.
pub proof fn lemma_forest_pair_total(t: crate::model::Tree, dense: Seq<i64>, beam: int, l: u32)
    ensures
        crate::model::forest_total(seq![t, t], dense, beam, l, 2) / 2 == crate::model::forest_total(
            seq![t],
            dense,
            beam,
            l,
            1,
        ) / 1,
{
    let s = sum_for(crate::model::tree_predict_spec(t, dense, beam), l);
    assert(seq![t, t][0] == t && seq![t, t][1] == t && seq![t][0] == t);
    assert(crate::model::forest_total(seq![t, t], dense, beam, l, 0) == 0);
    assert(crate::model::forest_total(seq![t, t], dense, beam, l, 1) == s);
    assert(crate::model::forest_total(seq![t, t], dense, beam, l, 2) == s + s);
    assert(crate::model::forest_total(seq![t], dense, beam, l, 0) == 0);
    assert(crate::model::forest_total(seq![t], dense, beam, l, 1) == s);
    lemma_forest_averaging(crate::model::tree_predict_spec(t, dense, beam), l);
}

/// Stable selection sort of `(label, score)` pairs by score, descending.
pub fn sort_pairs_desc(v: &mut IndexValueVec)
    ensures
        final(v)@.len() == old(v)@.len(),
        final(v)@.to_multiset() == old(v)@.to_multiset(),
        forall|i: int, j: int|
            0 <= i < j < final(v)@.len() ==> final(v)@[i].1 >= final(v)@[j].1,
        final(v)@ == sort_desc_by(old(v)@, entry_score_key()),
{
    broadcast use vstd::seq_lib::group_to_multiset_ensures;
    broadcast use vstd::multiset::group_multiset_axioms;

    let ghost orig = v@;
    let mut out: IndexValueVec = Vec::new();
    while v.len() > 0
        invariant
            out@.to_multiset().add(v@.to_multiset()) == orig.to_multiset(),
            out@.len() + v@.len() == orig.len(),
            forall|i: int, j: int| 0 <= i < j < out@.len() ==> out@[i].1 >= out@[j].1,
            forall|k: int|
                0 <= k < v@.len() && out@.len() > 0 ==> out@.last().1 >= (#[trigger] v@[k]).1,
            sort_desc_by(orig, entry_score_key()) == out@ + sort_desc_by(v@, entry_score_key()),
        decreases v@.len(),
    {
        let mut best: usize = 0;
        let mut i: usize = 1;
        while i < v.len()
            invariant
                best < i <= v@.len(),
                forall|t: int| 0 <= t < i ==> v@[best as int].1 >= (#[trigger] v@[t]).1,
                best == best_index(v@, entry_score_key(), i as int),
            decreases v@.len() - i,
        {
            proof {
                assert(entry_score_key()(v@[i as int]) == v@[i as int].1 as int);
                assert(entry_score_key()(v@[best as int]) == v@[best as int].1 as int);
            }
            if v[i].1 > v[best].1 {
                best = i;
            }
            i = i + 1;
        }
        let ghost prev = v@;
        proof {
            assert(best == best_index(prev, entry_score_key(), prev.len() as int));
            assert(sort_desc_by(prev, entry_score_key()) == seq![prev[best as int]]
                + sort_desc_by(prev.remove(best as int), entry_score_key()));
        }
        let e = v.remove(best);
        proof {
            broadcast use vstd::seq_lib::group_to_multiset_ensures;
            broadcast use vstd::multiset::group_multiset_axioms;

            assert(prev.contains(prev[best as int]));
            assert(prev.to_multiset().count(prev[best as int]) > 0);
            assert(v@ == prev.remove(best as int));
            assert(prev.remove(best as int).to_multiset() =~= prev.to_multiset().remove(
                prev[best as int],
            ));
            assert(out@.push(e).to_multiset() =~= out@.to_multiset().insert(e));
            assert(out@.to_multiset().insert(e).add(prev.to_multiset().remove(e))
                =~= orig.to_multiset());
        }
        let ghost out_prev = out@;
        out.push(e);
        proof {
            assert(out@ + sort_desc_by(v@, entry_score_key()) =~= out_prev + (seq![
                prev[best as int],
            ] + sort_desc_by(prev.remove(best as int), entry_score_key())));
        }
    }
    proof {
        assert(v@.to_multiset().len() == 0);
        assert(out@.to_multiset().add(v@.to_multiset()) =~= out@.to_multiset());
        assert(out@ + sort_desc_by(v@, entry_score_key()) =~= out@);
    }
    *v = out;
}

/// A permutation of a label-sorted pair list never repeats a label.
pub proof fn lemma_distinct_labels(a: Seq<Entry>, b: Seq<Entry>)
    requires
        sorted_strict(a),
        a.to_multiset() == b.to_multiset(),
    ensures
        forall|i: int, j: int| 0 <= i < j < b.len() ==> b[i].0 != b[j].0,
{
    broadcast use vstd::seq_lib::group_to_multiset_ensures;
    broadcast use vstd::multiset::group_multiset_axioms;

    assert forall|i: int, j: int| 0 <= i < j < b.len() implies b[i].0 != b[j].0 by {
        if b[i].0 == b[j].0 {
            assert(b.contains(b[i]));
            assert(b.to_multiset().count(b[i]) > 0);
            assert(a.contains(b[i]));
            let p = choose|p: int| 0 <= p < a.len() && a[p] == b[i];
            if b[i] == b[j] {
                let e = b[i];
                assert(b.remove(i).to_multiset() =~= b.to_multiset().remove(e));
                assert(b.remove(i)[j - 1] == e);
                assert(b.remove(i).contains(e));
                assert(b.remove(i).to_multiset().count(e) > 0);
                assert(b.to_multiset().count(e) >= 2);
                assert(a.to_multiset().count(e) >= 2);
                assert(a.remove(p).to_multiset() =~= a.to_multiset().remove(e));
                assert(a.remove(p).to_multiset().count(e) > 0);
                assert(a.remove(p).contains(e));
                let q = choose|q: int| 0 <= q < a.remove(p).len() && a.remove(p)[q] == e;
                if q < p {
                    assert(a[q] == e);
                } else {
                    assert(a[q + 1] == e);
                }
            } else {
                assert(b.contains(b[j]));
                assert(b.to_multiset().count(b[j]) > 0);
                assert(a.contains(b[j]));
                let q = choose|q: int| 0 <= q < a.len() && a[q] == b[j];
                assert(a[p].0 == a[q].0 && a[p] != a[q]);
            }
        }
    }
}

} // verus!
