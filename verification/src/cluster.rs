//! Balanced 2-means clustering of unit-norm sparse vectors: rank every
//! vector by its similarity difference to the two centroids, give the top
//! half to one side and the rest to the other, recompute centroids, and
//! repeat until the average similarity stops improving.

use crate::fixed::{MAX_VAL, SCALE};
use crate::sparse::{bounded, dot, dot_merge, l2_normalize, sorted_strict, IndexValueVec};
use vstd::prelude::*;

verus! {

/// A clustering failure: the average similarity decreased (a numerical
/// bug) or an accumulated centroid value outgrew its range.
#[derive(Clone, Copy, Debug, PartialEq, Eq, Structural)]
pub enum ClusterError {
    Numerical,
}

/// How many entries of the sequence are `true`.
pub open spec fn count_true(s: Seq<bool>) -> int
    decreases s.len(),
{
    if s.len() == 0 {
        0
    } else {
        count_true(s.drop_last()) + if s.last() {
            1int
        } else {
            0int
        }
    }
}

/// Setting a `false` slot to `true` raises the count by one.
proof fn lemma_count_true_set(s: Seq<bool>, j: int)
    requires
        0 <= j < s.len(),
        !s[j],
    ensures
        count_true(s.update(j, true)) == count_true(s) + 1,
    decreases s.len(),
{
    let s2 = s.update(j, true);
    if j == s.len() - 1 {
        assert(s2.drop_last() =~= s.drop_last());
    } else {
        lemma_count_true_set(s.drop_last(), j);
        assert(s2.drop_last() =~= s.drop_last().update(j, true));
        assert(s2.last() == s.last());
    }
}

/// A merged dot product is bounded by the vectors' lengths and bounds.
proof fn lemma_dot_merge_bound(a: Seq<(u32, i64)>, b: Seq<(u32, i64)>, ba: int, bb: int)
    requires
        bounded(a, ba),
        bounded(b, bb),
        ba >= 0,
        bb >= 0,
    ensures
        -(a.len() + b.len()) * ba * bb <= dot_merge(a, b) <= (a.len() + b.len()) * ba * bb,
    decreases a.len() + b.len(),
{
    if a.len() == 0 || b.len() == 0 {
        assert(-(a.len() + b.len()) * ba * bb <= 0 <= (a.len() + b.len()) * ba * bb)
            by (nonlinear_arith)
            requires
                ba >= 0,
                bb >= 0,
                a.len() + b.len() >= 0,
        ;
    } else {
        assert(bounded(a.skip(1), ba) && bounded(b.skip(1), bb)) by {
            assert(forall|i: int| 0 <= i < a.len() - 1 ==> #[trigger] a.skip(1)[i] == a[i + 1]);
            assert(forall|i: int| 0 <= i < b.len() - 1 ==> #[trigger] b.skip(1)[i] == b[i + 1]);
        }
        let n = a.len() + b.len();
        let d = dot_merge(a, b);
        if a[0].0 == b[0].0 {
            lemma_dot_merge_bound(a.skip(1), b.skip(1), ba, bb);
            assert(-n * ba * bb <= d <= n * ba * bb) by (nonlinear_arith)
                requires
                    d == a[0].1 * b[0].1 + dot_merge(a.skip(1), b.skip(1)),
                    -(n - 2) * ba * bb <= dot_merge(a.skip(1), b.skip(1)) <= (n - 2) * ba * bb,
                    -ba <= a[0].1 <= ba,
                    -bb <= b[0].1 <= bb,
                    ba >= 0,
                    bb >= 0,
                    n >= 2,
            ;
        } else if a[0].0 < b[0].0 {
            lemma_dot_merge_bound(a.skip(1), b, ba, bb);
            assert(-n * ba * bb <= d <= n * ba * bb) by (nonlinear_arith)
                requires
                    d == dot_merge(a.skip(1), b),
                    -(n - 1) * ba * bb <= dot_merge(a.skip(1), b) <= (n - 1) * ba * bb,
                    ba >= 0,
                    bb >= 0,
                    n >= 1,
            ;
        } else {
            lemma_dot_merge_bound(a, b.skip(1), ba, bb);
            assert(-n * ba * bb <= d <= n * ba * bb) by (nonlinear_arith)
                requires
                    d == dot_merge(a, b.skip(1)),
                    -(n - 1) * ba * bb <= dot_merge(a, b.skip(1)) <= (n - 1) * ba * bb,
                    ba >= 0,
                    bb >= 0,
                    n >= 1,
            ;
        }
    }
}

/// The summed similarity of every vector to its assigned side's centroid:
/// the raw inner product against `c1` where the partition says `true`,
/// against `c0` otherwise.
pub open spec fn chosen_sim_sum(
    vectors: Seq<IndexValueVec>,
    partition: Seq<bool>,
    c0: Seq<(u32, i64)>,
    c1: Seq<(u32, i64)>,
) -> int
    decreases vectors.len(),
{
    if vectors.len() == 0 {
        0
    } else {
        chosen_sim_sum(vectors.drop_last(), partition.drop_last(), c0, c1) + dot_merge(
            if partition[vectors.len() - 1] {
                c1
            } else {
                c0
            },
            vectors.last()@,
        )
    }
}

/// One step of balanced 2-means: rank every vector by the difference of
/// its similarities to the two centroids (descending, ties by position),
/// assign the top half to side `false` and the rest to side `true`, and
/// return the assignment with the summed similarity of every vector to its
/// side's centroid. The split is exact: side `false` gets `n / 2` vectors
/// and side `true` the remaining `n - n / 2`.
pub fn balanced_2means_iterate(
    vectors: &Vec<IndexValueVec>,
    c0: &IndexValueVec,
    c1: &IndexValueVec,
) -> (r: (Vec<bool>, i128))
    requires
        vectors@.len() >= 2,
        vectors@.len() <= 0x1_0000_0000,
        forall|i: int|
            0 <= i < vectors@.len() ==> sorted_strict((#[trigger] vectors@[i])@) && bounded(
                vectors@[i]@,
                SCALE as int,
            ),
        sorted_strict(c0@),
        bounded(c0@, SCALE as int),
        sorted_strict(c1@),
        bounded(c1@, SCALE as int),
    ensures
        r.0@.len() == vectors@.len(),
        count_true(r.0@) == vectors@.len() - vectors@.len() / 2,
        r.1 == chosen_sim_sum(vectors@, r.0@, c0@, c1@),
        -(0x1_0000_0000 * (0x2_0000_0000 * (SCALE as int) * SCALE)) <= r.1 <= 0x1_0000_0000 * (
        0x2_0000_0000 * (SCALE as int) * SCALE),
{
    let n = vectors.len();
    let mut diffs: Vec<i128> = Vec::new();
    let mut i: usize = 0;
    while i < n
        invariant
            i <= n,
            n == vectors@.len(),
            2 <= n <= 0x1_0000_0000,
            forall|t: int|
                0 <= t < vectors@.len() ==> sorted_strict((#[trigger] vectors@[t])@) && bounded(
                    vectors@[t]@,
                    SCALE as int,
                ),
            sorted_strict(c0@),
            bounded(c0@, SCALE as int),
            sorted_strict(c1@),
            bounded(c1@, SCALE as int),
            diffs@.len() == i,
        decreases n - i,
    {
        let s0 = dot(c0, &vectors[i]);
        let s1 = dot(c1, &vectors[i]);
        diffs.push(s0 - s1);
        i = i + 1;
    }
    let mut order: Vec<usize> = Vec::new();
    let mut k: usize = 0;
    while k < n
        invariant
            k <= n,
            order@.len() == k,
            forall|t: int| 0 <= t < k ==> (#[trigger] order@[t]) == t,
        decreases n - k,
    {
        order.push(k);
        k = k + 1;
    }
    sort_order(&mut order, &diffs);
    let mid = n / 2 - 1;
    let mut partition: Vec<bool> = Vec::new();
    let mut z: usize = 0;
    while z < n
        invariant
            z <= n,
            partition@.len() == z,
            forall|t: int| 0 <= t < z ==> !(#[trigger] partition@[t]),
        decreases n - z,
    {
        partition.push(false);
        z = z + 1;
    }
    proof {
        lemma_count_all_false(partition@);
    }
    let mut pos: usize = 0;
    while pos < n
        invariant
            pos <= n,
            n >= 2,
            mid == n / 2 - 1,
            order@.len() == n,
            partition@.len() == n,
            forall|t: int| 0 <= t < n ==> (#[trigger] order@[t]) < n,
            forall|p: int, q: int| 0 <= p < q < n ==> order@[p] != order@[q],
            forall|j: int|
                0 <= j < n ==> ((#[trigger] partition@[j]) <==> exists|p: int|
                    mid < p < pos && order@[p] == j),
            count_true(partition@) == if pos > mid + 1 {
                pos - (mid + 1)
            } else {
                0int
            },
        decreases n - pos,
    {
        if pos > mid {
            let j = order[pos];
            proof {
                assert(!partition@[j as int]) by {
                    if partition@[j as int] {
                        let p = choose|p: int| mid < p < pos && order@[p] == j;
                        assert(order@[p] == order@[pos as int]);
                    }
                }
                lemma_count_true_set(partition@, j as int);
            }
            partition.set(j, true);
            proof {
                assert forall|j2: int|
                    0 <= j2 < n implies ((#[trigger] partition@[j2]) <==> exists|p: int|
                        mid < p < pos + 1 && order@[p] == j2) by {
                    if j2 == j {
                        assert(order@[pos as int] == j2 && mid < pos < pos + 1);
                    } else if partition@[j2] {
                        let p = choose|p: int| mid < p < pos && order@[p] == j2;
                        assert(mid < p < pos + 1 && order@[p] == j2);
                    } else {
                        if exists|p: int| mid < p < pos + 1 && order@[p] == j2 {
                            let p = choose|p: int| mid < p < pos + 1 && order@[p] == j2;
                            assert(p != pos);
                        }
                    }
                }
            }
        } else {
            proof {
                assert forall|j2: int|
                    0 <= j2 < n implies ((#[trigger] partition@[j2]) <==> exists|p: int|
                        mid < p < pos + 1 && order@[p] == j2) by {
                    if exists|p: int| mid < p < pos + 1 && order@[p] == j2 {
                        let p = choose|p: int| mid < p < pos + 1 && order@[p] == j2;
                        assert(mid < p < pos && order@[p] == j2);
                    }
                }
            }
        }
        pos = pos + 1;
    }
    let mut sim_sum: i128 = 0;
    let mut w: usize = 0;
    while w < n
        invariant
            w <= n,
            n == vectors@.len(),
            n <= 0x1_0000_0000,
            partition@.len() == n,
            forall|t: int|
                0 <= t < vectors@.len() ==> sorted_strict((#[trigger] vectors@[t])@) && bounded(
                    vectors@[t]@,
                    SCALE as int,
                ),
            sorted_strict(c0@),
            bounded(c0@, SCALE as int),
            sorted_strict(c1@),
            bounded(c1@, SCALE as int),
            sim_sum == chosen_sim_sum(
                vectors@.take(w as int),
                partition@.take(w as int),
                c0@,
                c1@,
            ),
            -((w as int) * (0x2_0000_0000 * (SCALE as int) * SCALE)) <= sim_sum <= (w as int) * (
            0x2_0000_0000 * (SCALE as int) * SCALE),
        decreases n - w,
    {
        proof {
            assert(vectors@.take(w + 1).drop_last() == vectors@.take(w as int));
            assert(partition@.take(w + 1).drop_last() == partition@.take(w as int));
            assert(vectors@.take(w + 1).last() == vectors@[w as int]);
            assert(partition@.take(w + 1)[w as int] == partition@[w as int]);
        }
        let side = partition[w];
        let d = if side {
            dot(c1, &vectors[w])
        } else {
            dot(c0, &vectors[w])
        };
        proof {
            let cv = if side {
                c1@
            } else {
                c0@
            };
            crate::sparse::lemma_sorted_len(cv);
            crate::sparse::lemma_sorted_len(vectors@[w as int]@);
            lemma_dot_merge_bound(cv, vectors@[w as int]@, SCALE as int, SCALE as int);
            let lim = 0x2_0000_0000 * (SCALE as int) * SCALE;
            let m = cv.len() + vectors@[w as int]@.len();
            assert(-lim <= m * (SCALE as int) * SCALE && m * (SCALE as int) * SCALE <= lim)
                by (nonlinear_arith)
                requires
                    0 <= m <= 0x2_0000_0000,
                    lim == 0x2_0000_0000 * (SCALE as int) * SCALE,
                    SCALE >= 0,
            ;
            let s = w as int;
            assert(s * lim + lim == (s + 1) * lim && (s + 1) * lim <= 0x1_0000_0000 * lim
                && -(0x1_0000_0000 * lim) <= -((s + 1) * lim)) by (nonlinear_arith)
                requires
                    0 <= s < 0x1_0000_0000,
                    lim >= 0,
            ;
            assert(lim == 0x2_0000_0000 * (SCALE as int) * SCALE);
            assert(-lim <= d <= lim);
            assert(-(s * lim) <= sim_sum <= s * lim);
            assert(-((s + 1) * lim) <= sim_sum + d <= (s + 1) * lim);
        }
        sim_sum = sim_sum + d;
        w = w + 1;
    }
    proof {
        assert(vectors@.take(n as int) == vectors@);
        assert(partition@.take(n as int) == partition@);
        let lim = 0x2_0000_0000 * (SCALE as int) * SCALE;
        assert((n as int) * lim <= 0x1_0000_0000 * lim && -(0x1_0000_0000 * lim) <= -((
        n as int) * lim)) by (nonlinear_arith)
            requires
                0 <= n <= 0x1_0000_0000,
                lim >= 0,
        ;
    }
    (partition, sim_sum)
}

/// Adds a sparse vector into a sorted signed accumulator, index by index.
/// Returns `false` if a total would leave `[-MAX_VAL, MAX_VAL]`; on success
/// every index's total has grown by exactly the vector's contribution.
pub fn accumulate_signed(acc: &mut IndexValueVec, pairs: &IndexValueVec) -> (ok: bool)
    requires
        sorted_strict(old(acc)@),
        sorted_strict(pairs@),
        bounded(old(acc)@, MAX_VAL as int),
        bounded(pairs@, MAX_VAL as int),
    ensures
        sorted_strict(final(acc)@),
        bounded(final(acc)@, MAX_VAL as int),
        ok ==> forall|l: u32|
            crate::aggregate::sum_for(final(acc)@, l) == crate::aggregate::sum_for(old(acc)@, l)
                + crate::aggregate::sum_for(#[trigger] pairs@, l),
        ok <==> forall|l: u32|
            -MAX_VAL <= crate::aggregate::sum_for(old(acc)@, l) + #[trigger] crate::aggregate::sum_for(
                pairs@,
                l,
            ) <= MAX_VAL,
{
    let ghost acc0 = old(acc)@;
    let mut j: usize = 0;
    while j < pairs.len()
        invariant
            acc0 == old(acc)@,
            j <= pairs@.len(),
            sorted_strict(acc@),
            sorted_strict(pairs@),
            bounded(acc@, MAX_VAL as int),
            bounded(pairs@, MAX_VAL as int),
            forall|l: u32|
                crate::aggregate::sum_for(acc@, l) == crate::aggregate::sum_for(acc0, l)
                    + crate::aggregate::sum_for(#[trigger] pairs@.take(j as int), l),
        decreases pairs@.len() - j,
    {
        let (label, value) = pairs[j];
        proof {
            assert(crate::aggregate::sum_for(pairs@, label) == value) by {
                crate::sparse::lemma_bounded_signed(pairs@, MAX_VAL as int);
                crate::aggregate::lemma_sum_for_sorted_abs(pairs@, label, MAX_VAL as int);
            }
            assert(crate::aggregate::sum_for(pairs@.take(j as int), label) == 0) by {
                assert(forall|t: int|
                    0 <= t < j ==> (#[trigger] pairs@.take(j as int)[t]).0 != label);
                crate::aggregate::lemma_sum_for_absent(pairs@.take(j as int), label);
            }
        }
        let ghost before = acc@;
        let mut pos: usize = 0;
        while pos < acc.len() && acc[pos].0 < label
            invariant
                pos <= acc@.len(),
                acc@ == before,
                forall|t: int| 0 <= t < pos ==> (#[trigger] acc@[t]).0 < label,
            decreases acc@.len() - pos,
        {
            pos = pos + 1;
        }
        if pos < acc.len() && acc[pos].0 == label {
            let cur = acc[pos].1;
            if (value >= 0 && cur > MAX_VAL - value) || (value < 0 && cur < -MAX_VAL - value) {
                proof {
                    crate::sparse::lemma_bounded_signed(before, MAX_VAL as int);
                    crate::aggregate::lemma_sum_for_sorted_abs(before, label, MAX_VAL as int);
                    assert(before[pos as int].0 == label);
                    assert(crate::aggregate::sum_for(before, label) == cur);
                    assert(crate::aggregate::sum_for(acc0, label) + crate::aggregate::sum_for(
                        pairs@,
                        label,
                    ) == cur + value);
                }
                return false;
            }
            acc.set(pos, (label, cur + value));
            proof {
                assert forall|l: u32| true implies #[trigger] crate::aggregate::sum_for(acc@, l)
                    == crate::aggregate::sum_for(before, l) + if label == l {
                    value as int
                } else {
                    0
                } by {
                    crate::aggregate::lemma_sum_for_update(before, pos as int, value as int, l);
                }
            }
        } else {
            acc.insert(pos, (label, value));
            proof {
                assert forall|l: u32| true implies #[trigger] crate::aggregate::sum_for(acc@, l)
                    == crate::aggregate::sum_for(before, l) + if label == l {
                    value as int
                } else {
                    0
                } by {
                    crate::aggregate::lemma_sum_for_insert(before, pos as int, (label, value), l);
                }
            }
        }
        proof {
            assert(pairs@.take(j + 1).drop_last() == pairs@.take(j as int));
            assert(pairs@.take(j + 1).last() == pairs@[j as int]);
        }
        j = j + 1;
    }
    proof {
        assert(pairs@.take(pairs@.len() as int) == pairs@);
        assert forall|l: u32|
            -MAX_VAL <= crate::aggregate::sum_for(acc0, l) + #[trigger] crate::aggregate::sum_for(
                pairs@,
                l,
            ) <= MAX_VAL by {
            crate::sparse::lemma_bounded_signed(acc@, MAX_VAL as int);
            crate::aggregate::lemma_sum_for_sorted_abs(acc@, l, MAX_VAL as int);
        }
    }
    true
}

/// An exact copy of a sparse vector.
pub fn copy_sparse(v: &IndexValueVec) -> (r: IndexValueVec)
    ensures
        r@ == v@,
{
    let mut r: IndexValueVec = Vec::new();
    let mut i: usize = 0;
    while i < v.len()
        invariant
            i <= v@.len(),
            r@ == v@.take(i as int),
        decreases v@.len() - i,
    {
        r.push(v[i]);
        proof {
            assert(v@.take(i + 1) == v@.take(i as int).push(v@[i as int]));
        }
        i = i + 1;
    }
    proof {
        assert(v@.take(v@.len() as int) == v@);
    }
    r
}

/// The summed value at index `f` over the vectors assigned to `side`.
pub open spec fn side_sum(
    vectors: Seq<IndexValueVec>,
    partition: Seq<bool>,
    side: bool,
    f: u32,
) -> int
    decreases vectors.len(),
{
    if vectors.len() == 0 {
        0
    } else {
        side_sum(vectors.drop_last(), partition.drop_last(), side, f) + if partition[vectors.len()
            - 1] == side {
            crate::aggregate::sum_for(vectors.last()@, f)
        } else {
            0
        }
    }
}

/// `c` is the centroid of one partition side: some sorted raw vector holds
/// exactly the side's per-index totals, and `c` is its entry-wise l2
/// normalization (a no-op on an all-zero sum).
pub open spec fn side_centroid_of(
    raw: Seq<(u32, i64)>,
    vectors: Seq<IndexValueVec>,
    partition: Seq<bool>,
    side: bool,
    c: Seq<(u32, i64)>,
) -> bool {
    &&& sorted_strict(raw)
    &&& bounded(raw, MAX_VAL as int)
    &&& forall|f: u32| #[trigger] crate::aggregate::sum_for(raw, f) == side_sum(
        vectors,
        partition,
        side,
        f,
    )
    &&& if crate::sparse::sum_sq(raw) == 0 {
        c == raw
    } else {
        c == crate::centroid::normalized_seq(raw)
    }
}

/// Some raw total vector realizes `c` as the side's centroid.
pub open spec fn has_side_centroid(
    vectors: Seq<IndexValueVec>,
    partition: Seq<bool>,
    side: bool,
    c: Seq<(u32, i64)>,
) -> bool {
    exists|raw: Seq<(u32, i64)>| #[trigger] side_centroid_of(raw, vectors, partition, side, c)
}

/// The l2-normalized sum of the vectors assigned to one side of the
/// partition; the error reports an accumulator overflow.
pub fn side_centroid(vectors: &Vec<IndexValueVec>, partition: &Vec<bool>, side: bool) -> (r: Result<
    IndexValueVec,
    ClusterError,
>)
    requires
        partition@.len() == vectors@.len(),
        forall|i: int|
            0 <= i < vectors@.len() ==> sorted_strict((#[trigger] vectors@[i])@) && bounded(
                vectors@[i]@,
                SCALE as int,
            ),
    ensures
        r matches Ok(c) ==> sorted_strict(c@) && bounded(c@, SCALE as int) && has_side_centroid(
            vectors@,
            partition@,
            side,
            c@,
        ),
        (forall|e: int, f: u32|
            0 <= e <= vectors@.len() ==> -MAX_VAL <= #[trigger] side_sum(
                vectors@.take(e),
                partition@.take(e),
                side,
                f,
            ) <= MAX_VAL) ==> r is Ok,
{
    let mut acc: IndexValueVec = Vec::new();
    let mut i: usize = 0;
    while i < vectors.len()
        invariant
            i <= vectors@.len(),
            partition@.len() == vectors@.len(),
            forall|t: int|
                0 <= t < vectors@.len() ==> sorted_strict((#[trigger] vectors@[t])@) && bounded(
                    vectors@[t]@,
                    SCALE as int,
                ),
            sorted_strict(acc@),
            bounded(acc@, MAX_VAL as int),
            forall|f: u32| #[trigger] crate::aggregate::sum_for(acc@, f) == side_sum(
                vectors@.take(i as int),
                partition@.take(i as int),
                side,
                f,
            ),
        decreases vectors@.len() - i,
    {
        let ghost before = acc@;
        if partition[i] == side {
            proof {
                assert(bounded(vectors@[i as int]@, MAX_VAL as int));
            }
            let ok = accumulate_signed(&mut acc, &vectors[i]);
            if !ok {
                proof {
                    let f = choose|f: u32|
                        !(-MAX_VAL <= crate::aggregate::sum_for(before, f)
                            + #[trigger] crate::aggregate::sum_for(vectors@[i as int]@, f)
                            <= MAX_VAL);
                    assert(vectors@.take(i + 1).drop_last() == vectors@.take(i as int));
                    assert(partition@.take(i + 1).drop_last() == partition@.take(i as int));
                    assert(vectors@.take(i + 1).last() == vectors@[i as int]);
                    assert(partition@.take(i + 1)[i as int] == partition@[i as int]);
                    assert(crate::aggregate::sum_for(before, f) == side_sum(
                        vectors@.take(i as int),
                        partition@.take(i as int),
                        side,
                        f,
                    ));
                    assert(side_sum(vectors@.take(i + 1), partition@.take(i + 1), side, f)
                        == crate::aggregate::sum_for(before, f) + crate::aggregate::sum_for(
                        vectors@[i as int]@,
                        f,
                    ));
                    assert(!(-MAX_VAL <= side_sum(
                        vectors@.take(i + 1),
                        partition@.take(i + 1),
                        side,
                        f,
                    ) <= MAX_VAL));
                }
                return Err(ClusterError::Numerical);
            }
        }
        proof {
            assert(vectors@.take(i + 1).drop_last() == vectors@.take(i as int));
            assert(partition@.take(i + 1).drop_last() == partition@.take(i as int));
            assert(vectors@.take(i + 1).last() == vectors@[i as int]);
            assert(partition@.take(i + 1)[i as int] == partition@[i as int]);
        }
        i = i + 1;
    }
    proof {
        assert(vectors@.take(vectors@.len() as int) == vectors@);
        assert(partition@.take(partition@.len() as int) == partition@);
    }
    let ghost raw = acc@;
    l2_normalize(&mut acc);
    proof {
        crate::sparse::lemma_sum_sq_props(raw);
        if crate::sparse::sum_sq(raw) > 0 {
            let mapped = crate::centroid::normalized_seq(raw);
            assert(mapped.len() == raw.len());
            assert forall|q: int| 0 <= q < raw.len() implies acc@[q] == mapped[q] by {
                assert(acc@[q].0 == raw[q].0);
                assert(acc@[q].1 == crate::sparse::norm_val(
                    raw[q].1 as int,
                    crate::sparse::sum_sq(raw),
                ));
                assert(mapped[q] == (
                raw[q].0,
                crate::sparse::norm_val(raw[q].1 as int, crate::sparse::sum_sq(raw)) as i64,
                ));
            }
            assert(acc@ =~= mapped);
        }
        assert(side_centroid_of(raw, vectors@, partition@, side, acc@));
    }
    Ok(acc)
}

/// A xorshift step of the thread-local random state.
fn next_rand(state: u64) -> (r: u64) {
    let mut x = state;
    if x == 0 {
        x = 0x9e3779b97f4a7c15;
    }
    x = x ^ (x << 13);
    x = x ^ (x >> 7);
    x = x ^ (x << 17);
    x
}

/// Balanced 2-means of at least two unit-norm sparse vectors: two distinct
/// vectors drawn by the seed become the initial centroids; each step
/// reassigns the vectors in balanced halves and recomputes the centroids,
/// until the summed similarity stops improving by `epsilon` (scaled by the
/// vector count) or an iteration cap is hit. The returned partition is
/// exactly balanced, and the returned similarity trace never decreases; a
/// decrease would be a numerical bug and is reported as an error.
pub fn balanced_2means(vectors: &Vec<IndexValueVec>, epsilon: i64, seed: u64) -> (r: Result<
    (Vec<bool>, Vec<i128>),
    ClusterError,
>)
    requires
        2 <= vectors@.len() <= 0x1_0000_0000,
        epsilon > 0,
        forall|i: int|
            0 <= i < vectors@.len() ==> sorted_strict((#[trigger] vectors@[i])@) && bounded(
                vectors@[i]@,
                SCALE as int,
            ),
    ensures
        r matches Ok(x) ==> {
            &&& x.0@.len() == vectors@.len()
            &&& count_true(x.0@) == vectors@.len() - vectors@.len() / 2
            &&& x.1@.len() >= 1
            &&& forall|k: int| 0 <= k < x.1@.len() - 1 ==> #[trigger] x.1@[k] <= x.1@[k + 1]
        },
{
    let n = vectors.len();
    let r1 = next_rand(seed);
    let r2 = next_rand(r1);
    let i0 = (r1 % (n as u64)) as usize;
    let i1p = (r2 % ((n - 1) as u64)) as usize;
    let i1 = if i1p >= i0 {
        i1p + 1
    } else {
        i1p
    };
    let mut c0 = copy_sparse(&vectors[i0]);
    let mut c1 = copy_sparse(&vectors[i1]);
    proof {
        assert(0 <= (epsilon as int) * (n as int) <= 0x7fffffffffffffff * 0x1_0000_0000)
            by (nonlinear_arith)
            requires
                0 < epsilon <= 0x7fffffffffffffff,
                0 <= n <= 0x1_0000_0000,
        ;
        assert(0 <= (epsilon as int) * (n as int) * (SCALE as int) <= 0x7fffffffffffffff
            * 0x1_0000_0000 * 0x100000) by (nonlinear_arith)
            requires
                0 <= (epsilon as int) * (n as int) <= 0x7fffffffffffffff * 0x1_0000_0000,
                SCALE == 0x100000,
        ;
    }
    let eps_scaled: i128 = (epsilon as i128) * (n as i128) * (SCALE as i128);
    let (mut partition, mut last_sum) = balanced_2means_iterate(vectors, &c0, &c1);
    let mut sims: Vec<i128> = Vec::new();
    sims.push(last_sum);
    let mut it: usize = 0;
    while it < 64
        invariant
            n == vectors@.len(),
            2 <= n <= 0x1_0000_0000,
            forall|i: int|
                0 <= i < vectors@.len() ==> sorted_strict((#[trigger] vectors@[i])@) && bounded(
                    vectors@[i]@,
                    SCALE as int,
                ),
            partition@.len() == n,
            count_true(partition@) == n - n / 2,
            sims@.len() >= 1,
            sims@[sims@.len() - 1] == last_sum,
            -(0x1_0000_0000 * (0x2_0000_0000 * (SCALE as int) * SCALE)) <= last_sum
                <= 0x1_0000_0000 * (0x2_0000_0000 * (SCALE as int) * SCALE),
            forall|k: int| 0 <= k < sims@.len() - 1 ==> #[trigger] sims@[k] <= sims@[k + 1],
        decreases 64 - it,
    {
        let nc0 = match side_centroid(vectors, &partition, false) {
            Ok(c) => c,
            Err(e) => {
                return Err(e);
            },
        };
        let nc1 = match side_centroid(vectors, &partition, true) {
            Ok(c) => c,
            Err(e) => {
                return Err(e);
            },
        };
        c0 = nc0;
        c1 = nc1;
        let (p, sum) = balanced_2means_iterate(vectors, &c0, &c1);
        if sum < last_sum {
            return Err(ClusterError::Numerical);
        }
        partition = p;
        let ghost old_sims = sims@;
        sims.push(sum);
        proof {
            assert forall|k: int| 0 <= k < sims@.len() - 1 implies #[trigger] sims@[k] <= sims@[k
                + 1] by {
                if k < old_sims.len() - 1 {
                    assert(old_sims[k] <= old_sims[k + 1]);
                }
            }
        }
        let done = sum - last_sum < eps_scaled;
        last_sum = sum;
        if done {
            return Ok((partition, sims));
        }
        it = it + 1;
    }
    Ok((partition, sims))
}

/// An all-`false` sequence has no `true` entries.
proof fn lemma_count_all_false(s: Seq<bool>)
    requires
        forall|t: int| 0 <= t < s.len() ==> !(#[trigger] s[t]),
    ensures
        count_true(s) == 0,
    decreases s.len(),
{
    if s.len() > 0 {
        assert(forall|t: int| 0 <= t < s.len() - 1 ==> #[trigger] s.drop_last()[t] == s[t]);
        lemma_count_all_false(s.drop_last());
    }
}

/// Stable selection sort of vector positions by similarity difference,
/// descending; ties keep the earlier position first.
fn sort_order(order: &mut Vec<usize>, diffs: &Vec<i128>)
    requires
        old(order)@.len() == diffs@.len(),
        forall|t: int| 0 <= t < old(order)@.len() ==> (#[trigger] old(order)@[t]) == t,
    ensures
        final(order)@.len() == old(order)@.len(),
        forall|t: int| 0 <= t < final(order)@.len() ==> (#[trigger] final(order)@[t]) < final(order)@.len(),
        forall|p: int, q: int|
            0 <= p < q < final(order)@.len() ==> final(order)@[p] != final(order)@[q],
{
    broadcast use vstd::seq_lib::group_to_multiset_ensures;
    broadcast use vstd::multiset::group_multiset_axioms;

    let ghost orig = old(order)@;
    proof {
        assert(orig.no_duplicates());
        orig.lemma_multiset_has_no_duplicates();
    }
    let mut out: Vec<usize> = Vec::new();
    while order.len() > 0
        invariant
            out@.to_multiset().add(order@.to_multiset()) == orig.to_multiset(),
            out@.len() + order@.len() == orig.len(),
            orig.len() == diffs@.len(),
            forall|t: int| 0 <= t < orig.len() ==> (#[trigger] orig[t]) == t,
            forall|t: int| 0 <= t < order@.len() ==> (#[trigger] order@[t]) < diffs@.len(),
        decreases order@.len(),
    {
        let mut best: usize = 0;
        let mut i: usize = 1;
        while i < order.len()
            invariant
                best < i <= order@.len(),
                order@.len() >= 1,
                forall|t: int| 0 <= t < order@.len() ==> (#[trigger] order@[t]) < diffs@.len(),
            decreases order@.len() - i,
        {
            if diffs[order[i]] > diffs[order[best]] {
                best = i;
            }
            i = i + 1;
        }
        let ghost prev = order@;
        let e = order.remove(best);
        proof {
            broadcast use vstd::seq_lib::group_to_multiset_ensures;
            broadcast use vstd::multiset::group_multiset_axioms;

            assert(prev.contains(prev[best as int]));
            assert(prev.to_multiset().count(prev[best as int]) > 0);
            assert(order@ == prev.remove(best as int));
            assert(prev.remove(best as int).to_multiset() =~= prev.to_multiset().remove(
                prev[best as int],
            ));
            assert(out@.push(e).to_multiset() =~= out@.to_multiset().insert(e));
            assert(out@.to_multiset().insert(e).add(prev.to_multiset().remove(e))
                =~= orig.to_multiset());
            assert(forall|t: int|
                0 <= t < order@.len() ==> (#[trigger] order@[t]) == prev[t] || order@[t] == prev[t
                    + 1]);
        }
        out.push(e);
    }
    proof {
        assert(order@.to_multiset().len() == 0);
        assert(out@.to_multiset().add(order@.to_multiset()) =~= out@.to_multiset());
        assert(out@.to_multiset() == orig.to_multiset());
        assert forall|x: usize| out@.to_multiset().contains(x) implies out@.to_multiset().count(x)
            == 1 by {
            assert(orig.to_multiset().count(x) > 0);
            assert(orig.contains(x));
        }
        out@.lemma_multiset_has_no_duplicates_conv();
        assert forall|t: int| 0 <= t < out@.len() implies (#[trigger] out@[t]) < orig.len() by {
            assert(out@.contains(out@[t]));
            assert(out@.to_multiset().count(out@[t]) > 0);
            assert(orig.contains(out@[t]));
            let j = choose|j: int| 0 <= j < orig.len() && orig[j] == out@[t];
        }
    }
    *order = out;
}

} // verus!
