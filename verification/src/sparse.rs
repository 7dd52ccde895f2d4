//! Sparse vector kernels: sorted `(index, value)` entry lists with
//! fixed-point values, and the pure operations the classifier core needs —
//! pruning, l2 normalization, dot products and entry-wise accumulation.

use crate::fixed::{abs_val, div_trunc, MAX_VAL, SCALE};
use vstd::arithmetic::div_mod::{
    lemma_div_is_ordered, lemma_div_multiples_vanish, lemma_div_pos_is_pos,
};
use vstd::prelude::*;

verus! {

/// A sparse vector entry: a feature (or label) index paired with a
/// fixed-point value.
pub type Entry = (u32, i64);

/// A list of `(index, value)` pairs; the sparse-vector representation.
pub type IndexValueVec = Vec<Entry>;

/// Entries are strictly ascending by index: sorted and duplicate-free.
pub open spec fn sorted_strict(s: Seq<Entry>) -> bool {
    forall|i: int, j: int| 0 <= i < j < s.len() ==> s[i].0 < s[j].0
}

/// Every value has magnitude at most `b`.
pub open spec fn bounded(s: Seq<Entry>, b: int) -> bool {
    forall|i: int| 0 <= i < s.len() ==> abs_val((#[trigger] s[i]).1 as int) <= b
}

/// Every index is below `n`.
pub open spec fn indices_below(s: Seq<Entry>, n: int) -> bool {
    forall|i: int| 0 <= i < s.len() ==> (#[trigger] s[i].0) < n
}

/// The predicate deciding which entries `prune_with_threshold` keeps.
pub open spec fn keeps(t: i64) -> spec_fn(Entry) -> bool {
    |e: Entry| abs_val(e.1 as int) >= t
}

/// Drops every entry whose value has magnitude below `t`, preserving the
/// order (and hence sortedness) of the survivors.
pub fn prune_with_threshold(v: &IndexValueVec, t: i64) -> (r: IndexValueVec)
    requires
        t >= 0,
    ensures
        r@ == v@.filter(keeps(t)),
        sorted_strict(v@) ==> sorted_strict(r@),
        forall|k: int| 0 <= k < r@.len() ==> abs_val(#[trigger] r@[k].1 as int) >= t,
        forall|b: int| bounded(v@, b) ==> bounded(r@, b),
{
    let mut r: IndexValueVec = Vec::new();
    let mut i: usize = 0;
    while i < v.len()
        invariant
            i <= v.len(),
            t >= 0,
            r@ == v@.take(i as int).filter(keeps(t)),
        decreases v.len() - i,
    {
        let (index, value) = v[i];
        if value >= t || value <= -t {
            r.push((index, value));
        }
        proof {
            reveal(Seq::filter);
            assert(v@.take(i + 1).drop_last() == v@.take(i as int));
            assert(v@.take(i + 1).last() == v@[i as int]);
        }
        i = i + 1;
    }
    proof {
        assert(v@.take(v@.len() as int) == v@);
        lemma_filter_keeps(v@, t);
    }
    r
}

/// Facts about filtering with `keeps(t)`: every survivor satisfies the
/// predicate, survivors are a subsequence (so sortedness and bounds carry
/// over).
proof fn lemma_filter_keeps(s: Seq<Entry>, t: i64)
    ensures
        forall|k: int|
            0 <= k < s.filter(keeps(t)).len() ==> abs_val(
                #[trigger] s.filter(keeps(t))[k].1 as int,
            ) >= t,
        sorted_strict(s) ==> sorted_strict(s.filter(keeps(t))),
        forall|b: int| bounded(s, b) ==> bounded(s.filter(keeps(t)), b),
    decreases s.len(),
{
    reveal(Seq::filter);
    if s.len() > 0 {
        lemma_filter_keeps(s.drop_last(), t);
        let f = s.filter(keeps(t));
        let fd = s.drop_last().filter(keeps(t));
        assert forall|k: int| 0 <= k < fd.len() implies exists|j: int|
            0 <= j < s.len() - 1 && #[trigger] fd[k] == s[j] by {
            lemma_filter_member(s.drop_last(), keeps(t), k);
        }
        if keeps(t)(s.last()) {
            assert(f == fd.push(s.last()));
        } else {
            assert(f == fd);
        }
    }
}

/// The sum of squared values of a sparse vector, as an exact integer.
pub open spec fn sum_sq(s: Seq<Entry>) -> int
    decreases s.len(),
{
    if s.len() == 0 {
        0
    } else {
        sum_sq(s.drop_last()) + s.last().1 * s.last().1
    }
}

/// `r` is the integer square root of `x`, rounded down.
pub open spec fn is_sqrt_floor(x: int, r: int) -> bool {
    0 <= r && r * r <= x && x < (r + 1) * (r + 1)
}

/// The integer square root of `x`, rounded down.
pub open spec fn sqrt_floor(x: int) -> int {
    choose|r: int| is_sqrt_floor(x, r)
}

/// The integer square root is unique, so any witness equals `sqrt_floor`.
pub proof fn lemma_sqrt_floor_unique(x: int, r: int)
    requires
        is_sqrt_floor(x, r),
    ensures
        sqrt_floor(x) == r,
{
    assert(exists|q: int| is_sqrt_floor(x, q));
    let c = sqrt_floor(x);
    assert(is_sqrt_floor(x, c));
    if c < r {
        assert((c + 1) * (c + 1) <= r * r) by (nonlinear_arith)
            requires
                0 <= c,
                c + 1 <= r,
        ;
    }
    if r < c {
        assert((r + 1) * (r + 1) <= c * c) by (nonlinear_arith)
            requires
                0 <= r,
                r + 1 <= c,
        ;
    }
}

/// An integer square root exists for every nonnegative integer, so
/// `sqrt_floor` is well defined and satisfies `is_sqrt_floor`.
pub proof fn lemma_sqrt_floor_exists(x: int)
    requires
        0 <= x,
    ensures
        is_sqrt_floor(x, sqrt_floor(x)),
    decreases x,
{
    if x == 0 {
        assert(is_sqrt_floor(0, 0));
    } else {
        lemma_sqrt_floor_exists(x - 1);
        let r = sqrt_floor(x - 1);
        if x < (r + 1) * (r + 1) {
            assert(is_sqrt_floor(x, r));
        } else {
            assert(x == (r + 1) * (r + 1));
            assert((r + 2) * (r + 2) > (r + 1) * (r + 1)) by (nonlinear_arith)
                requires
                    r >= 0,
            ;
            assert(is_sqrt_floor(x, r + 1));
        }
    }
    assert(exists|q: int| is_sqrt_floor(x, q));
    let c = sqrt_floor(x);
    assert(is_sqrt_floor(x, c));
}

/// Nonnegative sums of squares: every term is at most the whole sum.
pub proof fn lemma_sum_sq_props(s: Seq<Entry>)
    ensures
        sum_sq(s) >= 0,
        forall|i: int| 0 <= i < s.len() ==> (#[trigger] s[i].1) * s[i].1 <= sum_sq(s),
        sum_sq(s) == 0 ==> forall|i: int| 0 <= i < s.len() ==> (#[trigger] s[i]).1 == 0,
        forall|b: int| bounded(s, b) && b >= 0 ==> sum_sq(s) <= s.len() * b * b,
    decreases s.len(),
{
    if s.len() > 0 {
        lemma_sum_sq_props(s.drop_last());
        let v = s.last().1 as int;
        assert(v * v >= 0) by (nonlinear_arith);
        assert forall|i: int| 0 <= i < s.len() implies (#[trigger] s[i].1) * s[i].1 <= sum_sq(s) by {
            if i < s.len() - 1 {
                assert(s.drop_last()[i] == s[i]);
            }
        }
        if sum_sq(s) == 0 {
            assert(v == 0) by (nonlinear_arith)
                requires
                    v * v <= 0,
            ;
            assert forall|i: int| 0 <= i < s.len() implies (#[trigger] s[i]).1 == 0 by {
                if i < s.len() - 1 {
                    assert(s.drop_last()[i] == s[i]);
                }
            }
        }
        assert forall|b: int| bounded(s, b) && b >= 0 implies sum_sq(s) <= s.len() * b * b by {
            assert(bounded(s.drop_last(), b)) by {
                assert(forall|i: int|
                    0 <= i < s.len() - 1 ==> #[trigger] s.drop_last()[i] == s[i]);
            }
            assert(v * v <= b * b) by (nonlinear_arith)
                requires
                    -b <= v <= b,
                    b >= 0,
            ;
            assert((s.len() - 1) * b * b + b * b == s.len() * b * b) by (nonlinear_arith);
        }
    }
}

/// `bounded` written as a signed range on every value.
pub proof fn lemma_bounded_signed(s: Seq<Entry>, b: int)
    requires
        bounded(s, b),
    ensures
        forall|i: int| 0 <= i < s.len() ==> -b <= (#[trigger] s[i]).1 <= b,
{
}

/// In a strictly sorted vector the `i`th index is at least `i`, so the
/// length can never exceed the index space.
pub proof fn lemma_sorted_len(s: Seq<Entry>)
    requires
        sorted_strict(s),
    ensures
        forall|i: int| 0 <= i < s.len() ==> (#[trigger] s[i]).0 >= i,
        s.len() <= 0x1_0000_0000,
    decreases s.len(),
{
    if s.len() > 0 {
        assert(sorted_strict(s.drop_last())) by {
            assert(forall|i: int| 0 <= i < s.len() - 1 ==> #[trigger] s.drop_last()[i] == s[i]);
        }
        lemma_sorted_len(s.drop_last());
        assert forall|i: int| 0 <= i < s.len() implies (#[trigger] s[i]).0 >= i by {
            if i < s.len() - 1 {
                assert(s.drop_last()[i] == s[i]);
            } else if i > 0 {
                assert(s.drop_last()[i - 1] == s[i - 1]);
                assert(s[i - 1].0 < s[i].0);
            }
        }
        assert(s[s.len() - 1].0 >= s.len() - 1);
        assert(s[s.len() - 1].0 < 0x1_0000_0000);
    }
}

/// Binary-search integer square root.
pub fn isqrt(x: i128) -> (r: i128)
    requires
        0 <= x,
        x < 0x200000000000000 * 0x200000000000000,
    ensures
        is_sqrt_floor(x as int, r as int),
        r == sqrt_floor(x as int),
{
    let mut lo: i128 = 0;
    let mut hi: i128 = 0x200000000000000;
    while hi - lo > 1
        invariant
            0 <= lo < hi <= 0x200000000000000,
            lo * lo <= x,
            x < hi * hi,
        decreases hi - lo,
    {
        let mid: i128 = lo + (hi - lo) / 2;
        proof {
            assert(mid * mid <= 0x200000000000000 * 0x200000000000000) by (nonlinear_arith)
                requires
                    0 <= mid <= 0x200000000000000,
            ;
        }
        if mid * mid <= x {
            lo = mid;
        } else {
            hi = mid;
        }
    }
    proof {
        lemma_sqrt_floor_unique(x as int, lo as int);
    }
    lo
}

/// A value divided by the vector's l2 norm, both in fixed point, truncated
/// toward zero; `ss` is the raw sum of squared values. For sums small
/// enough to scale, the square root is taken at full fixed-point precision
/// (radicand and numerator both carry the squared scale); larger sums
/// already have ample precision unscaled.
pub open spec fn norm_val(v: int, ss: int) -> int
    recommends
        ss >= 1,
{
    if ss <= 0x1000000000000000000 {
        div_trunc(v * SCALE * SCALE, sqrt_floor(ss * SCALE * SCALE))
    } else {
        div_trunc(v * SCALE, sqrt_floor(ss))
    }
}

/// Pointwise domination of scaled magnitudes carries over to the scaled
/// sums of squares.
#[verifier::rlimit(100)]
proof fn lemma_norm_sum_sq_step(a: Seq<Entry>, b: Seq<Entry>, n: int, d: int)
    requires
        a.len() == b.len(),
        n >= 0,
        d >= 0,
        forall|i: int|
            0 <= i < a.len() ==> abs_val((#[trigger] b[i]).1 as int) * d <= abs_val(
                a[i].1 as int,
            ) * n,
    ensures
        sum_sq(b) * d * d <= sum_sq(a) * n * n,
    decreases a.len(),
{
    if a.len() == 0 {
        assert(sum_sq(b) * d * d <= sum_sq(a) * n * n) by (nonlinear_arith)
            requires
                sum_sq(b) == 0 && sum_sq(a) == 0,
        ;
    } else {
        assert(forall|i: int| 0 <= i < a.len() - 1 ==> #[trigger] a.drop_last()[i] == a[i]);
        assert(forall|i: int| 0 <= i < b.len() - 1 ==> #[trigger] b.drop_last()[i] == b[i]);
        lemma_norm_sum_sq_step(a.drop_last(), b.drop_last(), n, d);
        let al = a.last().1 as int;
        let bl = b.last().1 as int;
        assert(abs_val(bl) * d <= abs_val(al) * n);
        assert(bl * bl * (d * d) <= al * al * (n * n)) by (nonlinear_arith)
            requires
                abs_val(bl) * d <= abs_val(al) * n,
                abs_val(bl) == bl || abs_val(bl) == -bl,
                abs_val(al) == al || abs_val(al) == -al,
                abs_val(bl) >= 0,
                abs_val(al) >= 0,
                n >= 0,
                d >= 0,
        ;
        assert(sum_sq(b) * d * d <= sum_sq(a) * n * n) by (nonlinear_arith)
            requires
                sum_sq(b) == sum_sq(b.drop_last()) + bl * bl,
                sum_sq(a) == sum_sq(a.drop_last()) + al * al,
                sum_sq(b.drop_last()) * d * d <= sum_sq(a.drop_last()) * n * n,
                bl * bl * (d * d) <= al * al * (n * n),
        ;
    }
}

/// The unit-norm tolerance, upper side: if every normalized magnitude is
/// the truncated quotient of the original magnitude (scaled by `n`) over a
/// divisor `d` of at least one unit, and the scaled original sum of
/// squares sits under `(d+1)^2` square units, then the normalized sum of
/// squares exceeds one square unit by at most `2*SCALE + 1` — a relative
/// excess of about 2e-6.
pub proof fn lemma_norm_sum_sq_upper(a: Seq<Entry>, b: Seq<Entry>, n: int, d: int)
    requires
        a.len() == b.len(),
        d >= SCALE,
        n >= 0,
        forall|i: int|
            0 <= i < a.len() ==> abs_val((#[trigger] b[i]).1 as int) * d <= abs_val(
                a[i].1 as int,
            ) * n,
        sum_sq(a) * n * n < (d + 1) * (d + 1) * (SCALE as int) * SCALE,
    ensures
        sum_sq(b) <= SCALE * (SCALE as int) + 2 * SCALE + 1,
{
    lemma_norm_sum_sq_step(a, b, n, d);
    lemma_sum_sq_props(b);
    let x = sum_sq(b);
    assert((d + 1) * SCALE <= (SCALE + 1) * d) by (nonlinear_arith)
        requires
            d >= SCALE,
    ;
    assert((d + 1) * (d + 1) * (SCALE as int) * SCALE <= (SCALE + 1) * ((SCALE as int) + 1) * d
        * d) by (nonlinear_arith)
        requires
            0 <= (d + 1) * SCALE <= (SCALE + 1) * d,
    ;
    assert(x <= SCALE * (SCALE as int) + 2 * SCALE + 1) by (nonlinear_arith)
        requires
            x >= 0,
            d >= 1,
            x * d * d < (SCALE + 1) * ((SCALE as int) + 1) * d * d,
    ;
}

/// Divides every value by the vector's l2 norm; a no-op when the vector is
/// all zero. Indices are untouched, so sortedness is preserved; every
/// resulting value has magnitude at most one unit, and the resulting sum
/// of squares overshoots one square unit by at most `2*SCALE + 1` (about
/// 2e-6 relative), the provable upper side of the unit-norm tolerance.
pub fn l2_normalize(v: &mut IndexValueVec)
    requires
        sorted_strict(old(v)@),
        bounded(old(v)@, MAX_VAL as int),
    ensures
        final(v)@.len() == old(v)@.len(),
        forall|i: int| 0 <= i < old(v)@.len() ==> (#[trigger] final(v)@[i]).0 == old(v)@[i].0,
        sum_sq(old(v)@) == 0 ==> final(v)@ == old(v)@,
        sum_sq(old(v)@) > 0 ==> forall|i: int|
            0 <= i < old(v)@.len() ==> (#[trigger] final(v)@[i]).1 == norm_val(
                old(v)@[i].1 as int,
                sum_sq(old(v)@),
            ),
        sum_sq(old(v)@) > 0 ==> sum_sq(final(v)@) <= SCALE * (SCALE as int) + 2 * SCALE + 1,
        bounded(final(v)@, SCALE as int),
        sorted_strict(final(v)@),
{
    proof {
        lemma_sorted_len(old(v)@);
        lemma_sum_sq_props(old(v)@);
        let n = old(v)@.len() as int;
        assert(n * MAX_VAL * MAX_VAL <= 0x1_0000_0000 * (MAX_VAL as int) * MAX_VAL)
            by (nonlinear_arith)
            requires
                0 <= n <= 0x1_0000_0000,
        ;
    }
    let mut ss: i128 = 0;
    let mut i: usize = 0;
    while i < v.len()
        invariant
            v@ == old(v)@,
            sorted_strict(v@),
            bounded(v@, MAX_VAL as int),
            i <= v@.len(),
            v@.len() <= 0x1_0000_0000,
            ss == sum_sq(v@.take(i as int)),
            0 <= ss <= i * MAX_VAL * MAX_VAL,
        decreases v@.len() - i,
    {
        let x: i128 = v[i].1 as i128;
        proof {
            assert(v@.take(i + 1).drop_last() == v@.take(i as int));
            assert(v@.take(i + 1).last() == v@[i as int]);
            assert(-(MAX_VAL as i128) <= x <= MAX_VAL as i128);
            assert(0 <= x * x <= (MAX_VAL as int) * MAX_VAL) by (nonlinear_arith)
                requires
                    -(MAX_VAL as int) <= x <= MAX_VAL as int,
            ;
            assert(i * MAX_VAL * MAX_VAL + MAX_VAL * MAX_VAL == (i + 1) * MAX_VAL
                * MAX_VAL) by (nonlinear_arith);
            assert((i + 1) * (MAX_VAL as int) * MAX_VAL <= 0x1_0000_0000 * (MAX_VAL as int)
                * MAX_VAL) by (nonlinear_arith)
                requires
                    0 <= i + 1 <= 0x1_0000_0000,
            ;
        }
        ss = ss + x * x;
        i = i + 1;
    }
    proof {
        assert(v@.take(v@.len() as int) == v@);
    }
    if ss == 0 {
        return ;
    }
    let ghost ssg = ss as int;
    proof {
        assert(0x1_0000_0000 * (MAX_VAL as int) * MAX_VAL < 0x200000000000000
            * 0x200000000000000) by (nonlinear_arith);
    }
    let precise = ss <= 0x1000000000000000000;
    let num_scale: i128;
    let ns: i128;
    if precise {
        proof {
            assert(0 < ss * (SCALE as int) * SCALE <= 0x1000000000000000000 * (SCALE as int)
                * SCALE && 0x1000000000000000000 * (SCALE as int) * SCALE < 0x200000000000000
                * 0x200000000000000) by (nonlinear_arith)
                requires
                    0 < ss <= 0x1000000000000000000,
                    SCALE == 0x100000,
            ;
        }
        num_scale = (SCALE as i128) * (SCALE as i128);
        ns = isqrt(ss * (SCALE as i128) * (SCALE as i128));
    } else {
        num_scale = SCALE as i128;
        ns = isqrt(ss);
    }
    proof {
        lemma_sum_sq_props(v@);
        if precise {
            let ss2 = ssg * (SCALE as int) * SCALE;
            assert(ns >= SCALE) by (nonlinear_arith)
                requires
                    ssg >= 1,
                    SCALE == 0x100000,
                    ss2 == ssg * (SCALE as int) * SCALE,
                    ss2 < ((ns as int) + 1) * ((ns as int) + 1),
                    ns >= 0,
            ;
            assert forall|t: int| 0 <= t < v@.len() implies abs_val((#[trigger] v@[t]).1 as int)
                * num_scale <= (ns as int) * SCALE by {
                let m = abs_val(v@[t].1 as int);
                let val = v@[t].1 as int;
                assert(val * val <= ssg);
                assert(m * SCALE <= ns) by (nonlinear_arith)
                    requires
                        m >= 0,
                        ns >= 0,
                        m == val || m == -val,
                        val * val <= ssg,
                        ss2 == ssg * (SCALE as int) * SCALE,
                        ss2 < (ns + 1) * (ns + 1),
                        SCALE >= 1,
                ;
                assert(m * num_scale <= (ns as int) * SCALE) by (nonlinear_arith)
                    requires
                        m * SCALE <= ns,
                        m >= 0,
                        num_scale == (SCALE as int) * SCALE,
                        SCALE >= 1,
                ;
            }
        } else {
            assert(ns >= SCALE) by (nonlinear_arith)
                requires
                    ssg > 0x1000000000000000000,
                    SCALE == 0x100000,
                    ssg < (ns + 1) * (ns + 1),
                    ns >= 0,
            ;
            assert forall|t: int| 0 <= t < v@.len() implies abs_val((#[trigger] v@[t]).1 as int)
                * num_scale <= (ns as int) * SCALE by {
                let m = abs_val(v@[t].1 as int);
                let val = v@[t].1 as int;
                assert(val * val <= ssg);
                assert(m <= ns) by (nonlinear_arith)
                    requires
                        m >= 0,
                        ns >= 0,
                        m == val || m == -val,
                        val * val <= ssg,
                        ssg < (ns + 1) * (ns + 1),
                ;
                assert(m * num_scale <= (ns as int) * SCALE) by (nonlinear_arith)
                    requires
                        m <= ns,
                        num_scale == SCALE as int,
                        SCALE >= 1,
                ;
            }
        }
    }
    let ghost orig = v@;
    let mut nv: IndexValueVec = Vec::new();
    let mut k: usize = 0;
    while k < v.len()
        invariant
            v@ == orig,
            sorted_strict(v@),
            bounded(v@, MAX_VAL as int),
            k <= v@.len(),
            ssg == sum_sq(v@),
            ssg >= 1,
            SCALE <= ns,
            0 < num_scale <= (SCALE as int) * SCALE,
            precise == (ssg <= 0x1000000000000000000),
            precise ==> num_scale == (SCALE as int) * SCALE && ns == sqrt_floor(
                ssg * SCALE * SCALE,
            ) && ssg * SCALE * SCALE < ((ns as int) + 1) * ((ns as int) + 1),
            !precise ==> num_scale == SCALE as int && ns == sqrt_floor(ssg) && ssg < ((
            ns as int) + 1) * ((ns as int) + 1),
            forall|t: int|
                0 <= t < v@.len() ==> abs_val((#[trigger] v@[t]).1 as int) * num_scale <= (
                ns as int) * SCALE,
            nv@.len() == k,
            forall|t: int| 0 <= t < k ==> (#[trigger] nv@[t]).0 == v@[t].0,
            forall|t: int|
                0 <= t < k ==> (#[trigger] nv@[t]).1 == norm_val(v@[t].1 as int, ssg),
            forall|t: int|
                0 <= t < k ==> abs_val((#[trigger] nv@[t]).1 as int) * (ns as int) <= abs_val(
                    v@[t].1 as int,
                ) * num_scale,
            bounded(nv@, SCALE as int),
        decreases v@.len() - k,
    {
        let (index, value) = v[k];
        let mag: i128 = if value < 0 {
            -(value as i128)
        } else {
            value as i128
        };
        proof {
            let val = v@[k as int].1 as int;
            assert(mag == abs_val(val));
            assert(abs_val(val) * num_scale <= (ns as int) * SCALE);
            assert(0 <= mag * num_scale <= (MAX_VAL as int) * ((SCALE as int) * SCALE))
                by (nonlinear_arith)
                requires
                    0 <= mag <= MAX_VAL,
                    0 < num_scale <= (SCALE as int) * SCALE,
            ;
            lemma_div_is_ordered(mag * num_scale, (ns as int) * SCALE, ns as int);
            lemma_div_multiples_vanish(SCALE as int, ns as int);
            assert((ns as int) * SCALE == (ns as int) * (SCALE as int));
            lemma_div_pos_is_pos(mag * num_scale, ns as int);
            vstd::arithmetic::div_mod::lemma_fundamental_div_mod(mag * num_scale, ns as int);
            vstd::arithmetic::div_mod::lemma_mod_bound(mag * num_scale, ns as int);
        }
        let q: i128 = mag * num_scale / ns;
        proof {
            let val = v@[k as int].1 as int;
            if precise {
                assert(val * SCALE * SCALE == val * num_scale && (-val) * SCALE * SCALE == (-val)
                    * num_scale) by (nonlinear_arith)
                    requires
                        num_scale == (SCALE as int) * SCALE,
                ;
                assert(-(val * SCALE * SCALE) == (-val) * (SCALE as int) * SCALE)
                    by (nonlinear_arith);
            } else {
                assert(-(val * SCALE) == (-val) * (SCALE as int)) by (nonlinear_arith);
            }
            assert((q as int) * (ns as int) <= mag * num_scale) by (nonlinear_arith)
                requires
                    mag * num_scale == (ns as int) * (q as int) + (mag * num_scale) % (
                    ns as int),
                    (mag * num_scale) % (ns as int) >= 0,
            ;
        }
        let nval: i64 = if value < 0 {
            -(q as i64)
        } else {
            q as i64
        };
        nv.push((index, nval));
        k = k + 1;
    }
    proof {
        if precise {
            assert(sum_sq(v@) * num_scale * num_scale < ((ns as int) + 1) * ((ns as int) + 1) * (
            SCALE as int) * SCALE) by (nonlinear_arith)
                requires
                    num_scale == (SCALE as int) * SCALE,
                    ssg == sum_sq(v@),
                    ssg >= 1,
                    SCALE >= 1,
                    ssg * SCALE * SCALE < ((ns as int) + 1) * ((ns as int) + 1),
            ;
        } else {
            assert(sum_sq(v@) * num_scale * num_scale < ((ns as int) + 1) * ((ns as int) + 1) * (
            SCALE as int) * SCALE) by (nonlinear_arith)
                requires
                    num_scale == SCALE as int,
                    ssg == sum_sq(v@),
                    SCALE >= 1,
                    ssg < ((ns as int) + 1) * ((ns as int) + 1),
            ;
        }
        lemma_norm_sum_sq_upper(v@, nv@, num_scale as int, ns as int);
    }
    *v = nv;
}

/// A vector with a single nonzero entry normalizes to exactly one unit:
/// its normalized sum of squares is the square of the scale. This is the
/// exactly-provable core of the unit-norm property; for general vectors the
/// truncating division leaves the sum within a small tolerance of one.
pub proof fn lemma_normalize_single_exact(v: int)
    requires
        0 < v <= MAX_VAL || -MAX_VAL <= v < 0,
    ensures
        norm_val(v, v * v) * norm_val(v, v * v) == SCALE * (SCALE as int),
{
    let m = abs_val(v);
    assert(m * m == v * v && m >= 1) by (nonlinear_arith)
        requires
            m == v || m == -v,
            v != 0,
            m >= 0,
    ;
    if v * v <= 0x1000000000000000000 {
        let d0 = m * SCALE;
        assert(d0 * d0 == v * v * SCALE * SCALE && v * v * SCALE * SCALE < (d0 + 1) * (d0 + 1)
            && d0 >= 1) by (nonlinear_arith)
            requires
                m * m == v * v,
                d0 == m * SCALE,
                m >= 1,
                SCALE >= 1,
        ;
        assert(is_sqrt_floor(v * v * SCALE * SCALE, d0));
        lemma_sqrt_floor_unique(v * v * SCALE * SCALE, d0);
        lemma_div_multiples_vanish(SCALE as int, d0);
        assert(d0 * (SCALE as int) == m * SCALE * SCALE) by (nonlinear_arith)
            requires
                d0 == m * SCALE,
        ;
        assert(norm_val(v, v * v) == SCALE || norm_val(v, v * v) == -SCALE) by {
            if v >= 0 {
                assert(v * SCALE * SCALE == m * SCALE * SCALE);
            } else {
                assert(-(v * SCALE * SCALE) == m * SCALE * SCALE) by (nonlinear_arith)
                    requires
                        m == -v,
                ;
            }
        }
    } else {
        assert(is_sqrt_floor(v * v, m)) by {
            assert(m * m < (m + 1) * (m + 1)) by (nonlinear_arith)
                requires
                    m >= 1,
            ;
        }
        lemma_sqrt_floor_unique(v * v, m);
        lemma_div_multiples_vanish(SCALE as int, m);
        assert(m * (SCALE as int) == m * SCALE);
        assert(norm_val(v, v * v) == SCALE || norm_val(v, v * v) == -SCALE) by {
            if v >= 0 {
                assert(v * SCALE == m * SCALE);
            } else {
                assert(-(v * SCALE) == m * SCALE) by (nonlinear_arith)
                    requires
                        m == -v,
                ;
            }
        }
    }
    assert(norm_val(v, v * v) * norm_val(v, v * v) == SCALE * (SCALE as int)) by (nonlinear_arith)
        requires
            norm_val(v, v * v) == SCALE || norm_val(v, v * v) == -SCALE,
    ;
}

/// The inner product of two sorted sparse vectors, as the exact integer sum
/// of products over matching indices, stated as a linear merge.
pub open spec fn dot_merge(a: Seq<Entry>, b: Seq<Entry>) -> int
    decreases a.len() + b.len(),
{
    if a.len() == 0 || b.len() == 0 {
        0
    } else if a[0].0 == b[0].0 {
        a[0].1 * b[0].1 + dot_merge(a.skip(1), b.skip(1))
    } else if a[0].0 < b[0].0 {
        dot_merge(a.skip(1), b)
    } else {
        dot_merge(a, b.skip(1))
    }
}

/// Inner product of two sorted sparse vectors by linear merge on indices.
/// The result carries the square of the fixed-point scale (no rescaling is
/// done here), so it is exact.
pub fn dot(a: &IndexValueVec, b: &IndexValueVec) -> (r: i128)
    requires
        sorted_strict(a@),
        sorted_strict(b@),
        bounded(a@, MAX_VAL as int),
        bounded(b@, MAX_VAL as int),
    ensures
        r == dot_merge(a@, b@),
        -(0x2_0000_0000 * (MAX_VAL as int) * MAX_VAL) <= r <= 0x2_0000_0000 * (MAX_VAL as int)
            * MAX_VAL,
{
    proof {
        lemma_sorted_len(a@);
        lemma_sorted_len(b@);
        assert(a@.skip(0) =~= a@);
        assert(b@.skip(0) =~= b@);
        let n = a@.len() + b@.len();
        assert(n * MAX_VAL * MAX_VAL <= 0x2_0000_0000 * (MAX_VAL as int) * MAX_VAL)
            by (nonlinear_arith)
            requires
                0 <= n <= 0x2_0000_0000,
        ;
    }
    let mut i: usize = 0;
    let mut j: usize = 0;
    let mut acc: i128 = 0;
    while i < a.len() && j < b.len()
        invariant
            i <= a@.len(),
            j <= b@.len(),
            a@.len() <= 0x1_0000_0000,
            b@.len() <= 0x1_0000_0000,
            bounded(a@, MAX_VAL as int),
            bounded(b@, MAX_VAL as int),
            dot_merge(a@, b@) == acc + dot_merge(a@.skip(i as int), b@.skip(j as int)),
            -((i + j) as int) * MAX_VAL * MAX_VAL <= acc <= ((i + j) as int) * MAX_VAL
                * MAX_VAL,
            -(0x2_0000_0000 * (MAX_VAL as int) * MAX_VAL) <= acc <= 0x2_0000_0000
                * (MAX_VAL as int) * MAX_VAL,
        decreases a@.len() - i + b@.len() - j,
    {
        let (ia, va) = a[i];
        let (ib, vb) = b[j];
        proof {
            assert(a@.skip(i as int)[0] == a@[i as int]);
            assert(b@.skip(j as int)[0] == b@[j as int]);
            assert(a@.skip(i as int).skip(1) =~= a@.skip(i + 1));
            assert(b@.skip(j as int).skip(1) =~= b@.skip(j + 1));
            let p = (va as int) * (vb as int);
            assert(-(MAX_VAL as int) * MAX_VAL <= p <= (MAX_VAL as int) * MAX_VAL)
                by (nonlinear_arith)
                requires
                    -(MAX_VAL as int) <= va <= MAX_VAL as int,
                    -(MAX_VAL as int) <= vb <= MAX_VAL as int,
                    p == (va as int) * (vb as int),
            ;
            let s = (i + j) as int;
            assert(s * MAX_VAL * MAX_VAL + MAX_VAL * MAX_VAL == (s + 1) * MAX_VAL * MAX_VAL
                && (s + 1) * MAX_VAL * MAX_VAL + MAX_VAL * MAX_VAL == (s + 2) * MAX_VAL
                * MAX_VAL && (s + 2) * (MAX_VAL as int) * MAX_VAL <= 0x2_0000_0000
                * (MAX_VAL as int) * MAX_VAL) by (nonlinear_arith)
                requires
                    0 <= s <= 0x2_0000_0000 - 2,
            ;
        }
        if ia == ib {
            acc = acc + (va as i128) * (vb as i128);
            i = i + 1;
            j = j + 1;
        } else if ia < ib {
            i = i + 1;
        } else {
            j = j + 1;
        }
    }
    proof {
        assert(dot_merge(a@.skip(i as int), b@.skip(j as int)) == 0);
    }
    acc
}

/// The inner product of a sparse row against a dense vector: the exact sum
/// of `row[i].1 * dense[row[i].0]` over every entry of the row.
pub open spec fn dot_dense_spec(row: Seq<Entry>, dense: Seq<i64>) -> int
    decreases row.len(),
{
    if row.len() == 0 {
        0
    } else {
        dot_dense_spec(row.drop_last(), dense) + row.last().1 * dense[row.last().0 as int]
    }
}

/// Inner product of a sparse classifier row with a dense feature vector.
pub fn dot_dense(row: &IndexValueVec, dense: &Vec<i64>) -> (r: i128)
    requires
        sorted_strict(row@),
        bounded(row@, MAX_VAL as int),
        indices_below(row@, dense@.len() as int),
        forall|i: int| 0 <= i < dense@.len() ==> -SCALE <= #[trigger] dense@[i] <= SCALE,
    ensures
        r == dot_dense_spec(row@, dense@),
        -(0x1_0000_0000 * (MAX_VAL as int) * SCALE) <= r <= 0x1_0000_0000 * (MAX_VAL as int)
            * SCALE,
{
    proof {
        lemma_sorted_len(row@);
        let n = row@.len() as int;
        assert(n * MAX_VAL * SCALE <= 0x1_0000_0000 * (MAX_VAL as int) * SCALE)
            by (nonlinear_arith)
            requires
                0 <= n <= 0x1_0000_0000,
        ;
    }
    let mut i: usize = 0;
    let mut acc: i128 = 0;
    while i < row.len()
        invariant
            i <= row@.len(),
            row@.len() <= 0x1_0000_0000,
            bounded(row@, MAX_VAL as int),
            indices_below(row@, dense@.len() as int),
            forall|t: int| 0 <= t < dense@.len() ==> -SCALE <= #[trigger] dense@[t] <= SCALE,
            acc == dot_dense_spec(row@.take(i as int), dense@),
            -(i as int) * MAX_VAL * SCALE <= acc <= (i as int) * MAX_VAL * SCALE,
            -(0x1_0000_0000 * (MAX_VAL as int) * SCALE) <= acc <= 0x1_0000_0000
                * (MAX_VAL as int) * SCALE,
        decreases row@.len() - i,
    {
        let (index, value) = row[i];
        let d: i64 = dense[index as usize];
        proof {
            assert(row@.take(i + 1).drop_last() == row@.take(i as int));
            assert(row@.take(i + 1).last() == row@[i as int]);
            let p = (value as int) * (d as int);
            assert(-(MAX_VAL as int) * SCALE <= p <= (MAX_VAL as int) * SCALE)
                by (nonlinear_arith)
                requires
                    -(MAX_VAL as int) <= value <= MAX_VAL as int,
                    -(SCALE as int) <= d <= SCALE as int,
                    p == (value as int) * (d as int),
            ;
            let s = i as int;
            assert(s * MAX_VAL * SCALE + MAX_VAL * SCALE == (s + 1) * MAX_VAL * SCALE && (s
                + 1) * (MAX_VAL as int) * SCALE <= 0x1_0000_0000 * (MAX_VAL as int)
                * SCALE) by (nonlinear_arith)
                requires
                    0 <= s <= 0x1_0000_0000 - 1,
            ;
        }
        acc = acc + (value as i128) * (d as i128);
        i = i + 1;
    }
    proof {
        assert(row@.take(row@.len() as int) == row@);
    }
    acc
}

/// The value a sparse vector holds at index `f`, zero when absent.
pub open spec fn value_at(s: Seq<Entry>, f: int) -> int
    decreases s.len(),
{
    if s.len() == 0 {
        0
    } else if s.last().0 == f {
        s.last().1 as int
    } else {
        value_at(s.drop_last(), f)
    }
}

/// Normalization rescales the value at every index: a pointwise-mapped
/// vector holds `norm_val` of the original value everywhere, also at
/// absent indices, where both sides are zero.
pub proof fn lemma_value_at_normalized(a: Seq<Entry>, b: Seq<Entry>, ss: int, f: int)
    requires
        ss >= 1,
        a.len() == b.len(),
        forall|i: int| 0 <= i < a.len() ==> (#[trigger] b[i]).0 == a[i].0,
        forall|i: int| 0 <= i < a.len() ==> (#[trigger] b[i]).1 == norm_val(a[i].1 as int, ss),
    ensures
        value_at(b, f) == norm_val(value_at(a, f), ss),
    decreases a.len(),
{
    if a.len() == 0 {
        assert(norm_val(0, ss) == 0) by {
            if ss <= 0x1000000000000000000 {
                assert(ss * SCALE * SCALE >= SCALE * (SCALE as int)) by (nonlinear_arith)
                    requires
                        ss >= 1,
                        SCALE >= 1,
                ;
                lemma_sqrt_floor_exists(ss * SCALE * SCALE);
                let d = sqrt_floor(ss * SCALE * SCALE);
                assert(d >= 1) by (nonlinear_arith)
                    requires
                        ss * SCALE * SCALE >= SCALE * (SCALE as int),
                        SCALE >= 1,
                        ss * SCALE * SCALE < (d + 1) * (d + 1),
                        d >= 0,
                ;
                assert(0 * SCALE * SCALE == 0) by (nonlinear_arith);
                lemma_div_multiples_vanish(0, d);
                assert(d * 0 == 0) by (nonlinear_arith);
            } else {
                lemma_sqrt_floor_exists(ss);
                let d = sqrt_floor(ss);
                assert(d >= 1) by (nonlinear_arith)
                    requires
                        ss > 1,
                        ss < (d + 1) * (d + 1),
                        d >= 0,
                ;
                assert(0 * SCALE == 0) by (nonlinear_arith);
                lemma_div_multiples_vanish(0, d);
                assert(d * 0 == 0) by (nonlinear_arith);
            }
        }
    } else {
        assert(b.last() == b[a.len() - 1]);
        if a.last().0 == f {
        } else {
            assert(forall|i: int|
                0 <= i < a.len() - 1 ==> #[trigger] a.drop_last()[i] == a[i]);
            assert(forall|i: int|
                0 <= i < b.len() - 1 ==> #[trigger] b.drop_last()[i] == b[i]);
            lemma_value_at_normalized(a.drop_last(), b.drop_last(), ss, f);
        }
    }
}

/// Every element of a filtered sequence occurs in the original.
proof fn lemma_filter_member(s: Seq<Entry>, pred: spec_fn(Entry) -> bool, k: int)
    requires
        0 <= k < s.filter(pred).len(),
    ensures
        exists|j: int| 0 <= j < s.len() && s.filter(pred)[k] == s[j],
    decreases s.len(),
{
    reveal(Seq::filter);
    if s.len() > 0 {
        let fd = s.drop_last().filter(pred);
        if k < fd.len() {
            lemma_filter_member(s.drop_last(), pred, k);
            let j = choose|j: int| 0 <= j < s.len() - 1 && fd[k] == s.drop_last()[j];
            assert(s.filter(pred)[k] == s[j]);
        } else {
            assert(s.filter(pred)[k] == s[s.len() - 1]);
        }
    }
}

} // verus!
