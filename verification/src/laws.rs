//! Properties of the histogram that hold beyond the single-function
//! contracts: the bucket mapping round trip, exactness of row 0, rank-zero
//! queries, monotonicity of percentiles, and determinism of read queries.

use vstd::prelude::*;
use vstd::arithmetic::power2::*;
use vstd::arithmetic::div_mod::*;
use vstd::arithmetic::mul::lemma_mul_inequality;
use crate::hist::{
    Data, NBUCKETS, VALUE_LIMIT, bucket_index_of, bucket_lo, col_of, find_bucket,
    find_bucket_from, interp_at, lemma_psum_monotone, lemma_psum_zero, lemma_row_of_le,
    lemma_row_range, mode_spec, nth_opt, percentile_rank, psum, register_step, row_of,
    row_width, total_count,
};

verus! {

/// The scan for a rank's bucket lands on a bucket whose counter carries the
/// running sum past the rank, and on the first such bucket.
pub proof fn lemma_find_from_props(b: Seq<u32>, n: int, i: int)
    requires
        b.len() == NBUCKETS,
        0 <= i <= NBUCKETS,
        psum(b, i) <= n < total_count(b),
    ensures
        ({
            let f = find_bucket_from(b, n, i);
            &&& i <= f < NBUCKETS
            &&& psum(b, f) <= n < psum(b, f) + b[f]
            &&& forall|j: int| i <= j < f ==> n >= psum(b, j) + b[j]
        }),
    decreases NBUCKETS - i,
{
    if i == NBUCKETS {
        assert(false);
    } else if n < psum(b, i) + b[i] {
    } else {
        lemma_find_from_props(b, n, i + 1);
    }
}

/// As `lemma_find_from_props`, for a scan of the whole table.
pub proof fn lemma_find_props(b: Seq<u32>, n: int)
    requires
        b.len() == NBUCKETS,
        0 <= n < total_count(b),
    ensures
        ({
            let f = find_bucket(b, n);
            &&& 0 <= f < NBUCKETS
            &&& psum(b, f) <= n < psum(b, f) + b[f]
            &&& forall|j: int| 0 <= j < f ==> n >= psum(b, j) + b[j]
        }),
{
    lemma_find_from_props(b, n, 0);
}

/// Bucket lower bounds grow strictly from each bucket to the next.
pub proof fn lemma_bucket_lo_succ(i: int)
    requires
        0 <= i < NBUCKETS,
    ensures
        bucket_lo(i) < bucket_lo(i + 1),
{
    lemma2_to64();
    let row = i / 64;
    let col = i % 64;
    lemma_fundamental_div_mod(i, 64);
    if i < 64 {
        if i + 1 < 64 {
        } else {
            assert(bucket_lo(64) == 64 * pow2(0));
        }
    } else {
        let p = pow2((row - 1) as nat);
        lemma_pow2_pos((row - 1) as nat);
        if col < 63 {
            assert((i + 1) / 64 == row && (i + 1) % 64 == col + 1) by (nonlinear_arith)
                requires i == 64 * row + col, 0 <= col < 63, row >= 1;
            assert((col + 64) * p < (col + 1 + 64) * p) by (nonlinear_arith)
                requires p > 0;
        } else {
            assert((i + 1) / 64 == row + 1 && (i + 1) % 64 == 0) by (nonlinear_arith)
                requires i == 64 * row + 63, row >= 1;
            lemma_pow2_adds((row - 1) as nat, 1);
            assert(bucket_lo(i + 1) == 64 * pow2(row as nat));
            assert(64 * pow2(row as nat) == 128 * p);
            assert((63 + 64) * p < 128 * p) by (nonlinear_arith)
                requires p > 0;
        }
    }
}

/// Bucket lower bounds grow strictly along the whole table.
pub proof fn lemma_bucket_lo_monotone(i: int, j: int)
    requires
        0 <= i < j <= NBUCKETS,
    ensures
        bucket_lo(i) < bucket_lo(j),
    decreases j,
{
    if j == i + 1 {
        lemma_bucket_lo_succ(i);
    } else {
        lemma_bucket_lo_monotone(i, j - 1);
        lemma_bucket_lo_succ(j - 1);
    }
}

/// The value reconstructed for a rank stays inside its bucket's value range.
pub proof fn lemma_interp_range(b: Seq<u32>, n: int, i: int)
    requires
        b.len() == NBUCKETS,
        0 <= i < NBUCKETS,
        b[i] > 0,
        psum(b, i) <= n < psum(b, i) + b[i],
    ensures
        bucket_lo(i) <= interp_at(b, n, i),
        (interp_at(b, n, i) as int) < bucket_lo(i + 1),
        i < 64 ==> interp_at(b, n, i) as int == i,
        i >= 64 ==> interp_at(b, n, i) as int == bucket_lo(i) + (bucket_lo(i + 1) - bucket_lo(i))
            * (n - psum(b, i)) / (b[i] as int),
{
    lemma2_to64();
    lemma_bucket_lo_succ(i);
    if i < 64 {
        assert(bucket_lo(i) == i);
    } else {
        let lo = bucket_lo(i) as int;
        let hi = bucket_lo(i + 1) as int;
        let w = hi - lo;
        let c = b[i] as int;
        let k = n - psum(b, i);
        let q = w * k / c;
        lemma_fundamental_div_mod(w * k, c);
        assert(w * k >= 0) by (nonlinear_arith)
            requires w >= 0, k >= 0;
        lemma_div_is_ordered(0, w * k, c);
        lemma_div_basics(c);
        assert(q >= 0);
        assert(w * k <= w * (c - 1)) by (nonlinear_arith)
            requires k <= c - 1, w >= 0;
        assert(q < w) by (nonlinear_arith)
            requires
                c * q + (w * k) % c == w * k,
                0 <= (w * k) % c,
                w * k <= w * (c - 1),
                c > 0,
                w > 0;
        // the reconstructed value is below the table's value limit, so the
        // cast keeps it
        let row = i / 64;
        let col = i % 64;
        if row < 19 {
            lemma_pow2_strictly_increases((row - 1) as nat, 18);
        }
        assert((col + 64) * pow2((row - 1) as nat) <= 128 * 0x40000) by (nonlinear_arith)
            requires col < 64, pow2((row - 1) as nat) <= 0x40000;
        let row1 = (i + 1) / 64;
        let col1 = (i + 1) % 64;
        assert(1 <= row1 <= 20);
        if row1 - 1 < 19 {
            lemma_pow2_strictly_increases((row1 - 1) as nat, 19);
        }
        assert((col1 + 64) * pow2((row1 - 1) as nat) <= 128 * 0x80000) by (nonlinear_arith)
            requires col1 < 64, pow2((row1 - 1) as nat) <= 0x80000;
        assert(bucket_lo(i + 1) <= 128 * 0x80000);
        assert(0 <= lo + q < 128 * 0x80000);
        assert(interp_at(b, n, i) as int == lo + q);
    }
}

/// Round trip of the bucket mapping: every representable value lies between
/// the lower bound of the bucket it maps to and that bound plus the bucket's
/// width.
pub proof fn lemma_bucket_round_trip(v: u128)
    requires
        v < VALUE_LIMIT,
    ensures
        bucket_index_of(v) < NBUCKETS,
        bucket_lo(bucket_index_of(v) as int) <= v,
        (v as int) < bucket_lo(bucket_index_of(v) as int) + row_width(row_of(v) as int),
{
    lemma2_to64();
    if v < 64 {
        assert(row_of(v) == 0 && col_of(v) == v);
    } else {
        lemma_row_range(v);
        let r = row_of(v) as int;
        let p = pow2((r - 1) as nat) as int;
        lemma_pow2_pos((r - 1) as nat);
        let q = v as int / p;
        lemma_fundamental_div_mod(v as int, p);
        assert(64 <= q < 128) by (nonlinear_arith)
            requires
                64 * p <= v as int,
                (v as int) < 128 * p,
                p > 0,
                v as int == p * q + (v as int) % p,
                0 <= (v as int) % p < p;
        assert(q % 64 == q - 64);
        assert(col_of(v) == q - 64);
        let bi = r * 64 + (q - 64);
        assert(bucket_index_of(v) == bi);
        assert(64 * pow2(19) == 0x2000000);
        lemma_row_of_le(v, 19);
        assert(bi / 64 == r && bi % 64 == q - 64) by (nonlinear_arith)
            requires bi == r * 64 + (q - 64), 0 <= q - 64 < 64, r >= 1;
        assert(bucket_lo(bi) == q * p);
        assert(q * p == p * q) by (nonlinear_arith);
        assert(bucket_lo(bi) <= v);
        assert((v as int) < bucket_lo(bi) + p);
    }
}

/// A value below 64 maps to the row-0 bucket of its own index, so each such
/// bucket counts exactly the insertions of one value.
pub proof fn lemma_low_value_bucket(v: u128)
    requires
        v < 64,
    ensures
        bucket_index_of(v) == v,
{
}

/// With every sample below 64, row 0 is an exact histogram: the rank query
/// answers with the exact order statistic, the value `x` whose bucket the
/// rank falls into, with no interpolation.
pub proof fn lemma_row0_exact(b: Seq<u32>, n: int)
    requires
        b.len() == NBUCKETS,
        forall|j: int| 64 <= j < NBUCKETS ==> b[j] == 0u32,
        0 <= n < total_count(b),
    ensures
        ({
            let x = find_bucket(b, n);
            &&& 0 <= x < 64
            &&& nth_opt(b, n) == Some(x as u128)
            &&& psum(b, x) <= n < psum(b, x + 1)
        }),
{
    lemma_find_props(b, n);
    let x = find_bucket(b, n);
    if x >= 64 {
        assert(b[x] == 0);
        assert(false);
    }
}

/// A rank-zero query returns the lower bound of the first occupied bucket;
/// for any value in that bucket (the minimum inserted, when samples arrived
/// in increasing order) the answer is at most the value and within the
/// bucket's width below it.
pub proof fn lemma_nth_zero_is_min(b: Seq<u32>, v: u128)
    requires
        b.len() == NBUCKETS,
        v < VALUE_LIMIT,
        b[bucket_index_of(v) as int] > 0,
        forall|j: int| 0 <= j < bucket_index_of(v) ==> b[j] == 0u32,
    ensures
        nth_opt(b, 0) == Some(bucket_lo(bucket_index_of(v) as int) as u128),
        nth_opt(b, 0)->Some_0 <= v,
        (v as int) < nth_opt(b, 0)->Some_0 + row_width(row_of(v) as int),
{
    lemma_bucket_round_trip(v);
    let bi = bucket_index_of(v) as int;
    lemma_psum_zero(b, bi);
    assert(psum(b, bi + 1) == psum(b, bi) + b[bi]);
    lemma_psum_monotone(b, bi + 1, NBUCKETS as int);
    assert(total_count(b) > 0);
    lemma_find_props(b, 0);
    let f = find_bucket(b, 0);
    if f < bi {
        assert(b[f] == 0);
        assert(false);
    }
    if f > bi {
        assert(0 >= psum(b, bi) + b[bi]);
        assert(false);
    }
    if bi >= 64 {
        let w = bucket_lo(bi + 1) - bucket_lo(bi);
        let c = b[bi] as int;
        assert(w * 0 == 0) by (nonlinear_arith);
        lemma_div_basics(c);
        assert(interp_at(b, 0, bi) == bucket_lo(bi));
    }
}

/// Rank queries are monotone: a higher rank never reconstructs a smaller
/// value.
pub proof fn lemma_nth_monotone(b: Seq<u32>, n1: int, n2: int)
    requires
        b.len() == NBUCKETS,
        0 <= n1 <= n2 < total_count(b),
    ensures
        nth_opt(b, n1) is Some,
        nth_opt(b, n2) is Some,
        nth_opt(b, n1)->Some_0 <= nth_opt(b, n2)->Some_0,
{
    lemma_find_props(b, n1);
    lemma_find_props(b, n2);
    let i1 = find_bucket(b, n1);
    let i2 = find_bucket(b, n2);
    if i2 < i1 {
        assert(n1 >= psum(b, i2) + b[i2]);
        assert(false);
    }
    lemma_interp_range(b, n1, i1);
    lemma_interp_range(b, n2, i2);
    if i1 == i2 {
        if i1 >= 64 {
            let lo = bucket_lo(i1) as int;
            let w = bucket_lo(i1 + 1) - lo;
            let c = b[i1] as int;
            let k1 = n1 - psum(b, i1);
            let k2 = n2 - psum(b, i1);
            lemma_mul_inequality(k1, k2, w);
            assert(k1 * w == w * k1 && k2 * w == w * k2) by (nonlinear_arith);
            lemma_div_is_ordered(w * k1, w * k2, c);
        }
    } else {
        if i1 + 1 < i2 {
            lemma_bucket_lo_monotone(i1 + 1, i2);
        }
    }
}

/// Percentile queries are monotone: where the higher percentile has an
/// answer, the lower one has too, and it is no larger.
pub proof fn lemma_percentile_monotone(d: Data, p1: int, p2: int)
    requires
        d.wf(),
        0 <= p1 <= p2 <= 100,
    ensures
        nth_opt(d.spec_buckets(), percentile_rank(d.spec_cnt() as int, p2)) is Some ==> {
            let v1 = nth_opt(d.spec_buckets(), percentile_rank(d.spec_cnt() as int, p1));
            let v2 = nth_opt(d.spec_buckets(), percentile_rank(d.spec_cnt() as int, p2));
            &&& v1 is Some
            &&& v1->Some_0 <= v2->Some_0
        },
{
    crate::hist::lemma_wf_bounds(d);
    let b = d.spec_buckets();
    let cnt = d.spec_cnt() as int;
    let r1 = percentile_rank(cnt, p1);
    let r2 = percentile_rank(cnt, p2);
    lemma_mul_inequality(p1, p2, cnt);
    assert(p1 * cnt == cnt * p1 && p2 * cnt == cnt * p2) by (nonlinear_arith);
    lemma_div_is_ordered(cnt * p1, cnt * p2, 100);
    assert(cnt * p1 >= 0) by (nonlinear_arith)
        requires cnt >= 0, p1 >= 0;
    lemma_div_is_ordered(0, cnt * p1, 100);
    lemma_div_basics(100);
    if nth_opt(b, r2) is Some {
        lemma_nth_monotone(b, r1, r2);
    }
}

/// A sample at or past the representable limit is dropped whole: the count
/// of accepted samples does not increase, no bucket's counter changes, the
/// accumulators and extrema stand still, and only the dropped counter — the
/// observable trace of the rejection — advances.
pub proof fn lemma_oversized_sample_dropped(pre: Data, v: u128, post: Data)
    requires
        v >= VALUE_LIMIT,
        register_step(pre, v, post),
    ensures
        post.spec_cnt() == pre.spec_cnt(),
        post.spec_buckets() == pre.spec_buckets(),
        post.spec_dropped() == pre.spec_dropped() + 1,
        post.spec_sum() == pre.spec_sum(),
        post.spec_sum_sq() == pre.spec_sum_sq(),
        post.spec_min() == pre.spec_min(),
        post.spec_max() == pre.spec_max(),
{
}

/// Read queries are deterministic: two views of one histogram state answer
/// every rank, percentile, mode and mean query identically, so repeated
/// calls with no intervening insert return identical results.
pub proof fn lemma_read_queries_idempotent(d1: Data, d2: Data, n: int, p: int)
    requires
        d1 == d2,
    ensures
        nth_opt(d1.spec_buckets(), n) == nth_opt(d2.spec_buckets(), n),
        percentile_rank(d1.spec_cnt() as int, p) == percentile_rank(d2.spec_cnt() as int, p),
        mode_spec(d1.spec_buckets()) == mode_spec(d2.spec_buckets()),
        d1.spec_sum() == d2.spec_sum() && d1.spec_cnt() == d2.spec_cnt(),
{
}

} // verus!
