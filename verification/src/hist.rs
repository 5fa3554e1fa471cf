//! The histogram engine: a value-frequency estimator over unsigned integer
//! samples with exact resolution for values below 64 and logarithmically
//! widening buckets above, in a fixed table of 20 rows of 64 counters.

use vstd::prelude::*;
use vstd::arithmetic::power2::*;
use vstd::arithmetic::div_mod::*;
use vstd::pervasive::VecAdditionalExecFns;
use vstd::string::StringExecFns;
use crate::strfmt::{dec_spec, milli_spec, sqrt_floor, u128_to_dec, milli_to_dec, isqrt};

verus! {

/// Number of low bits resolved exactly: row 0 has one bucket per value 0..64.
pub const LOW_BITS: usize = 6;
/// Buckets per row.
pub const ROW_LEN: usize = 64;
/// Number of rows above row 0; rows run 0..=HIGH_BITS.
pub const HIGH_BITS: usize = 19;
/// Total rows in the fixed table.
pub const ROWS: usize = 20;
/// Total buckets in the fixed table.
pub const NBUCKETS: usize = 1280;
/// First value too large for the table: values below `1 << 25` are bucketed,
/// anything at or above is dropped (and counted as dropped).
pub const VALUE_LIMIT: u128 = 0x2000000;

/// The row a value falls into: 0 for values below 64, and one more for each
/// further doubling of magnitude.
pub open spec fn row_of(v: u128) -> nat
    decreases v,
{
    if v < 64 {
        0
    } else {
        1 + row_of(v / 2)
    }
}

/// The column inside a value's row: the value itself in row 0, and the six
/// bits just below the top bit in higher rows.
pub open spec fn col_of(v: u128) -> nat {
    if v < 64 {
        v as nat
    } else {
        (v as nat / pow2((row_of(v) - 1) as nat)) % 64
    }
}

/// Flat index of a value's bucket in the table.
pub open spec fn bucket_index_of(v: u128) -> nat {
    row_of(v) * 64 + col_of(v)
}

/// Lower bound of the value range a flat bucket index covers.
pub open spec fn bucket_lo(i: int) -> nat
    recommends
        0 <= i <= NBUCKETS,
{
    let row = i / 64;
    let col = i % 64;
    if row == 0 {
        col as nat
    } else {
        ((col + 64) * pow2((row - 1) as nat)) as nat
    }
}

/// Width of the value range covered by one bucket of a row.
pub open spec fn row_width(row: int) -> nat {
    if row <= 0 {
        1
    } else {
        pow2((row - 1) as nat)
    }
}

/// Sum of the first `k` bucket counters.
pub open spec fn psum(b: Seq<u32>, k: int) -> int
    decreases k,
{
    if k <= 0 {
        0
    } else {
        psum(b, k - 1) + b[k - 1]
    }
}

/// Total number of samples held in the buckets.
pub open spec fn total_count(b: Seq<u32>) -> int {
    psum(b, NBUCKETS as int)
}

/// A histogram that has seen nothing yet: no counts, empty counters, `min`
/// at the largest representable value and `max` at zero, so the first sample
/// sets both.
pub open spec fn fresh_data(d: Data) -> bool {
    &&& d.spec_cnt() == 0
    &&& d.spec_dropped() == 0
    &&& d.spec_sum() == 0
    &&& d.spec_sum_sq() == 0
    &&& d.spec_min() == u128::MAX
    &&& d.spec_max() == 0
    &&& d.spec_buckets().len() == NBUCKETS
    &&& forall|i: int| 0 <= i < NBUCKETS ==> d.spec_buckets()[i] == 0u32
}

/// How a histogram changes when a warm-up entry is noted: the sample
/// counter advances by one and nothing else moves.
pub open spec fn warmup_step(pre: Data, post: Data) -> bool {
    &&& post.spec_cnt() == pre.spec_cnt() + 1
    &&& post.spec_dropped() == pre.spec_dropped()
    &&& post.spec_sum() == pre.spec_sum()
    &&& post.spec_sum_sq() == pre.spec_sum_sq()
    &&& post.spec_min() == pre.spec_min()
    &&& post.spec_max() == pre.spec_max()
    &&& post.spec_buckets() == pre.spec_buckets()
}

/// How a histogram changes when a sample is registered: the accumulators and
/// the sample's bucket advance, or only the dropped counter for a sample at
/// or past the representable limit.
pub open spec fn register_step(pre: Data, v: u128, post: Data) -> bool {
    if v >= VALUE_LIMIT {
        &&& post.spec_dropped() == pre.spec_dropped() + 1
        &&& post.spec_cnt() == pre.spec_cnt()
        &&& post.spec_sum() == pre.spec_sum()
        &&& post.spec_sum_sq() == pre.spec_sum_sq()
        &&& post.spec_min() == pre.spec_min()
        &&& post.spec_max() == pre.spec_max()
        &&& post.spec_buckets() == pre.spec_buckets()
    } else {
        &&& post.spec_dropped() == pre.spec_dropped()
        &&& post.spec_cnt() == pre.spec_cnt() + 1
        &&& post.spec_sum() == pre.spec_sum() + v
        &&& post.spec_sum_sq() == pre.spec_sum_sq() + v * v
        &&& post.spec_min() == (if v < pre.spec_min() { v } else { pre.spec_min() })
        &&& post.spec_max() == (if v > pre.spec_max() { v } else { pre.spec_max() })
        &&& bucket_index_of(v) < NBUCKETS
        &&& post.spec_buckets() == pre.spec_buckets().update(
            bucket_index_of(v) as int,
            (pre.spec_buckets()[bucket_index_of(v) as int] + 1) as u32,
        )
    }
}

/// The streaming approximate histogram.
///
/// `cnt` counts the samples the counters stand for, plus any warm-up entries
/// noted without a value; `dropped` counts samples rejected for exceeding the
/// representable magnitude, which touch nothing else. The derived debug
/// rendering serves as the verbose dump of the raw per-bucket counters.
#[derive(Clone, Debug)]
pub struct Data {
    cnt: usize,
    dropped: usize,
    s: u128,
    s2: u128,
    max: u128,
    min: u128,
    buckets: Vec<u32>,
}

impl Data {
    /// Internal consistency: the fixed table shape, the counters never ahead
    /// of `cnt`, and the accumulators bounded by what `cnt` samples below the
    /// representable limit can produce.
    pub closed spec fn wf(self) -> bool {
        &&& self.buckets@.len() == NBUCKETS
        &&& total_count(self.buckets@) <= self.cnt
        &&& self.cnt <= u32::MAX
        &&& self.s <= self.cnt * 0x2000000
        &&& self.s2 <= self.cnt * 0x2000000 * 0x2000000
    }

    pub closed spec fn spec_cnt(self) -> usize {
        self.cnt
    }

    pub closed spec fn spec_dropped(self) -> usize {
        self.dropped
    }

    pub closed spec fn spec_sum(self) -> u128 {
        self.s
    }

    pub closed spec fn spec_sum_sq(self) -> u128 {
        self.s2
    }

    pub closed spec fn spec_min(self) -> u128 {
        self.min
    }

    pub closed spec fn spec_max(self) -> u128 {
        self.max
    }

    pub closed spec fn spec_buckets(self) -> Seq<u32> {
        self.buckets@
    }

    /// Construct an empty histogram: no samples, `min` at the largest
    /// representable value and `max` at zero so the first sample sets both.
    pub fn new() -> (d: Data)
        ensures
            d.wf(),
            fresh_data(d),
    {
        let mut buckets: Vec<u32> = Vec::new();
        let mut i: usize = 0;
        while i < NBUCKETS
            invariant
                i <= NBUCKETS,
                buckets@.len() == i,
                forall|j: int| 0 <= j < i ==> buckets@[j] == 0u32,
            decreases NBUCKETS - i,
        {
            buckets.push(0u32);
            i += 1;
        }
        proof {
            lemma_psum_zero(buckets@, NBUCKETS as int);
        }
        Data { cnt: 0, dropped: 0, s: 0, s2: 0, max: 0, min: u128::MAX, buckets }
    }

    /// Number of samples counted (including warm-up entries noted without a
    /// value, excluding dropped ones).
    pub fn count(&self) -> (c: usize)
        ensures
            c == self.spec_cnt(),
    {
        self.cnt
    }

    /// Number of samples rejected for exceeding the representable magnitude.
    pub fn dropped(&self) -> (c: usize)
        ensures
            c == self.spec_dropped(),
    {
        self.dropped
    }

    /// Smallest sample seen, or the maximum representable value if none was.
    pub fn min(&self) -> (m: u128)
        ensures
            m == self.spec_min(),
    {
        self.min
    }

    /// Largest sample seen, or zero if none was.
    pub fn max(&self) -> (m: u128)
        ensures
            m == self.spec_max(),
    {
        self.max
    }

    /// The counter of one bucket, by row and column.
    pub fn bucket_count(&self, row: usize, col: usize) -> (c: u32)
        requires
            self.wf(),
            row < ROWS,
            col < ROW_LEN,
        ensures
            c == self.spec_buckets()[row as int * 64 + col as int],
    {
        self.buckets[row * 64 + col]
    }
}

impl Data {
    /// Note a warm-up entry: advance the sample counter without registering a
    /// value, as the measurement loop does on its first step.
    pub fn note_warmup(&mut self)
        requires
            old(self).wf(),
            old(self).spec_cnt() < u32::MAX,
        ensures
            final(self).wf(),
            warmup_step(*old(self), *final(self)),
    {
        self.cnt = self.cnt + 1;
    }

    /// Register one sample: update the accumulators and increment the bucket
    /// the value maps to; a value at or above `VALUE_LIMIT` is dropped whole,
    /// touching nothing but the dropped counter.
    pub fn register_val(&mut self, v: u128)
        requires
            old(self).wf(),
            old(self).spec_cnt() < u32::MAX,
            old(self).spec_dropped() < usize::MAX,
        ensures
            final(self).wf(),
            register_step(*old(self), v, *final(self)),
    {
        if v >= VALUE_LIMIT {
            self.dropped = self.dropped + 1;
            return;
        }
        proof {
            assert(v * v < 0x2000000u128 * 0x2000000u128) by (nonlinear_arith)
                requires v < 0x2000000u128;
            assert(old(self).s + v <= (old(self).cnt + 1) * 0x2000000);
            assert(old(self).s2 + v * v <= (old(self).cnt + 1) * 0x2000000 * 0x2000000);
            assert((old(self).cnt + 1) * 0x2000000 * 0x2000000 <= 0x100000000i128 * 0x2000000 * 0x2000000);
        }
        self.s = self.s + v;
        self.s2 = self.s2 + v * v;
        if v > self.max {
            self.max = v;
        }
        if v < self.min {
            self.min = v;
        }
        self.cnt = self.cnt + 1;
        let ghost old_b = self.buckets@;
        let mut x: u128 = v;
        let mut slot: usize = 0;
        let mut p: u128 = 1;
        proof {
            lemma2_to64();
        }
        while x >= 64
            invariant
                v < VALUE_LIMIT,
                slot <= 25,
                p == pow2(slot as nat),
                p <= VALUE_LIMIT,
                x == v as nat / pow2(slot as nat),
                row_of(v) == slot + row_of(x),
                slot > 0 ==> x >= 32,
            decreases x,
        {
            proof {
                lemma_pow2_adds(slot as nat, 1);
                lemma2_to64();
                lemma_pow2_pos(slot as nat);
                lemma_div_denominator(v as int, pow2(slot as nat) as int, 2);
                assert(x / 2 >= 32);
                assert(x * pow2(slot as nat) <= v) by (nonlinear_arith)
                    requires
                        x == v as nat / pow2(slot as nat),
                        pow2(slot as nat) >= 1,
                        v >= 0;
                assert(64 * p <= x * p) by (nonlinear_arith)
                    requires x >= 64, p >= 1;
                assert(2 * p < VALUE_LIMIT);
                if slot + 1 > 25 {
                    lemma_pow2_strictly_increases(25, (slot + 1) as nat);
                    assert(false);
                }
            }
            x = x / 2;
            slot = slot + 1;
            p = p * 2;
        }
        let bi: usize;
        if slot == 0 {
            bi = v as usize;
            proof {
                assert(pow2(0) == 1) by { lemma2_to64(); };
                assert(row_of(v) == 0);
                assert(bucket_index_of(v) == v);
            }
        } else {
            proof {
                assert(row_of(x) == 0);
                assert(row_of(v) == slot);
                lemma_pow2_subtracts((slot - 1) as nat, slot as nat);
                lemma_pow2_pos((slot - 1) as nat);
                lemma2_to64();
                assert(64 * pow2(19) == 0x2000000);
                lemma_row_of_le(v, 19);
            }
            let q: u128 = v / (p / 2);
            bi = slot * 64 + (q % 64) as usize;
            proof {
                assert(p / 2 == pow2((slot - 1) as nat));
                assert(q % 64 == col_of(v));
                assert(bucket_index_of(v) == slot * 64 + (q % 64));
                assert(bi < NBUCKETS);
            }
        }
        proof {
            lemma_psum_monotone(old_b, bi + 1, NBUCKETS as int);
            assert(psum(old_b, bi + 1) == psum(old_b, bi as int) + old_b[bi as int]);
            lemma_psum_monotone(old_b, 0, bi as int);
            assert(old_b[bi as int] < u32::MAX);
        }
        let c = self.buckets[bi];
        self.buckets.set(bi, c + 1);
        proof {
            lemma_psum_update(old_b, bi as int, (old_b[bi as int] + 1) as u32, NBUCKETS as int);
        }
    }
}

/// Flat index of the first bucket at or past `i` whose counter carries the
/// running sum past rank `n`; the table length if none does.
pub open spec fn find_bucket_from(b: Seq<u32>, n: int, i: int) -> int
    decreases NBUCKETS - i,
{
    if i < 0 || i >= NBUCKETS {
        NBUCKETS as int
    } else if n < psum(b, i) + b[i] {
        i
    } else {
        find_bucket_from(b, n, i + 1)
    }
}

/// Flat index of the bucket holding rank `n`.
pub open spec fn find_bucket(b: Seq<u32>, n: int) -> int {
    find_bucket_from(b, n, 0)
}

/// The value reconstructed for rank `n`, which lies in bucket `i`: the exact
/// value in row 0, and a linear interpolation between the bucket's bounds in
/// proportion to where `n` falls among the bucket's samples above it.
pub open spec fn interp_at(b: Seq<u32>, n: int, i: int) -> u128
    recommends
        0 <= i < NBUCKETS,
        b[i] > 0,
{
    if i < 64 {
        i as u128
    } else {
        (bucket_lo(i) + (bucket_lo(i + 1) - bucket_lo(i)) * (n - psum(b, i)) / (b[i] as int)) as u128
    }
}

/// The order statistic the histogram reports for rank `n`: absent when fewer
/// than `n + 1` samples are bucketed.
pub open spec fn nth_opt(b: Seq<u32>, n: int) -> Option<u128> {
    if 0 <= n < total_count(b) {
        Some(interp_at(b, n, find_bucket(b, n)))
    } else {
        None
    }
}

/// The rank `percentile` queries: `count * percent / 100`, truncated.
pub open spec fn percentile_rank(cnt: int, percent: int) -> int {
    cnt * percent / 100
}

/// The density weight `mode` compares buckets by: counters of wider buckets
/// count for less, halving with each row past row 1.
pub open spec fn mode_weight(row: int, c: u32) -> int {
    if row <= 1 {
        c * pow2(19)
    } else {
        c * pow2((20 - row) as nat)
    }
}

/// The scan `mode` performs: the weight and flat index of the first bucket of
/// largest density weight, given the best seen before `i`.
pub open spec fn mode_scan(b: Seq<u32>, i: int, best_w: int, best_i: int) -> (int, int)
    decreases NBUCKETS - i,
{
    if i < 0 || i >= NBUCKETS {
        (best_w, best_i)
    } else {
        let w = mode_weight(i / 64, b[i]);
        if best_w < w {
            mode_scan(b, i + 1, w, i)
        } else {
            mode_scan(b, i + 1, best_w, best_i)
        }
    }
}

/// What `mode` returns: the lower bound of the first bucket of largest
/// density weight, or absent when every bucket is empty.
pub open spec fn mode_spec(b: Seq<u32>) -> Option<u128> {
    let (w, i) = mode_scan(b, 0, 0, 0);
    if w == 0 {
        None
    } else {
        Some(bucket_lo(i) as u128)
    }
}

impl Data {
    /// Lower bound of the value range of the bucket at column `idx` of row
    /// `slot`: the column itself in row 0, and the column with the row's top
    /// bit restored, scaled to the row's magnitude, above.
    pub fn idx2val(idx: usize, slot: usize) -> (r: Option<u128>)
        requires
            idx <= ROW_LEN,
            slot <= HIGH_BITS,
        ensures
            r == Some(bucket_lo(slot * 64 + idx) as u128),
    {
        if slot == 0 {
            proof {
                lemma2_to64();
            }
            Some(idx as u128)
        } else {
            let p = pow2_u64(slot - 1);
            proof {
                lemma2_to64();
                assert((idx as u128 + 64) * (p as u128) <= 128 * 0x2000000) by (nonlinear_arith)
                    requires idx <= 64, p <= 0x2000000u64;
                if idx < 64 {
                    assert((slot * 64 + idx) as int / 64 == slot as int
                        && (slot * 64 + idx) as int % 64 == idx as int) by (nonlinear_arith)
                        requires 0 <= idx < 64, 0 <= slot;
                } else {
                    // column 64 of a row is the first column of the next row
                    lemma_pow2_adds((slot - 1) as nat, 1);
                    assert((slot * 64 + 64) as int / 64 == slot as int + 1
                        && (slot * 64 + 64) as int % 64 == 0) by (nonlinear_arith)
                        requires 0 <= slot;
                    assert(bucket_lo((slot * 64 + idx) as int) == 64 * pow2(slot as nat));
                    assert(64 * pow2(slot as nat) == 128 * pow2((slot - 1) as nat));
                }
                assert(bucket_lo((slot * 64 + idx) as int) == (idx + 64) * pow2((slot - 1) as nat));
                assert(((idx as u128) + 64) * (p as u128) == (idx + 64) * pow2((slot - 1) as nat));
            }
            Some(((idx as u128) + 64) * (p as u128))
        }
    }

    /// The `n`-th smallest bucketed sample, counting from zero: the exact
    /// value for row-0 buckets, a linear interpolation inside wider ones, and
    /// absent when fewer than `n + 1` samples are bucketed.
    #[verifier::rlimit(30)]
    pub fn nth_from_low(&self, n: usize) -> (r: Option<u128>)
        requires
            self.wf(),
        ensures
            r == nth_opt(self.spec_buckets(), n as int),
            r is Some <==> (n as int) < total_count(self.spec_buckets()),
    {
        let ghost b = self.buckets@;
        let mut c: usize = 0;
        let mut i: usize = 0;
        proof {
            lemma_psum_monotone(b, 0, NBUCKETS as int);
        }
        while i < NBUCKETS
            invariant
                self.wf(),
                b == self.buckets@,
                i <= NBUCKETS,
                c == psum(b, i as int),
                psum(b, i as int) <= n,
                find_bucket(b, n as int) == find_bucket_from(b, n as int, i as int),
            decreases NBUCKETS - i,
        {
            let vcnt = self.buckets[i];
            proof {
                lemma_psum_monotone(b, i as int + 1, NBUCKETS as int);
            }
            if (n - c) < vcnt as usize {
                proof {
                    assert(find_bucket(b, n as int) == i);
                    assert(psum(b, i as int + 1) <= total_count(b));
                }
                if i < 64 {
                    proof {
                        assert(nth_opt(b, n as int) == Some(interp_at(b, n as int, i as int)));
                    }
                    return Some(i as u128);
                } else {
                    let row = i / 64;
                    let col = i % 64;
                    proof {
                        lemma2_to64();
                        lemma_fundamental_div_mod(i as int, 64);
                        assert(row >= 1 && row <= 19);
                        if row < 19 {
                            lemma_pow2_strictly_increases((row - 1) as nat, 18);
                        }
                        assert(pow2((row - 1) as nat) <= pow2(18));
                        assert((col as u128 + 64 + 1) * pow2((row - 1) as nat) <= 129 * 0x40000) by (nonlinear_arith)
                            requires col < 64, pow2((row - 1) as nat) <= 0x40000;
                    }
                    let p = pow2_u64(row - 1) as u128;
                    proof {
                        assert((col as u128 + 64) * p <= 128 * 0x40000u128
                            && (col as u128 + 64 + 1) * p <= 129 * 0x40000u128
                            && (col as u128 + 64) * p + p == (col as u128 + 64 + 1) * p) by (nonlinear_arith)
                            requires col < 64, 0 < p <= 0x40000u128;
                    }
                    let v1 = (col as u128 + 64) * p;
                    let v2 = (col as u128 + 64 + 1) * p;
                    proof {
                        assert(v2 == v1 + p);
                        assert(v1 == bucket_lo(i as int));
                        if col < 63 {
                            assert((i + 1) as int / 64 == row as int && (i + 1) as int % 64 == col + 1) by (nonlinear_arith)
                                requires i == 64 * (row as int) + col, 0 <= col < 63;
                            assert(bucket_lo(i as int + 1) == (col + 1 + 64) * pow2((row - 1) as nat));
                            assert(v2 == (col + 1 + 64) * pow2((row - 1) as nat));
                            assert(v2 == bucket_lo(i as int + 1));
                        } else {
                            lemma_pow2_adds((row - 1) as nat, 1);
                            assert((i + 1) as int / 64 == row as int + 1 && (i + 1) as int % 64 == 0) by (nonlinear_arith)
                                requires i == 64 * (row as int) + 63;
                            assert(bucket_lo(i as int + 1) == 64 * pow2(row as nat));
                            assert(pow2(row as nat) == pow2((row - 1) as nat) * pow2(1));
                            assert(pow2(1) == 2);
                            assert(64 * (pow2((row - 1) as nat) * 2) == 128 * pow2((row - 1) as nat));
                            assert(bucket_lo(i as int + 1) == 128 * pow2((row - 1) as nat));
                            assert(v2 == 128 * pow2((row - 1) as nat));
                            assert(v2 == bucket_lo(i as int + 1));
                        }
                        assert((v2 - v1) * ((n - c) as u128) <= 0x40000u128 * 0x100000000) by (nonlinear_arith)
                            requires v2 - v1 <= 0x40000u128, (n - c) as u128 <= 0x100000000u128;
                    }
                    let d = v1 + (v2 - v1) * ((n - c) as u128) / (vcnt as u128);
                    proof {
                        assert(d == interp_at(b, n as int, i as int));
                    }
                    return Some(d);
                }
            }
            c = c + vcnt as usize;
            i = i + 1;
        }
        proof {
            assert(total_count(b) <= n);
        }
        None
    }

    /// The `n`-th largest bucketed sample: consistent with `nth_from_low` at
    /// rank `count - n`; absent when `n` exceeds the sample count.
    pub fn nth_from_high(&self, n: usize) -> (r: Option<u128>)
        requires
            self.wf(),
        ensures
            n <= self.spec_cnt() ==> r == nth_opt(self.spec_buckets(), self.spec_cnt() - n as int),
            n > self.spec_cnt() ==> r is None,
    {
        if n > self.cnt {
            None
        } else {
            self.nth_from_low(self.cnt - n)
        }
    }

    /// The sample at the given percentile of the bucketed distribution, the
    /// rank truncated as `count * percent / 100`; absent for a percentile
    /// above 100 or an empty histogram.
    pub fn percentile(&self, percent: usize) -> (r: Option<u128>)
        requires
            self.wf(),
        ensures
            percent <= 100 ==> r == nth_opt(
                self.spec_buckets(),
                percentile_rank(self.spec_cnt() as int, percent as int),
            ),
            percent > 100 ==> r is None,
    {
        if percent > 100 {
            return None;
        }
        proof {
            assert(self.cnt as int * percent as int <= self.cnt as int * 100) by (nonlinear_arith)
                requires percent <= 100, self.cnt >= 0;
            assert(self.cnt as int * 100 <= 0xffffffffi64 * 100);
            assert(self.cnt as int * 100 / 100 == self.cnt as int) by (nonlinear_arith);
            lemma_div_is_ordered(self.cnt as int * percent as int, self.cnt as int * 100, 100);
        }
        let wide: u64 = (self.cnt as u64) * (percent as u64);
        let nth: usize = (wide / 100) as usize;
        self.nth_from_low(nth)
    }

    /// The median sample: the 50th percentile.
    pub fn median(&self) -> (r: Option<u128>)
        requires
            self.wf(),
        ensures
            r == nth_opt(self.spec_buckets(), percentile_rank(self.spec_cnt() as int, 50)),
    {
        self.percentile(50)
    }

    /// The mean of the counted samples, scaled by 1000 and truncated; absent
    /// when fewer than two samples were counted.
    pub fn mean(&self) -> (r: Option<u128>)
        requires
            self.wf(),
        ensures
            self.spec_cnt() < 2 ==> r is None,
            self.spec_cnt() >= 2 ==> r == Some((self.spec_sum() as int * 1000 / self.spec_cnt() as int) as u128),
    {
        if self.cnt < 2 {
            None
        } else {
            proof {
                assert(self.s * 1000 <= self.cnt as u128 * 0x2000000 * 1000) by (nonlinear_arith)
                    requires self.s <= self.cnt as u128 * 0x2000000;
                assert(self.cnt as u128 * 0x2000000 * 1000 <= 0x100000000i128 * 0x2000000 * 1000);
            }
            Some(self.s * 1000 / (self.cnt as u128))
        }
    }

    /// The approximate mode: the lower bound of the first bucket of largest
    /// density-weighted count, wider buckets weighted down so they do not
    /// win on width alone; absent when every bucket is empty.
    pub fn mode(&self) -> (r: Option<u128>)
        requires
            self.wf(),
        ensures
            r == mode_spec(self.spec_buckets()),
    {
        let ghost b = self.buckets@;
        let mut best_w: u64 = 0;
        let mut best_i: usize = 0;
        let mut i: usize = 0;
        while i < NBUCKETS
            invariant
                self.wf(),
                b == self.buckets@,
                i <= NBUCKETS,
                best_i <= i,
                best_w <= 0x80000u64 * 0xffffffff,
                best_w as int == (if i == 0 { 0int } else { mode_weight(best_i as int / 64, b[best_i as int]) }),
                i == 0 ==> best_w == 0 && best_i == 0,
                best_w > 0 ==> best_i < i,
                mode_scan(b, 0, 0, 0) == mode_scan(b, i as int, best_w as int, best_i as int),
            decreases NBUCKETS - i,
        {
            let row = i / 64;
            let c = self.buckets[i];
            let shift: usize = if row <= 1 { 19 } else { 20 - row };
            proof {
                lemma2_to64();
                assert(i as int / 64 == row as int);
                if row > 1 {
                    lemma_pow2_strictly_increases((20 - row) as nat, 19);
                }
                assert(pow2(shift as nat) <= 0x80000);
                assert(c as int * pow2(shift as nat) <= 0xffffffffi64 * 0x80000) by (nonlinear_arith)
                    requires c <= 0xffffffffu32, pow2(shift as nat) <= 0x80000;
            }
            let w: u64 = (c as u64) * pow2_u64(shift);
            proof {
                assert(w as int == mode_weight(row as int, b[i as int]));
            }
            if best_w < w {
                best_w = w;
                best_i = i;
            }
            i = i + 1;
        }
        if best_w == 0 {
            None
        } else {
            proof {
                lemma2_to64();
                assert(best_i < NBUCKETS);
            }
            Data::idx2val(best_i % 64, best_i / 64)
        }
    }
}

/// Exact power of two, for the small exponents the bucket table uses.
fn pow2_u64(e: usize) -> (r: u64)
    requires
        e <= 25,
    ensures
        r == pow2(e as nat),
        r <= 0x2000000,
{
    let mut r: u64 = 1;
    let mut k: usize = 0;
    proof {
        lemma2_to64();
    }
    while k < e
        invariant
            k <= e,
            e <= 25,
            r == pow2(k as nat),
            r <= 0x2000000,
        decreases e - k,
    {
        proof {
            lemma_pow2_adds(k as nat, 1);
            lemma2_to64();
            if k + 1 < 25 {
                lemma_pow2_strictly_increases((k + 1) as nat, 25);
            }
        }
        r = r * 2;
        k = k + 1;
    }
    r
}

/// The mean in thousandths the summary shows, over the effective count (one
/// less than the raw count, discounting the warm-up entry).
pub open spec fn avg_milli(d: Data) -> int
    recommends
        d.spec_cnt() >= 2,
{
    d.spec_sum() as int * 1000 / (d.spec_cnt() - 1)
}

/// The standard deviation in thousandths the summary shows: the truncated
/// root of the variance over the effective count, floored at zero where
/// truncation would turn it negative.
pub open spec fn stdev_milli(d: Data) -> int
    recommends
        d.spec_cnt() >= 2,
{
    let m = d.spec_sum_sq() as int * 1000000 / (d.spec_cnt() - 1);
    let a = avg_milli(d);
    if m >= a * a {
        sqrt_floor((m - a * a) as nat) as int
    } else {
        0
    }
}

/// The median the summary shows, with zero standing in for an unanswerable
/// query; the default exists only in the rendering, not in the query API.
pub open spec fn median_or_zero(d: Data) -> u128 {
    match nth_opt(d.spec_buckets(), percentile_rank(d.spec_cnt() as int, 50)) {
        Some(v) => v,
        None => 0,
    }
}

/// The mode the summary shows, with zero standing in for an empty table.
pub open spec fn mode_or_zero(d: Data) -> u128 {
    match mode_spec(d.spec_buckets()) {
        Some(v) => v,
        None => 0,
    }
}

/// The summary line: a marker before any sample is counted, another while a
/// single counted sample leaves the statistics undefined, and the rendered
/// statistics over the effective count otherwise.
pub open spec fn summary_spec(d: Data) -> Seq<char> {
    if d.spec_cnt() == 0 {
        "(initialized)"@
    } else if d.spec_cnt() == 1 {
        "(no data)"@
    } else {
        "cnt="@ + dec_spec((d.spec_cnt() - 1) as nat) + ", avg="@ + milli_spec(
            avg_milli(d) as nat,
        ) + ", median="@ + dec_spec(median_or_zero(d) as nat) + ", mode="@ + dec_spec(
            mode_or_zero(d) as nat,
        ) + ", stdev="@ + milli_spec(stdev_milli(d) as nat) + ", min/max="@ + dec_spec(
            d.spec_min() as nat,
        ) + "/"@ + dec_spec(d.spec_max() as nat)
    }
}

impl Data {
    /// Render the human-readable summary of the counted samples.
    pub fn summary(&self) -> (r: String)
        requires
            self.wf(),
        ensures
            r@ == summary_spec(*self),
    {
        if self.cnt == 0 {
            return String::from_str("(initialized)");
        }
        if self.cnt == 1 {
            return String::from_str("(no data)");
        }
        let eff: u128 = (self.cnt - 1) as u128;
        let avg: u128 = self.s * 1000 / eff;
        proof {
            assert(self.s * 1000 <= (eff + 1) * 33554432000);
            lemma_div_is_ordered(
                self.s as int * 1000,
                eff as int * 33554432000 + 33554432000,
                eff as int,
            );
            lemma_hoist_over_denominator(33554432000, 33554432000, eff as nat);
            lemma_div_is_ordered_by_denominator(33554432000, 1, eff as int);
            lemma_div_basics(33554432000int);
            assert(avg <= 67108864000);
            assert(avg * avg <= 67108864000 * 67108864000) by (nonlinear_arith)
                requires avg <= 67108864000u128;
            lemma_div_is_ordered_by_denominator(self.s2 as int * 1000000, 1, eff as int);
            lemma_div_basics(self.s2 as int * 1000000);
            assert(self.s2 as int * 1000000 <= 0x100000000i128 * 0x2000000 * 0x2000000 * 1000000);
        }
        let m: u128 = self.s2 * 1000000 / eff;
        let a2: u128 = avg * avg;
        let q: u128 = if m >= a2 { m - a2 } else { 0 };
        let sd: u128 = isqrt(q);
        let med: u128 = match self.median() {
            Some(v) => v,
            None => 0,
        };
        let md: u128 = match self.mode() {
            Some(v) => v,
            None => 0,
        };
        let mut out = String::from_str("cnt=");
        let effs = u128_to_dec(eff);
        out.append(effs.as_str());
        out.append(", avg=");
        let avgs = milli_to_dec(avg);
        out.append(avgs.as_str());
        out.append(", median=");
        let meds = u128_to_dec(med);
        out.append(meds.as_str());
        out.append(", mode=");
        let mds = u128_to_dec(md);
        out.append(mds.as_str());
        out.append(", stdev=");
        let sds = milli_to_dec(sd);
        out.append(sds.as_str());
        out.append(", min/max=");
        let mins = u128_to_dec(self.min);
        out.append(mins.as_str());
        out.append("/");
        let maxs = u128_to_dec(self.max);
        out.append(maxs.as_str());
        proof {
            assert(out@ =~= summary_spec(*self));
        }
        out
    }
}

/// Whether a row holds no samples at all.
pub open spec fn row_zero(b: Seq<u32>, r: int) -> bool {
    forall|j: int| 0 <= j < 64 ==> #[trigger] b[r * 64 + j] == 0u32
}

/// The counters of one row from column `j` on, comma-separated, with a
/// separator before every column but the first.
pub open spec fn row_cells_spec(b: Seq<u32>, r: int, j: int) -> Seq<char>
    decreases 64 - j,
{
    if j < 0 || j >= 64 {
        Seq::<char>::empty()
    } else {
        (if j > 0 {
            ", "@
        } else {
            Seq::<char>::empty()
        }) + dec_spec(b[r * 64 + j] as nat) + row_cells_spec(b, r, j + 1)
    }
}

/// One line of the verbose dump: the row number, then `[0]` for an empty row
/// or the row's raw counters in brackets.
pub open spec fn dump_row_spec(b: Seq<u32>, r: int) -> Seq<char> {
    dec_spec(r as nat) + ":"@ + (if row_zero(b, r) {
        "[0]"@
    } else {
        "["@ + row_cells_spec(b, r, 0) + "]"@
    }) + "\n"@
}

/// The verbose dump from row `r` down: one line per row.
pub open spec fn dump_rows_spec(b: Seq<u32>, r: int) -> Seq<char>
    decreases ROWS - r,
{
    if r < 0 || r >= ROWS {
        Seq::<char>::empty()
    } else {
        dump_row_spec(b, r) + dump_rows_spec(b, r + 1)
    }
}

/// The verbose dump of the whole table.
pub open spec fn dump_spec(b: Seq<u32>) -> Seq<char> {
    dump_rows_spec(b, 0)
}

impl Data {
    /// Render the verbose dump: one line per row with the raw per-bucket
    /// counters, an empty row shortened to `[0]`.
    pub fn dump(&self) -> (r: String)
        requires
            self.wf(),
        ensures
            r@ == dump_spec(self.spec_buckets()),
    {
        let ghost b = self.buckets@;
        let mut out = String::new();
        let mut row: usize = 0;
        while row < ROWS
            invariant
                self.wf(),
                b == self.buckets@,
                row <= ROWS,
                dump_spec(b) == out@ + dump_rows_spec(b, row as int),
            decreases ROWS - row,
        {
            let ghost line_base = out@;
            let rs = u128_to_dec(row as u128);
            out.append(rs.as_str());
            out.append(":");
            let mut allz = true;
            let mut j: usize = 0;
            while j < 64
                invariant
                    self.wf(),
                    b == self.buckets@,
                    row < ROWS,
                    j <= 64,
                    allz == (forall|k: int| 0 <= k < j ==> #[trigger] b[row as int * 64 + k]
                        == 0u32),
                decreases 64 - j,
            {
                if self.buckets[row * 64 + j] != 0 {
                    allz = false;
                }
                j = j + 1;
            }
            if allz {
                out.append("[0]");
                proof {
                    assert(row_zero(b, row as int));
                }
            } else {
                out.append("[");
                let ghost cells_base = out@;
                let mut j2: usize = 0;
                while j2 < 64
                    invariant
                        self.wf(),
                        b == self.buckets@,
                        row < ROWS,
                        j2 <= 64,
                        cells_base + row_cells_spec(b, row as int, 0) == out@ + row_cells_spec(
                            b,
                            row as int,
                            j2 as int,
                        ),
                    decreases 64 - j2,
                {
                    let ghost before = out@;
                    if j2 > 0 {
                        out.append(", ");
                    }
                    let cs = u128_to_dec(self.buckets[row * 64 + j2] as u128);
                    out.append(cs.as_str());
                    proof {
                        assert(before + row_cells_spec(b, row as int, j2 as int) =~= out@
                            + row_cells_spec(b, row as int, j2 as int + 1));
                    }
                    j2 = j2 + 1;
                }
                out.append("]");
                proof {
                    assert(row_cells_spec(b, row as int, 64) =~= Seq::<char>::empty());
                    assert(out@ =~= cells_base + row_cells_spec(b, row as int, 0) + "]"@);
                    assert(!row_zero(b, row as int));
                }
            }
            out.append("\n");
            proof {
                assert(out@ =~= line_base + dump_row_spec(b, row as int));
                assert(dump_rows_spec(b, row as int) =~= dump_row_spec(b, row as int)
                    + dump_rows_spec(b, row as int + 1));
                assert(out@ + dump_rows_spec(b, row as int + 1) =~= line_base + dump_rows_spec(
                    b,
                    row as int,
                ));
            }
            row = row + 1;
        }
        proof {
            assert(dump_rows_spec(b, ROWS as int) =~= Seq::<char>::empty());
            assert(out@ =~= dump_spec(b));
        }
        out
    }
}

/// Values below `64 * 2^k` land in row `k` or below.
pub proof fn lemma_row_of_le(v: u128, k: nat)
    requires
        v < 64 * pow2(k),
    ensures
        row_of(v) <= k,
    decreases k,
{
    if v >= 64 {
        lemma_pow2_pos(k);
        if k == 0 {
            assert(pow2(0) == 1) by { lemma2_to64(); };
        } else {
            lemma_pow2_adds((k - 1) as nat, 1);
            assert(pow2(1) == 2) by { lemma2_to64(); };
            assert(v / 2 < 64 * pow2((k - 1) as nat));
            lemma_row_of_le(v / 2, (k - 1) as nat);
        }
    }
}

/// In rows above zero a value lies between 64 and 128 bucket widths.
pub proof fn lemma_row_range(v: u128)
    requires
        v >= 64,
    ensures
        row_of(v) >= 1,
        64 * pow2((row_of(v) - 1) as nat) <= v,
        v < 128 * pow2((row_of(v) - 1) as nat),
    decreases v,
{
    if v < 128 {
        assert(row_of(v / 2) == 0);
        assert(pow2(0) == 1) by { lemma2_to64(); };
    } else {
        lemma_row_range(v / 2);
        let r = row_of(v);
        lemma_pow2_adds((r - 2) as nat, 1);
        assert(pow2(1) == 2) by { lemma2_to64(); };
        assert(pow2((r - 1) as nat) == 2 * pow2((r - 2) as nat));
    }
}

/// What a sound histogram guarantees of its visible state.
pub proof fn lemma_wf_bounds(d: Data)
    requires
        d.wf(),
    ensures
        d.spec_buckets().len() == NBUCKETS,
        total_count(d.spec_buckets()) <= d.spec_cnt(),
        d.spec_cnt() <= u32::MAX,
{
}

/// The running bucket sum only grows along the table.
pub proof fn lemma_psum_monotone(b: Seq<u32>, j: int, k: int)
    requires
        0 <= j <= k <= b.len(),
    ensures
        psum(b, j) <= psum(b, k),
    decreases k,
{
    if j < k {
        lemma_psum_monotone(b, j, k - 1);
    }
}

/// Bumping one counter bumps every running sum past it by the same amount.
pub proof fn lemma_psum_update(b: Seq<u32>, i: int, x: u32, k: int)
    requires
        0 <= i < b.len(),
        0 <= k <= b.len(),
    ensures
        psum(b.update(i, x), k) == psum(b, k) + (if i < k { x - b[i] } else { 0 }),
    decreases k,
{
    if k > 0 {
        lemma_psum_update(b, i, x, k - 1);
    }
}

/// A sequence of zero counters sums to zero.
pub proof fn lemma_psum_zero(b: Seq<u32>, k: int)
    requires
        0 <= k <= b.len(),
        forall|i: int| 0 <= i < k ==> b[i] == 0u32,
    ensures
        psum(b, k) == 0,
    decreases k,
{
    if k > 0 {
        lemma_psum_zero(b, k - 1);
    }
}

} // verus!
