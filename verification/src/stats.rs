//! Length statistics over a sorted set of record lengths: the Nx decile
//! table and an adaptive histogram.

use rayon::slice::ParallelSliceMut;
use vstd::prelude::*;

verus! {

/// Number of decimal digits in `n` (a one-digit number has width 1).
pub open spec fn dec_width_spec(n: u64) -> nat
    decreases n,
{
    if n < 10 {
        1
    } else {
        (1 + dec_width_spec(n / 10)) as nat
    }
}

/// Width of the decimal rendering of `n`, used to align report columns.
pub fn dec_width(n: u64) -> (w: u64)
    ensures
        w == dec_width_spec(n),
{
    let mut w: u64 = 1;
    let mut rest: u64 = n;
    while rest >= 10
        invariant
            1 <= w,
            w <= n - rest + 1,
            dec_width_spec(n) == dec_width_spec(rest) + w - 1,
        decreases rest,
    {
        proof {
            assert(rest / 10 <= rest - 9) by (nonlinear_arith)
                requires
                    rest >= 10,
            ;
        }
        rest = rest / 10;
        w = w + 1;
    }
    w
}

} // verus!

verus! {

/// Ascending order.
pub open spec fn sorted(s: Seq<u32>) -> bool {
    forall|i: int, j: int| 0 <= i <= j < s.len() ==> s[i] <= s[j]
}

/// Sum of the `k` largest lengths: the last `k` entries of an ascending
/// array.
pub open spec fn top_sum(lens: Seq<u32>, k: int) -> int
    recommends
        k <= lens.len(),
    decreases k,
{
    if k <= 0 {
        0
    } else {
        lens[lens.len() - k] + top_sum(lens, k - 1)
    }
}

/// Taking more of the largest lengths never lowers the sum.
pub proof fn lemma_top_sum_mono(lens: Seq<u32>, a: int, b: int)
    requires
        0 <= a <= b <= lens.len(),
    ensures
        top_sum(lens, a) <= top_sum(lens, b),
    decreases b,
{
    if a < b {
        lemma_top_sum_mono(lens, a, b - 1);
    }
}

/// The decile-`d` entry of the Nx table is correct: `c` is the least number
/// of longest records whose summed length strictly exceeds `(d+1)/10` of the
/// total, and `l` is the shortest of those records.
pub open spec fn is_nx_at(lens: Seq<u32>, total: u64, d: int, c: u64, l: u32) -> bool {
    &&& 1 <= c <= lens.len()
    &&& 10 * top_sum(lens, c as int) > (d + 1) * total
    &&& (forall|k: int| 0 <= k < c ==> 10 * top_sum(lens, k) <= (d + 1) * total)
    &&& l == lens[lens.len() - c]
}

/// Across the Nx table, counts never decrease and length thresholds never
/// increase as the decile grows.
pub proof fn lemma_nx_monotone(
    lens: Seq<u32>,
    total: u64,
    d1: int,
    d2: int,
    c1: u64,
    l1: u32,
    c2: u64,
    l2: u32,
)
    requires
        sorted(lens),
        0 <= d1 <= d2,
        is_nx_at(lens, total, d1, c1, l1),
        is_nx_at(lens, total, d2, c2, l2),
    ensures
        c1 <= c2,
        l1 >= l2,
{
    if c2 < c1 {
        assert((d1 + 1) * total <= (d2 + 1) * total) by (nonlinear_arith)
            requires
                0 <= d1 <= d2,
                total >= 0,
        ;
        assert(false);
    }
}

/// A filled Nx table is monotone as a whole: walking the deciles from N10
/// to N90, the counts never decrease and the length thresholds never
/// increase.
pub proof fn lemma_nx_table_monotone(lens: Seq<u32>, total: u64, counts: Seq<u64>, ls: Seq<u32>)
    requires
        sorted(lens),
        counts.len() == 9,
        ls.len() == 9,
        forall|d: int| 0 <= d < 9 ==> is_nx_at(lens, total, d, counts[d], ls[d]),
    ensures
        forall|d1: int, d2: int| 0 <= d1 <= d2 < 9 ==> counts[d1] <= counts[d2],
        forall|d1: int, d2: int| 0 <= d1 <= d2 < 9 ==> ls[d1] >= ls[d2],
{
    assert forall|d1: int, d2: int|
        0 <= d1 <= d2 < 9 implies counts[d1] <= counts[d2] && ls[d1] >= ls[d2] by {
        lemma_nx_monotone(lens, total, d1, d2, counts[d1], ls[d1], counts[d2], ls[d2]);
    }
}

/// Nine `(count, length)` pairs for the deciles N10 through N90.
pub struct Nx {
    pub count: Vec<u64>,
    pub len: Vec<u32>,
}

impl Nx {
    pub open spec fn wf(self) -> bool {
        self.count@.len() == 9 && self.len@.len() == 9
    }

    pub fn new() -> (r: Nx)
        ensures
            r.wf(),
            forall|d: int| 0 <= d < 9 ==> r.count@[d] == 0 && r.len@[d] == 0,
    {
        let mut count: Vec<u64> = Vec::new();
        let mut len: Vec<u32> = Vec::new();
        let mut i: usize = 0;
        while i < 9
            invariant
                i <= 9,
                count@.len() == i,
                len@.len() == i,
                forall|d: int| 0 <= d < i ==> count@[d] == 0 && len@[d] == 0,
            decreases 9 - i,
        {
            count.push(0);
            len.push(0);
            i = i + 1;
        }
        Nx { count, len }
    }

    /// Column widths for the rendered table, floored at the header widths.
    pub fn get_width(&self) -> (r: (u64, u64))
        requires
            self.wf(),
        ensures
            r.0 == if dec_width_spec(self.count@[8]) < 9 {
                9nat
            } else {
                dec_width_spec(self.count@[8])
            },
            r.1 == if dec_width_spec(self.len@[0] as u64) < 11 {
                11nat
            } else {
                dec_width_spec(self.len@[0] as u64)
            },
    {
        let mut w1 = dec_width(self.count[8]);
        let mut w2 = dec_width(self.len[0] as u64);
        if w1 < 9 {
            w1 = 9;
        }
        if w2 < 11 {
            w2 = 11;
        }
        (w1, w2)
    }

    /// Fills the table by scanning the sorted lengths from the largest down,
    /// recording at each decile the first point where the running sum of the
    /// longest records exceeds that decile's share of the total.
    pub fn fill(self, lens: &Vec<u32>, total: u64) -> (r: Nx)
        requires
            self.wf(),
            sorted(lens@),
            total == top_sum(lens@, lens@.len() as int),
        ensures
            r.wf(),
            total > 0 ==> forall|d: int|
                0 <= d < 9 ==> is_nx_at(lens@, total, d, r.count@[d], r.len@[d]),
            total == 0 ==> r.count@ == self.count@ && r.len@ == self.len@,
    {
        let mut nx = self;
        let n = lens.len();
        let mut i: usize = 0;
        let mut acc: u64 = 0;
        let mut cnt: u64 = 0;
        let mut j: usize = 0;
        while j < n
            invariant
                nx.wf(),
                sorted(lens@),
                total == top_sum(lens@, lens@.len() as int),
                n == lens@.len(),
                j <= n,
                i <= 9,
                cnt == j,
                acc == top_sum(lens@, j as int),
                forall|d: int| 0 <= d < i ==> is_nx_at(lens@, total, d, nx.count@[d], nx.len@[d]),
                forall|d: int|
                    i <= d < 9 ==> nx.count@[d] == self.count@[d] && nx.len@[d] == self.len@[d],
                i < 9 ==> 10 * top_sum(lens@, j as int) <= (i + 1) * total,
            decreases n - j,
        {
            let v = lens[n - 1 - j];
            proof {
                lemma_top_sum_mono(lens@, j as int + 1, n as int);
                assert(top_sum(lens@, j as int + 1) == v + top_sum(lens@, j as int));
            }
            acc = acc + (v as u64);
            cnt = cnt + 1;
            j = j + 1;
            proof {
                if i < 9 {
                    assert forall|k: int| 0 <= k < j implies 10 * top_sum(lens@, k) <= (i + 1)
                        * total by {
                        lemma_top_sum_mono(lens@, k, j as int - 1);
                    }
                }
            }
            while i < 9 && decile_exceeded(acc, i, total)
                invariant
                    nx.wf(),
                    sorted(lens@),
                    total == top_sum(lens@, lens@.len() as int),
                    n == lens@.len(),
                    1 <= j <= n,
                    i <= 9,
                    cnt == j,
                    acc == top_sum(lens@, j as int),
                    v == lens@[n - j],
                    forall|d: int|
                        0 <= d < i ==> is_nx_at(lens@, total, d, nx.count@[d], nx.len@[d]),
                    forall|d: int|
                        i <= d < 9 ==> nx.count@[d] == self.count@[d] && nx.len@[d]
                            == self.len@[d],
                    i < 9 ==> forall|k: int| 0 <= k < j ==> 10 * top_sum(lens@, k) <= (i + 1)
                        * total,
                decreases 9 - i,
            {
                nx.len[i] = v;
                nx.count[i] = cnt;
                proof {
                    assert(is_nx_at(lens@, total, i as int, cnt, v));
                }
                i = i + 1;
                proof {
                    if i < 9 {
                        assert forall|k: int| 0 <= k < j implies 10 * top_sum(lens@, k) <= (i + 1)
                            * total by {
                            assert(10 * top_sum(lens@, k) <= i * total);
                            assert(i * total <= (i + 1) * total) by (nonlinear_arith)
                                requires
                                    total >= 0,
                                    i >= 0,
                            ;
                        }
                    }
                }
            }
        }
        proof {
            if total == 0 && i > 0 {
                let c0 = nx.count@[0];
                assert(is_nx_at(lens@, total, 0, c0, nx.len@[0]));
                lemma_top_sum_mono(lens@, c0 as int, n as int);
                assert(false);
            }
            if total > 0 && i < 9 {
                assert(10 * top_sum(lens@, n as int) <= (i + 1) * total);
                assert((i + 1) * total < 10 * total) by (nonlinear_arith)
                    requires
                        total > 0,
                        0 <= i < 9,
                ;
                assert(false);
            }
        }
        nx
    }
}

/// True iff the running sum of the longest records strictly exceeds decile
/// `i + 1`'s share of the total length.
pub fn decile_exceeded(acc: u64, i: usize, total: u64) -> (r: bool)
    requires
        i < 9,
    ensures
        r == (10 * acc > (i + 1) * total),
{
    proof {
        assert(((i as int) + 1) * (total as int) < 0x1_0000_0000_0000_0000_0000_0000_0000_0000)
            by (nonlinear_arith)
            requires
                i < 9,
                total <= 0xffff_ffff_ffff_ffff,
        ;
    }
    (acc as u128) * 10 > ((i as u128) + 1) * (total as u128)
}

} // verus!

verus! {

/// Number of histogram buckets; the first and last are catch-alls below and
/// above the trimmed display range.
pub const BIN_LEN: usize = 30;

/// One bar symbol stands for at least this fraction of the record count.
pub const UNIT_BIN: u64 = 200;

/// The bucket a length falls into for a histogram anchored at `start` with
/// the given bucket width.
pub open spec fn bucket_of(v: u32, start: u32, step: u32) -> int
    recommends
        step >= 1,
{
    if v < start {
        0
    } else if 1 + (v - start) / (step as int) > 29 {
        29
    } else {
        1 + (v - start) / (step as int)
    }
}

/// How many of the lengths fall into bucket `b`.
pub open spec fn count_bucket(lens: Seq<u32>, start: u32, step: u32, b: int) -> int
    decreases lens.len(),
{
    if lens.len() == 0 {
        0
    } else {
        count_bucket(lens.drop_last(), start, step, b) + if bucket_of(lens.last(), start, step)
            == b {
            1int
        } else {
            0int
        }
    }
}

/// Sum of all bucket counters.
pub open spec fn sum64(s: Seq<u64>) -> int
    decreases s.len(),
{
    if s.len() == 0 {
        0
    } else {
        sum64(s.drop_last()) + s.last()
    }
}

/// Replacing one counter changes the sum by the difference.
pub proof fn lemma_sum64_update(s: Seq<u64>, i: int, v: u64)
    requires
        0 <= i < s.len(),
    ensures
        sum64(s.update(i, v)) == sum64(s) - s[i] + v,
    decreases s.len(),
{
    if i == s.len() - 1 {
        assert(s.update(i, v).drop_last() =~= s.drop_last());
    } else {
        assert(s.update(i, v).drop_last() =~= s.drop_last().update(i, v));
        lemma_sum64_update(s.drop_last(), i, v);
    }
}

/// A growing length never moves to an earlier bucket.
pub proof fn lemma_bucket_mono(a: u32, b: u32, start: u32, step: u32)
    requires
        step >= 1,
        a <= b,
    ensures
        bucket_of(a, start, step) <= bucket_of(b, start, step),
{
    if a >= start {
        assert((a - start) / (step as int) <= (b - start) / (step as int)) by (nonlinear_arith)
            requires
                step >= 1,
                start <= a <= b,
        ;
    }
}

/// An adaptive 30-bucket length histogram over a trimmed display range,
/// with the true minimum and maximum kept separately.
pub struct His {
    /// Width of the position columns in the rendered report.
    pub pw: u64,
    /// Width of the count column in the rendered report.
    pub cw: u64,
    /// Number of records one bar symbol stands for.
    pub unit: u64,
    /// Bucket width.
    pub step: u32,
    /// Lower edge of the second bucket, aligned down to a step multiple.
    pub start: u32,
    /// Smallest length seen.
    pub min: u32,
    /// Largest length seen.
    pub max: u32,
    /// Per-bucket record counts.
    pub count: Vec<u64>,
}

impl His {
    pub open spec fn wf(self) -> bool {
        self.count@.len() == 30 && self.step >= 1
    }

    /// Sets up the bucket grid for the trimmed range `[s, e]` over `c`
    /// records: the width splits the range over the 28 interior buckets and
    /// the start is aligned down to a width multiple.
    pub fn new(s: u32, e: u32, c: u64) -> (r: His)
        requires
            s <= e,
        ensures
            r.wf(),
            r.step == if (e - s) / 28 >= 1 {
                ((e - s) / 28) as int
            } else {
                1int
            },
            r.start == s / r.step * r.step,
            r.unit == if c / UNIT_BIN >= 5 {
                (c / UNIT_BIN) as int
            } else {
                5int
            },
            r.pw == dec_width_spec(e as u64),
            r.cw == dec_width_spec(c),
            forall|b: int| 0 <= b < 30 ==> r.count@[b] == 0,
            r.min == 0,
            r.max == u32::MAX,
    {
        let w = (e - s) / 28;
        let step = if w >= 1 {
            w
        } else {
            1
        };
        proof {
            assert(s / step * step <= s) by (nonlinear_arith)
                requires
                    step >= 1,
                    s >= 0,
            ;
        }
        let start = s / step * step;
        let u = c / UNIT_BIN;
        let unit = if u >= 5 {
            u
        } else {
            5
        };
        let mut count: Vec<u64> = Vec::new();
        let mut i: usize = 0;
        while i < 30
            invariant
                i <= 30,
                count@.len() == i,
                forall|b: int| 0 <= b < i ==> count@[b] == 0,
            decreases 30 - i,
        {
            count.push(0);
            i = i + 1;
        }
        His {
            pw: dec_width(e as u64),
            cw: dec_width(c),
            unit,
            step,
            start,
            min: 0,
            max: u32::MAX,
            count,
        }
    }

    /// Counts every length into its bucket by one monotone pass over the
    /// sorted array; the bucket counts always add up to the number of
    /// records, and the true minimum and maximum are recorded.
    pub fn fill(self, lens: &Vec<u32>) -> (r: His)
        requires
            self.wf(),
            sorted(lens@),
            forall|b: int| 0 <= b < 30 ==> self.count@[b] == 0,
        ensures
            r.wf(),
            r.step == self.step && r.start == self.start && r.unit == self.unit && r.cw
                == self.cw,
            forall|b: int|
                0 <= b < 30 ==> r.count@[b] == count_bucket(lens@, self.start, self.step, b),
            sum64(r.count@) == lens@.len(),
            lens@.len() > 0 ==> r.min == lens@[0] && r.max == lens@.last() && r.pw
                == dec_width_spec(lens@.last() as u64),
            lens@.len() == 0 ==> r.min == self.min && r.max == self.max && r.pw == self.pw,
    {
        let mut h = self;
        let n = lens.len();
        if n == 0 {
            proof {
                assert forall|b: int| 0 <= b < 30 implies h.count@[b] == count_bucket(
                    lens@,
                    h.start,
                    h.step,
                    b,
                ) by {
                    assert(count_bucket(lens@, h.start, h.step, b) == 0);
                }
                lemma_sum_zero(h.count@);
            }
            return h;
        }
        let ghost start = self.start;
        let ghost step = self.step;
        proof {
            assert(lens@.take(0) =~= Seq::<u32>::empty());
            assert(forall|b: int|
                0 <= b < 30 ==> count_bucket(lens@.take(0), start, step, b) == 0);
            lemma_sum_zero(h.count@);
        }
        let mut idx: usize = 0;
        let mut max_len: u64 = h.start as u64;
        let mut j: usize = 0;
        while j < n
            invariant
                h.wf(),
                h.step == step,
                h.start == start,
                h.unit == self.unit,
                h.cw == self.cw,
                h.pw == self.pw,
                h.min == self.min,
                h.max == self.max,
                sorted(lens@),
                n == lens@.len(),
                j <= n,
                idx < 30,
                max_len == h.start + idx * h.step,
                forall|b: int|
                    0 <= b < 30 ==> h.count@[b] == count_bucket(lens@.take(j as int), start, step, b),
                sum64(h.count@) == j,
                j == 0 ==> idx == 0,
                j > 0 ==> bucket_of(lens@[j - 1], start, step) == idx,
            decreases n - j,
        {
            let v = lens[j];
            proof {
                if j > 0 {
                    lemma_bucket_mono(lens@[j as int - 1], v, start, step);
                }
            }
            while idx + 1 < 30 && (v as u64) >= max_len
                invariant
                    sorted(lens@),
                    n == lens@.len(),
                    j < n,
                    v == lens@[j as int],
                    step == h.step,
                    start == h.start,
                    h.wf(),
                    idx < 30,
                    max_len == h.start + idx * h.step,
                    bucket_of(v, start, step) >= idx,
                decreases 30 - idx,
            {
                proof {
                    assert((v - start) / (step as int) >= idx + 1 - 1) by (nonlinear_arith)
                        requires
                            step >= 1,
                            v >= start + idx * step,
                            idx >= 0,
                            start >= 0,
                    ;
                    assert(idx * step + step == (idx + 1) * step) by (nonlinear_arith);
                    assert(start + (idx + 1) * step <= u32::MAX as int + 29 * u32::MAX as int)
                        by (nonlinear_arith)
                        requires
                            idx + 1 <= 29,
                            step <= u32::MAX,
                            start <= u32::MAX,
                    ;
                }
                idx = idx + 1;
                max_len = max_len + (h.step as u64);
            }
            proof {
                if idx + 1 < 30 {
                    if v >= start {
                        assert((v - start) / (step as int) < idx) by (nonlinear_arith)
                            requires
                                step >= 1,
                                start <= v,
                                (v as int) < start + idx * step,
                                idx >= 0,
                            ;
                    }
                    assert(bucket_of(v, start, step) == idx);
                } else {
                    assert(bucket_of(v, start, step) == idx);
                }
            }
            let c = h.count[idx];
            let ghost cnts0 = h.count@;
            proof {
                lemma_count_bucket_bound(lens@.take(j as int), start, step, idx as int);
            }
            h.count[idx] = c + 1;
            j = j + 1;
            proof {
                lemma_sum64_update(cnts0, idx as int, (c + 1) as u64);
                assert(lens@.take(j as int).drop_last() =~= lens@.take(j as int - 1));
                assert(lens@.take(j as int).last() == v);
                assert forall|b: int| 0 <= b < 30 implies h.count@[b] == count_bucket(
                    lens@.take(j as int),
                    start,
                    step,
                    b,
                ) by {
                    assert(count_bucket(lens@.take(j as int), start, step, b) == count_bucket(
                        lens@.take(j as int - 1),
                        start,
                        step,
                        b,
                    ) + if bucket_of(v, start, step) == b {
                        1int
                    } else {
                        0int
                    });
                }
            }
        }
        h.min = lens[0];
        h.max = lens[n - 1];
        h.pw = dec_width(lens[n - 1] as u64);
        proof {
            assert(lens@.take(n as int) =~= lens@);
        }
        h
    }
}

/// A row of zero counters sums to zero.
pub proof fn lemma_sum_zero(s: Seq<u64>)
    requires
        forall|b: int| 0 <= b < s.len() ==> s[b] == 0,
    ensures
        sum64(s) == 0,
    decreases s.len(),
{
    if s.len() > 0 {
        lemma_sum_zero(s.drop_last());
    }
}

/// No bucket can hold more records than were counted.
pub proof fn lemma_count_bucket_bound(lens: Seq<u32>, start: u32, step: u32, b: int)
    ensures
        0 <= count_bucket(lens, start, step, b) <= lens.len(),
    decreases lens.len(),
{
    if lens.len() > 0 {
        lemma_count_bucket_bound(lens.drop_last(), start, step, b);
    }
}

} // verus!

verus! {

/// Relies on rayon's `par_sort_unstable`: sorts the slice in place in
/// parallel; the result holds the same values. Equal `u32`s are
/// indistinguishable, so the instability is unobservable.
#[verifier::external_body]
fn par_sort_u32(v: &mut Vec<u32>)
    ensures
        sorted(final(v)@),
        final(v)@.to_multiset() == old(v)@.to_multiset(),
{
    v.par_sort_unstable();
}

/// Sorts the collected lengths ascending, keeping exactly the same multiset
/// of values.
pub fn sort_lengths(v: &mut Vec<u32>)
    ensures
        sorted(final(v)@),
        final(v)@.to_multiset() == old(v)@.to_multiset(),
        final(v)@.len() == old(v)@.len(),
{
    par_sort_u32(v);
    proof {
        old(v)@.to_multiset_ensures();
        final(v)@.to_multiset_ensures();
    }
}

/// Index of the lower trim point: about the 1st percentile of the count.
pub open spec fn trim_lo(n: int) -> int {
    2 * (n / 200)
}

/// Index of the upper trim point: about the 99th percentile, floored so a
/// tiny input still leaves a valid index.
pub open spec fn trim_hi(n: int) -> int {
    n - (if 2 * (n / 200) >= 1 {
        2 * (n / 200)
    } else {
        1int
    })
}

/// Computes both statistics over the sorted length set: the histogram on a
/// display range trimmed at order statistics near the 1st and 99th
/// percentile, and the Nx decile table.
pub fn compute_stats(lens: &Vec<u32>, total: u64) -> (r: (His, Nx))
    requires
        sorted(lens@),
        total == top_sum(lens@, lens@.len() as int),
        lens@.len() > 0,
    ensures
        r.0.wf(),
        r.1.wf(),
        r.0.min == lens@[0],
        r.0.max == lens@.last(),
        sum64(r.0.count@) == lens@.len(),
        forall|b: int|
            0 <= b < 30 ==> r.0.count@[b] == count_bucket(lens@, r.0.start, r.0.step, b),
        (r.0.step == {
            let w = (lens@[trim_hi(lens@.len() as int)] - lens@[trim_lo(
                lens@.len() as int,
            )]) / 28;
            if w >= 1 {
                w
            } else {
                1int
            }
        }),
        r.0.start == lens@[trim_lo(lens@.len() as int)] / r.0.step * r.0.step,
        total > 0 ==> forall|d: int|
            0 <= d < 9 ==> is_nx_at(lens@, total, d, r.1.count@[d], r.1.len@[d]),
        total == 0 ==> forall|d: int| 0 <= d < 9 ==> r.1.count@[d] == 0 && r.1.len@[d] == 0,
{
    let n = lens.len();
    let dev = n / 200 * 2;
    let cut = if dev >= 1 {
        dev
    } else {
        1
    };
    proof {
        if dev >= 1 {
            assert(n / 200 * 2 + n / 200 * 2 <= n) by (nonlinear_arith)
                requires
                    n >= 200,
            ;
        }
        assert(dev <= n - cut);
    }
    let s = lens[dev];
    let e = lens[n - cut];
    proof {
        assert(s <= e);
    }
    let his = His::new(s, e, n as u64);
    let his = his.fill(lens);
    let nx = Nx::new();
    let nx = nx.fill(lens, total);
    (his, nx)
}

} // verus!
