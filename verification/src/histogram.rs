//! A fixed-precision latency histogram over microsecond values.
//!
//! Values are mapped into logarithmically sized buckets: values below 2048
//! land in their own bucket, and each further doubling of the value range is
//! split into 1024 buckets, so every bucket spans less than a thousandth of
//! its values (three significant digits).  Recording is O(1); rank queries
//! scan the fixed bucket array.  Values are clipped to one hour.

use vstd::arithmetic::div_mod::{
    lemma_div_denominator, lemma_fundamental_div_mod, lemma_fundamental_div_mod_converse_div,
    lemma_fundamental_div_mod_converse_mod,
};
use vstd::arithmetic::power2::{lemma2_to64, lemma_pow2_adds, lemma_pow2_pos, pow2};
use vstd::prelude::*;

verus! {

/// The largest value the histogram tracks exactly: one hour in microseconds.
/// Larger values are clipped to this on recording.
pub const HIGHEST_TRACKABLE_MICROS: u64 = 3_600_000_000;

/// Number of buckets: 2048 unit buckets, then 1024 per doubling, enough
/// doublings to cover the clipped range.
pub const NUM_BUCKETS: usize = 2048 + 21 * 1024;

/// How many doublings it takes to bring `v` under 2048.
pub open spec fn bucket_shift(v: nat) -> nat
    decreases v,
{
    if v < 2048 {
        0
    } else {
        1 + bucket_shift(v / 2)
    }
}

/// The bucket that holds `v`.
pub open spec fn bucket_of(v: nat) -> int {
    let s = bucket_shift(v);
    if s == 0 {
        v as int
    } else {
        2048 + (s - 1) * 1024 + (v as int / pow2(s) as int - 1024)
    }
}

/// Shift and offset a bucket index decodes to.
pub open spec fn bucket_split(i: int) -> (int, int) {
    ((i - 2048) / 1024 + 1, 1024 + (i - 2048) % 1024)
}

/// The smallest value that lands in bucket `i`.
pub open spec fn bucket_low(i: int) -> int {
    if i < 2048 {
        i
    } else {
        let (s, r) = bucket_split(i);
        r * pow2(s as nat) as int
    }
}

/// The largest value that lands in bucket `i`.
pub open spec fn bucket_high(i: int) -> int {
    if i < 2048 {
        i
    } else {
        let (s, r) = bucket_split(i);
        (r + 1) * pow2(s as nat) as int - 1
    }
}

/// After `bucket_shift(v)` halvings a value at least 2048 sits in
/// [1024, 2048).
proof fn lemma_shift_range(v: nat)
    requires
        v >= 2048,
    ensures
        bucket_shift(v) >= 1,
        ({
            let m = v as int / pow2(bucket_shift(v)) as int;
            1024 <= m < 2048
        }),
    decreases v,
{
    let s = bucket_shift(v);
    lemma2_to64();
    if v / 2 < 2048 {
        assert(bucket_shift((v / 2) as nat) == 0);
        assert(s == 1);
        assert(v as int / 2 == v as int / pow2(1) as int);
    } else {
        lemma_shift_range(v / 2);
        let s1 = bucket_shift(v / 2);
        assert(s == 1 + s1);
        lemma_pow2_pos(s1);
        lemma_div_denominator(v as int, 2, pow2(s1) as int);
        lemma_pow2_adds(1, s1);
        assert(pow2(s) == 2 * pow2(s1));
        assert(v as int / pow2(s) as int == (v as int / 2) / pow2(s1) as int);
    }
}

/// Buckets of trackable values fit the bucket array.
pub proof fn lemma_bucket_of_bound(v: nat)
    requires
        v <= HIGHEST_TRACKABLE_MICROS,
    ensures
        0 <= bucket_of(v) < NUM_BUCKETS,
{
    let s = bucket_shift(v);
    if v < 2048 {
    } else {
        lemma_shift_range(v);
        let m = v as int / pow2(s) as int;
        // If the shift were 22 or more the value would exceed an hour.
        if s >= 22 {
            lemma_pow2_pos(s);
            lemma_fundamental_div_mod(v as int, pow2(s) as int);
            assert(pow2(s) >= pow2(22)) by {
                if s > 22 {
                    vstd::arithmetic::power2::lemma_pow2_strictly_increases(22, s);
                }
            }
            lemma2_to64();
            assert(v as int >= pow2(s) as int * m >= 1024 * pow2(22) as int) by (nonlinear_arith)
                requires
                    m >= 1024,
                    pow2(s) as int >= pow2(22) as int,
                    pow2(22) == 0x400000,
                    v as int == pow2(s) as int * m + v as int % pow2(s) as int,
                    v as int % pow2(s) as int >= 0,
            {
            }
            assert(false);
        }
        assert(bucket_of(v) == 2048 + (s - 1) * 1024 + (m - 1024));
        assert((s - 1) * 1024 <= 20 * 1024) by (nonlinear_arith)
            requires
                1 <= s <= 21,
        {
        }
        assert((s - 1) * 1024 >= 0) by (nonlinear_arith)
            requires
                s >= 1,
        {
        }
    }
}

/// Every value sits between the bounds of its own bucket.
pub proof fn lemma_bucket_contains(v: nat)
    ensures
        bucket_low(bucket_of(v)) <= v <= bucket_high(bucket_of(v)),
{
    let s = bucket_shift(v);
    if v < 2048 {
    } else {
        lemma_shift_range(v);
        let d = pow2(s) as int;
        let m = v as int / d;
        let i = 2048 + (s - 1) * 1024 + (m - 1024);
        assert(i - 2048 == (s - 1) * 1024 + (m - 1024));
        lemma_fundamental_div_mod_converse_div(i - 2048, 1024, s - 1, m - 1024);
        lemma_fundamental_div_mod_converse_mod(i - 2048, 1024, s - 1, m - 1024);
        assert(bucket_split(i) == (s as int, m));
        lemma_pow2_pos(s);
        lemma_fundamental_div_mod(v as int, d);
        assert(m * d <= v as int && (v as int) < (m + 1) * d) by (nonlinear_arith)
            requires
                d > 0,
                v as int == d * m + v as int % d,
                0 <= v as int % d < d,
        {
        }
    }
}

/// Bucket ranges are disjoint and ordered: each bucket ends strictly below
/// the next one.
pub proof fn lemma_bucket_adjacent(i: int)
    requires
        0 <= i,
    ensures
        bucket_high(i) < bucket_low(i + 1),
{
    if i + 1 < 2048 {
    } else if i == 2047 {
        lemma2_to64();
        assert(bucket_split(2048) == (1int, 1024int));
        assert(bucket_low(2048) == 1024 * pow2(1));
    } else {
        let (s, r) = bucket_split(i);
        let (s2, r2) = bucket_split(i + 1);
        assert(1 <= s && 1024 <= r < 2048) by {
            lemma_fundamental_div_mod((i - 2048), 1024);
            assert(0 <= (i - 2048) % 1024 < 1024);
            assert((i - 2048) / 1024 >= 0);
        }
        if (i - 2048) % 1024 == 1023 {
            // last offset of its doubling: the next index opens the next one
            lemma_fundamental_div_mod(i - 2048, 1024);
            lemma_fundamental_div_mod_converse_div(i + 1 - 2048, 1024, s, 0);
            lemma_fundamental_div_mod_converse_mod(i + 1 - 2048, 1024, s, 0);
            assert(s2 == s + 1 && r2 == 1024);
            lemma_pow2_adds(s as nat, 1);
            lemma2_to64();
            lemma_pow2_pos(s as nat);
            assert((r + 1) * pow2(s as nat) as int - 1 < 1024 * pow2((s + 1) as nat) as int)
                by (nonlinear_arith)
                requires
                    r == 2047,
                    pow2((s + 1) as nat) == pow2(s as nat) * 2,
                    pow2(s as nat) >= 1,
            {
            }
        } else {
            lemma_fundamental_div_mod(i - 2048, 1024);
            lemma_fundamental_div_mod_converse_div(i + 1 - 2048, 1024, s - 1, (i - 2048) % 1024 + 1);
            lemma_fundamental_div_mod_converse_mod(i + 1 - 2048, 1024, s - 1, (i - 2048) % 1024 + 1);
            assert(s2 == s && r2 == r + 1);
        }
    }
}

/// Buckets are ordered: the end of any earlier bucket sits strictly below
/// the start of any later one.
pub proof fn lemma_bucket_chain(i: int, j: int)
    requires
        0 <= i < j,
    ensures
        bucket_high(i) < bucket_low(j),
        bucket_low(i) <= bucket_high(i),
        bucket_low(j) <= bucket_high(j),
    decreases j - i,
{
    lemma_bucket_low_le_high(i);
    lemma_bucket_low_le_high(j);
    if j == i + 1 {
        lemma_bucket_adjacent(i);
    } else {
        lemma_bucket_chain(i, j - 1);
        lemma_bucket_adjacent(j - 1);
    }
}

/// Every bucket is a non-empty range.
pub proof fn lemma_bucket_low_le_high(i: int)
    requires
        0 <= i,
    ensures
        bucket_low(i) <= bucket_high(i),
        0 <= bucket_low(i),
{
    if i >= 2048 {
        let (s, r) = bucket_split(i);
        assert(1 <= s && 1024 <= r) by {
            lemma_fundamental_div_mod((i - 2048), 1024);
            assert(0 <= (i - 2048) % 1024 < 1024);
            assert((i - 2048) / 1024 >= 0);
        }
        lemma_pow2_pos(s as nat);
        assert(r * pow2(s as nat) as int <= (r + 1) * pow2(s as nat) as int - 1 && r * pow2(
            s as nat,
        ) as int >= 0) by (nonlinear_arith)
            requires
                r >= 1024,
                pow2(s as nat) >= 1,
        {
        }
    }
}

/// Values in earlier buckets are smaller: the bucket map is monotone.
pub proof fn lemma_bucket_monotone(v: nat, w: nat)
    requires
        v <= w,
    ensures
        bucket_of(v) <= bucket_of(w),
{
    if bucket_of(w) < bucket_of(v) {
        lemma_bucket_contains(v);
        lemma_bucket_contains(w);
        lemma_bucket_of_nonneg(w);
        lemma_bucket_chain(bucket_of(w), bucket_of(v));
        assert(false);
    }
}

/// Bucket indices are never negative.
pub proof fn lemma_bucket_of_nonneg(v: nat)
    ensures
        bucket_of(v) >= 0,
{
    if v >= 2048 {
        lemma_shift_range(v);
        let s = bucket_shift(v);
        assert((s - 1) * 1024 >= 0) by (nonlinear_arith)
            requires
                s >= 1,
        {
        }
    }
}

/// Computes `pow2(e)` for the shifts the bucket map uses.
fn pow2_u64(e: u64) -> (r: u64)
    requires
        e <= 40,
    ensures
        r == pow2(e as nat),
{
    let mut r: u64 = 1;
    let mut k: u64 = 0;
    proof {
        lemma2_to64();
    }
    while k < e
        invariant
            k <= e <= 40,
            r == pow2(k as nat),
        decreases e - k,
    {
        proof {
            lemma_pow2_adds(k as nat, 1);
            lemma2_to64();
            vstd::arithmetic::power2::lemma_pow2_strictly_increases((k + 1) as nat, 41);
            vstd::arithmetic::power2::lemma2_to64_rest();
        }
        r = r * 2;
        k = k + 1;
    }
    r
}

/// The bucket index of a trackable value.
fn bucket_index(v: u64) -> (i: usize)
    requires
        v <= HIGHEST_TRACKABLE_MICROS,
    ensures
        i == bucket_of(v as nat),
        i < NUM_BUCKETS,
{
    proof {
        lemma_bucket_of_bound(v as nat);
    }
    if v < 2048 {
        return v as usize;
    }
    let mut m: u64 = v;
    let mut s: u64 = 0;
    proof {
        lemma2_to64();
    }
    while m >= 2048
        invariant
            v >= 2048,
            v <= HIGHEST_TRACKABLE_MICROS,
            s + bucket_shift(m as nat) == bucket_shift(v as nat),
            m as nat == v as nat / pow2(s as nat),
            pow2(s as nat) <= v,
        decreases m,
    {
        proof {
            lemma2_to64();
            lemma_pow2_pos(s as nat);
            let d = pow2(s as nat) as int;
            lemma_fundamental_div_mod(v as int, d);
            assert(2 * d <= v as int) by (nonlinear_arith)
                requires
                    d >= 1,
                    v as int == d * (m as int) + v as int % d,
                    v as int % d >= 0,
                    m >= 2048,
            {
            }
            // the shift stays under 32 because the value is under an hour
            assert(s < 32) by {
                lemma2_to64();
                vstd::arithmetic::power2::lemma2_to64_rest();
                if s >= 32 {
                    if s > 32 {
                        vstd::arithmetic::power2::lemma_pow2_strictly_increases(32, s as nat);
                    }
                    assert(false);
                }
            }
            lemma_pow2_adds(s as nat, 1);
            lemma_div_denominator(v as int, d, 2);
            assert(pow2((s + 1) as nat) == d * 2);
            assert(bucket_shift(m as nat) == 1 + bucket_shift((m / 2) as nat));
        }
        m = m / 2;
        s = s + 1;
    }
    proof {
        assert(bucket_shift(m as nat) == 0);
        lemma_shift_range(v as nat);
        assert(bucket_of(v as nat) == 2048 + (s - 1) * 1024 + (m - 1024));
    }
    let i: u64 = 2048 + (s - 1) * 1024 + (m - 1024);
    i as usize
}

/// The split of a bucket index into shift and offset, with its ranges.
proof fn lemma_split_ranges(i: int)
    requires
        2048 <= i < NUM_BUCKETS,
    ensures
        ({
            let (s, r) = bucket_split(i);
            1 <= s <= 21 && 1024 <= r < 2048 && pow2(s as nat) < pow2(22)
        }),
{
    lemma_fundamental_div_mod(i - 2048, 1024);
    assert(0 <= (i - 2048) % 1024 < 1024);
    let (s, r) = bucket_split(i);
    assert(1 <= s <= 21);
    vstd::arithmetic::power2::lemma_pow2_strictly_increases(s as nat, 22);
}

/// The smallest value of bucket `i`.
fn bucket_low_value(i: usize) -> (r: u64)
    requires
        i < NUM_BUCKETS,
    ensures
        r == bucket_low(i as int),
{
    if i < 2048 {
        i as u64
    } else {
        let s: u64 = ((i as u64 - 2048) / 1024) + 1;
        let r: u64 = 1024 + (i as u64 - 2048) % 1024;
        proof {
            lemma_split_ranges(i as int);
            lemma2_to64();
            assert(r * pow2(s as nat) <= 2048 * pow2(22)) by (nonlinear_arith)
                requires
                    r <= 2048,
                    pow2(s as nat) <= pow2(22),
            {
            }
        }
        let p = pow2_u64(s);
        r * p
    }
}

/// Sum of a sequence of recorded values.
pub open spec fn sum_seq(s: Seq<u64>) -> int
    decreases s.len(),
{
    if s.len() == 0 {
        0
    } else {
        sum_seq(s.drop_last()) + s.last()
    }
}

/// Sum of the squares of a sequence of recorded values, for standard
/// deviation computations by readers.
pub open spec fn sum_sq_seq(s: Seq<u64>) -> int
    decreases s.len(),
{
    if s.len() == 0 {
        0
    } else {
        sum_sq_seq(s.drop_last()) + s.last() * s.last()
    }
}

/// Squares of values up to `hi` sum to at most `hi * hi` times the length.
pub proof fn lemma_sum_sq_bounds(s: Seq<u64>, hi: int)
    requires
        0 <= hi,
        forall|k: int| 0 <= k < s.len() ==> #[trigger] s[k] <= hi,
    ensures
        0 <= sum_sq_seq(s) <= s.len() * (hi * hi),
    decreases s.len(),
{
    if s.len() == 0 {
    } else {
        let t = s.drop_last();
        assert(forall|k: int| 0 <= k < t.len() ==> t[k] == #[trigger] s[k]);
        lemma_sum_sq_bounds(t, hi);
        assert(s.last() * s.last() <= hi * hi && 0 <= s.last() * s.last()) by (nonlinear_arith)
            requires
                0 <= s.last() <= hi,
        {
        }
        assert(t.len() * (hi * hi) + hi * hi == s.len() * (hi * hi)) by (nonlinear_arith)
            requires
                t.len() + 1 == s.len(),
        {
        }
    }
}

/// How many values of `s` fall in bucket `b`.
pub open spec fn count_bucket(s: Seq<u64>, b: int) -> int
    decreases s.len(),
{
    if s.len() == 0 {
        0
    } else {
        count_bucket(s.drop_last(), b) + if bucket_of(s.last() as nat) == b {
            1int
        } else {
            0int
        }
    }
}

/// Sum of the bucket counters from index `i` on.
pub open spec fn counts_from(c: Seq<u64>, i: int) -> int
    decreases c.len() - i,
{
    if i < 0 || i >= c.len() {
        0
    } else {
        c[i] + counts_from(c, i + 1)
    }
}

pub proof fn lemma_count_bucket_bounds(s: Seq<u64>, b: int)
    ensures
        0 <= count_bucket(s, b) <= s.len(),
    decreases s.len(),
{
    if s.len() > 0 {
        lemma_count_bucket_bounds(s.drop_last(), b);
    }
}

/// A bucket holding one of the values of `s` is counted at least once.
pub proof fn lemma_count_bucket_mem(s: Seq<u64>, k: int)
    requires
        0 <= k < s.len(),
    ensures
        count_bucket(s, bucket_of(s[k] as nat)) >= 1,
    decreases s.len(),
{
    lemma_count_bucket_bounds(s.drop_last(), bucket_of(s[k] as nat));
    if k < s.len() - 1 {
        assert(s.drop_last()[k] == s[k]);
        lemma_count_bucket_mem(s.drop_last(), k);
    }
}

/// A sequence of values between `lo` and `hi` sums between `lo` and `hi`
/// times its length.
pub proof fn lemma_sum_seq_bounds(s: Seq<u64>, lo: int, hi: int)
    requires
        forall|k: int| 0 <= k < s.len() ==> lo <= #[trigger] s[k] <= hi,
    ensures
        s.len() * lo <= sum_seq(s) <= s.len() * hi,
    decreases s.len(),
{
    if s.len() == 0 {
    } else {
        let t = s.drop_last();
        assert(forall|k: int| 0 <= k < t.len() ==> lo <= #[trigger] t[k] <= hi) by {
            assert(forall|k: int| 0 <= k < t.len() ==> t[k] == #[trigger] s[k]);
        }
        lemma_sum_seq_bounds(t, lo, hi);
        assert(t.len() * lo + lo == s.len() * lo && t.len() * hi + hi == s.len() * hi)
            by (nonlinear_arith)
            requires
                t.len() + 1 == s.len(),
        {
        }
    }
}

/// Incrementing one counter raises every suffix sum through it by one.
proof fn lemma_counts_from_update(c: Seq<u64>, j: int, i: int)
    requires
        0 <= j < c.len(),
        c[j] < u64::MAX,
        0 <= i <= c.len(),
    ensures
        counts_from(c.update(j, (c[j] + 1) as u64), i) == counts_from(c, i) + if i <= j {
            1int
        } else {
            0int
        },
    decreases c.len() - i,
{
    if i < c.len() {
        lemma_counts_from_update(c, j, i + 1);
    }
}

/// If the counters from `i` on sum to something positive, a non-empty
/// bucket exists, and the scan stops at the first one.
proof fn lemma_first_nonempty_props(c: Seq<u64>, i: int)
    requires
        0 <= i <= c.len(),
        counts_from(c, i) > 0,
    ensures
        i <= first_nonempty(c, i) < c.len(),
        c[first_nonempty(c, i)] > 0,
        forall|l: int| i <= l < first_nonempty(c, i) ==> c[l] == 0,
    decreases c.len() - i,
{
    if c[i] > 0 {
    } else {
        lemma_first_nonempty_props(c, i + 1);
    }
}

/// The first non-empty bucket comes no later than any non-empty bucket.
proof fn lemma_first_nonempty_le(c: Seq<u64>, i: int, j: int)
    requires
        0 <= i <= j < c.len(),
        c[j] > 0,
    ensures
        first_nonempty(c, i) <= j,
    decreases j - i,
{
    if i < j && c[i] == 0 {
        lemma_first_nonempty_le(c, i + 1, j);
    }
}

/// The backwards scan finds the last non-empty bucket below `j`.
proof fn lemma_last_nonempty_props(c: Seq<u64>, j: int, w: int)
    requires
        0 <= w < j <= c.len(),
        c[w] > 0,
    ensures
        w <= last_nonempty(c, j) < j,
        c[last_nonempty(c, j)] > 0,
        forall|l: int| last_nonempty(c, j) < l < j ==> c[l] == 0,
    decreases j,
{
    if c[j - 1] > 0 {
    } else {
        lemma_last_nonempty_props(c, j - 1, w);
    }
}

/// Index of the first non-empty bucket at or after `i`, or the length.
pub open spec fn first_nonempty(c: Seq<u64>, i: int) -> int
    decreases c.len() - i,
{
    if i < 0 || i >= c.len() {
        c.len() as int
    } else if c[i] > 0 {
        i
    } else {
        first_nonempty(c, i + 1)
    }
}

/// Index of the last non-empty bucket strictly before `j`, or 0.
pub open spec fn last_nonempty(c: Seq<u64>, j: int) -> int
    decreases j,
{
    if j <= 0 || j > c.len() {
        0
    } else if c[j - 1] > 0 {
        j - 1
    } else {
        last_nonempty(c, j - 1)
    }
}

/// Index of the bucket where the cumulative count first reaches `rem`.
pub open spec fn scan_rank(c: Seq<u64>, i: int, rem: int) -> int
    decreases c.len() - i,
{
    if i < 0 || i >= c.len() {
        c.len() as int
    } else if c[i] >= rem {
        i
    } else {
        scan_rank(c, i + 1, rem - c[i])
    }
}

/// The rank a percentile asks for: at least one value, at least
/// `p` per cent of the total, rounded up.
pub open spec fn rank_target(total: int, p: int) -> int {
    let t = (total * p + 99) / 100;
    if t < 1 {
        1
    } else {
        t
    }
}

/// `v` clipped to the trackable range.
pub open spec fn clip(v: u64) -> u64 {
    if v > HIGHEST_TRACKABLE_MICROS {
        HIGHEST_TRACKABLE_MICROS
    } else {
        v
    }
}

/// The histogram: one counter per bucket, plus the running total and sum,
/// and the ghost sequence of clipped values it has recorded.
pub struct Histogram {
    pub counts: Vec<u64>,
    pub total: u64,
    pub sum: u128,
    pub sum_sq: u128,
    pub values: Ghost<Seq<u64>>,
}

impl Histogram {
    /// The counters agree with the recorded values bucket by bucket, and
    /// the total and sum aggregate them.
    pub open spec fn wf(&self) -> bool {
        &&& self.counts@.len() == NUM_BUCKETS
        &&& self.total as int == self.values@.len()
        &&& self.sum == sum_seq(self.values@)
        &&& self.sum_sq == sum_sq_seq(self.values@)
        &&& forall|k: int|
            0 <= k < self.values@.len() ==> #[trigger] self.values@[k]
                <= HIGHEST_TRACKABLE_MICROS
        &&& forall|b: int|
            0 <= b < NUM_BUCKETS ==> #[trigger] self.counts@[b] as int == count_bucket(
                self.values@,
                b,
            )
        &&& counts_from(self.counts@, 0) == self.total
    }

    /// The lowest value of the first non-empty bucket; 0 when empty.
    pub open spec fn spec_min(&self) -> int {
        if self.total == 0 {
            0
        } else {
            bucket_low(first_nonempty(self.counts@, 0))
        }
    }

    /// The highest value of the last non-empty bucket; 0 when empty.
    pub open spec fn spec_max(&self) -> int {
        if self.total == 0 {
            0
        } else {
            bucket_high(last_nonempty(self.counts@, NUM_BUCKETS as int))
        }
    }

    /// The mean of the recorded values, rounded down; 0 when empty.
    pub open spec fn spec_mean(&self) -> int {
        if self.total == 0 {
            0
        } else {
            sum_seq(self.values@) / self.values@.len() as int
        }
    }

    /// The highest value of the bucket where the cumulative count reaches
    /// the rank that `p` per cent of the total asks for; 0 when empty.
    pub open spec fn spec_percentile(&self, p: int) -> int {
        if self.total == 0 {
            0
        } else {
            bucket_high(scan_rank(self.counts@, 0, rank_target(self.total as int, p)))
        }
    }

    /// An empty histogram.
    pub fn new() -> (h: Histogram)
        ensures
            h.wf(),
            h.values@ == Seq::<u64>::empty(),
            h.total == 0,
            h.sum == 0,
            h.sum_sq == 0,
    {
        let mut counts: Vec<u64> = Vec::new();
        let mut i: usize = 0;
        while i < NUM_BUCKETS
            invariant
                i <= NUM_BUCKETS,
                counts@.len() == i,
                forall|b: int| 0 <= b < i ==> #[trigger] counts@[b] == 0,
            decreases NUM_BUCKETS - i,
        {
            counts.push(0);
            i = i + 1;
        }
        let h = Histogram { counts, total: 0, sum: 0, sum_sq: 0, values: Ghost(Seq::empty()) };
        proof {
            lemma_counts_from_zero(h.counts@, 0);
        }
        h
    }

    /// Records one value, clipped to the trackable range.
    pub fn record(&mut self, v: u64)
        requires
            old(self).wf(),
            old(self).total < u64::MAX,
        ensures
            final(self).wf(),
            final(self).values@ == old(self).values@.push(clip(v)),
            final(self).total == old(self).total + 1,
    {
        let c = if v > HIGHEST_TRACKABLE_MICROS {
            HIGHEST_TRACKABLE_MICROS
        } else {
            v
        };
        let b = bucket_index(c);
        proof {
            lemma_count_bucket_bounds(self.values@, b as int);
            lemma_sum_seq_bounds(self.values@, 0, HIGHEST_TRACKABLE_MICROS as int);
            assert(self.values@.len() * (HIGHEST_TRACKABLE_MICROS as int) <= 0xffff_ffff_ffff_ffff
                * 0xd693a400) by (nonlinear_arith)
                requires
                    self.values@.len() <= 0xffff_ffff_ffff_ffff,
            {
            }
            lemma_sum_sq_bounds(
                self.values@,
                HIGHEST_TRACKABLE_MICROS as int,
            );
            assert(self.values@.len() * (0xd693a400 * 0xd693a400) <= 0xffff_ffff_ffff_ffff * (
            0xd693a400 * 0xd693a400)) by (nonlinear_arith)
                requires
                    self.values@.len() <= 0xffff_ffff_ffff_ffff,
            {
            }
            assert(c * c <= 0xd693a400 * 0xd693a400) by (nonlinear_arith)
                requires
                    0 <= c <= 0xd693a400,
            {
            }
        }
        let cnt = self.counts[b];
        self.counts.set(b, cnt + 1);
        self.total = self.total + 1;
        self.sum = self.sum + c as u128;
        self.sum_sq = self.sum_sq + (c as u128) * (c as u128);
        proof {
            let vs = old(self).values@;
            let nv = vs.push(c);
            self.values@ = nv;
            assert(nv.drop_last() =~= vs);
            assert(forall|k: int| 0 <= k < nv.len() ==> #[trigger] nv[k]
                <= HIGHEST_TRACKABLE_MICROS) by {
                assert(forall|k: int| 0 <= k < vs.len() ==> nv[k] == #[trigger] vs[k]);
            }
            assert forall|b2: int| 0 <= b2 < NUM_BUCKETS implies #[trigger] self.counts@[b2] as int
                == count_bucket(nv, b2) by {
                assert(count_bucket(nv, b2) == count_bucket(vs, b2) + if bucket_of(c as nat) == b2 {
                    1int
                } else {
                    0int
                });
                assert(self.counts@ == old(self).counts@.update(b as int, (cnt + 1) as u64));
                if b2 != b as int {
                    assert(self.counts@[b2] == old(self).counts@[b2]);
                }
            }
            lemma_counts_from_update(old(self).counts@, b as int, 0);
        }
    }

    /// The smallest recorded value, up to bucket precision (it is the lower
    /// bound of its bucket, so no recorded value is smaller).
    pub fn min(&self) -> (r: u64)
        requires
            self.wf(),
        ensures
            r == self.spec_min(),
    {
        if self.total == 0 {
            return 0;
        }
        proof {
            lemma_first_nonempty_props(self.counts@, 0);
        }
        let ghost f = first_nonempty(self.counts@, 0);
        let mut i: usize = 0;
        while self.counts[i] == 0
            invariant
                self.wf(),
                0 <= i <= f,
                f == first_nonempty(self.counts@, 0),
                f < NUM_BUCKETS,
                self.counts@[f] > 0,
                first_nonempty(self.counts@, i as int) == f,
            decreases NUM_BUCKETS - i,
        {
            i = i + 1;
        }
        assert(i == f);
        bucket_low_value(i)
    }

    /// The largest recorded value, up to bucket precision (it is the upper
    /// bound of its bucket, so no recorded value is larger).
    pub fn max(&self) -> (r: u64)
        requires
            self.wf(),
        ensures
            r == self.spec_max(),
    {
        if self.total == 0 {
            return 0;
        }
        proof {
            lemma_first_nonempty_props(self.counts@, 0);
            lemma_last_nonempty_props(
                self.counts@,
                NUM_BUCKETS as int,
                first_nonempty(self.counts@, 0),
            );
        }
        let ghost f = last_nonempty(self.counts@, NUM_BUCKETS as int);
        let mut j: usize = NUM_BUCKETS;
        while self.counts[j - 1] == 0
            invariant
                self.wf(),
                0 <= f < j <= NUM_BUCKETS,
                f == last_nonempty(self.counts@, NUM_BUCKETS as int),
                self.counts@[f] > 0,
                last_nonempty(self.counts@, j as int) == f,
            decreases j,
        {
            j = j - 1;
        }
        assert(j - 1 == f);
        bucket_high_value(j - 1)
    }

    /// The mean of the recorded values in microseconds, rounded down.
    pub fn mean(&self) -> (r: u64)
        requires
            self.wf(),
        ensures
            r == self.spec_mean(),
    {
        if self.total == 0 {
            return 0;
        }
        proof {
            lemma_sum_seq_bounds(self.values@, 0, HIGHEST_TRACKABLE_MICROS as int);
            let n = self.values@.len() as int;
            let h = HIGHEST_TRACKABLE_MICROS as int;
            vstd::arithmetic::div_mod::lemma_div_is_ordered(
                self.sum as int,
                n * h,
                n,
            );
            vstd::arithmetic::div_mod::lemma_div_multiples_vanish(h, n);
            assert(n * h == h * n) by (nonlinear_arith);
            vstd::arithmetic::div_mod::lemma_div_pos_is_pos(self.sum as int, n);
        }
        (self.sum / (self.total as u128)) as u64
    }

    /// The value at percentile `p`: the upper bound of the bucket where the
    /// cumulative count reaches `p` per cent of the recorded values.
    pub fn percentile(&self, p: u64) -> (r: u64)
        requires
            self.wf(),
            p <= 100,
        ensures
            r == self.spec_percentile(p as int),
    {
        if self.total == 0 {
            return 0;
        }
        proof {
            assert(self.total as int * p as int <= 0xffff_ffff_ffff_ffff * 100)
                by (nonlinear_arith)
                requires
                    self.total <= 0xffff_ffff_ffff_ffff,
                    0 <= p <= 100,
            {
            }
        }
        let t128: u128 = (self.total as u128 * p as u128 + 99) / 100;
        proof {
            let tt = self.total as int;
            assert(tt * p <= tt * 100) by (nonlinear_arith)
                requires
                    0 <= p <= 100,
                    0 <= tt,
            {
            }
            vstd::arithmetic::div_mod::lemma_div_is_ordered(tt * p + 99, tt * 100 + 99, 100);
            vstd::arithmetic::div_mod::lemma_fundamental_div_mod_converse_div(
                tt * 100 + 99,
                100,
                tt,
                99,
            );
        }
        let t: u64 = if t128 < 1 {
            1
        } else {
            t128 as u64
        };
        let ghost target = rank_target(self.total as int, p as int);
        assert(t == target);
        let mut i: usize = 0;
        let mut rem: u64 = t;
        while self.counts[i] < rem
            invariant
                self.wf(),
                0 <= i < NUM_BUCKETS,
                1 <= rem,
                counts_from(self.counts@, i as int) >= rem,
                scan_rank(self.counts@, 0, target) == scan_rank(self.counts@, i as int, rem as int),
            decreases NUM_BUCKETS - i,
        {
            rem = rem - self.counts[i];
            i = i + 1;
            proof {
                if i == NUM_BUCKETS {
                    assert(counts_from(self.counts@, i as int) == 0);
                    assert(false);
                }
            }
        }
        proof {
            assert(i < NUM_BUCKETS);
            assert(scan_rank(self.counts@, i as int, rem as int) == i);
        }
        bucket_high_value(i)
    }

    /// The sum of the squares of the recorded (clipped) values, in squared
    /// microseconds; readers derive the standard deviation from it.
    pub fn sum_of_squares(&self) -> (r: u128)
        requires
            self.wf(),
        ensures
            r == sum_sq_seq(self.values@),
    {
        self.sum_sq
    }
}

/// Bucket bounds grow with the bucket index.
pub proof fn lemma_bucket_bounds_monotone(i: int, j: int)
    requires
        0 <= i <= j,
    ensures
        bucket_high(i) <= bucket_high(j),
        bucket_low(i) <= bucket_low(j),
{
    if i < j {
        lemma_bucket_chain(i, j);
    }
}

/// The rank scan stops no earlier than where it starts.
proof fn lemma_scan_rank_ge(c: Seq<u64>, i: int, r: int)
    requires
        0 <= i <= c.len(),
    ensures
        i <= scan_rank(c, i, r) <= c.len(),
    decreases c.len() - i,
{
    if i < c.len() && c[i] < r {
        lemma_scan_rank_ge(c, i + 1, r - c[i]);
    }
}

/// A larger rank stops the scan no earlier.
proof fn lemma_scan_rank_monotone(c: Seq<u64>, i: int, r1: int, r2: int)
    requires
        0 <= i <= c.len(),
        1 <= r1 <= r2,
    ensures
        scan_rank(c, i, r1) <= scan_rank(c, i, r2),
    decreases c.len() - i,
{
    if i >= c.len() {
    } else if c[i] >= r2 {
    } else if c[i] >= r1 {
        lemma_scan_rank_ge(c, i + 1, r2 - c[i]);
    } else {
        lemma_scan_rank_monotone(c, i + 1, r1 - c[i], r2 - c[i]);
    }
}

/// A higher percentile reads a value no smaller: the percentile query is
/// monotone in its argument.
pub proof fn lemma_percentile_monotone(h: &Histogram, p1: int, p2: int)
    requires
        h.wf(),
        0 <= p1 <= p2,
    ensures
        h.spec_percentile(p1) <= h.spec_percentile(p2),
{
    if h.total == 0 {
    } else {
        let tt = h.total as int;
        let c = h.counts@;
        let t1 = rank_target(tt, p1);
        let t2 = rank_target(tt, p2);
        assert(tt * p1 <= tt * p2) by (nonlinear_arith)
            requires
                0 <= p1 <= p2,
                0 <= tt,
        {
        }
        vstd::arithmetic::div_mod::lemma_div_is_ordered(tt * p1 + 99, tt * p2 + 99, 100);
        assert(1 <= t1 <= t2);
        lemma_scan_rank_monotone(c, 0, t1, t2);
        lemma_scan_rank_ge(c, 0, t1);
        lemma_bucket_bounds_monotone(scan_rank(c, 0, t1), scan_rank(c, 0, t2));
    }
}

/// The reported order of the aggregate statistics: the minimum is at most
/// the mean, the mean at most the maximum, and percentile values grow with
/// the percentile.
pub proof fn lemma_histogram_order(h: &Histogram)
    requires
        h.wf(),
    ensures
        h.spec_min() <= h.spec_mean(),
        h.spec_mean() <= h.spec_max(),
        h.spec_percentile(50) <= h.spec_percentile(75),
        h.spec_percentile(75) <= h.spec_percentile(90),
        h.spec_percentile(90) <= h.spec_percentile(95),
        h.spec_percentile(95) <= h.spec_percentile(99),
{
    lemma_percentile_monotone(h, 50, 75);
    lemma_percentile_monotone(h, 75, 90);
    lemma_percentile_monotone(h, 90, 95);
    lemma_percentile_monotone(h, 95, 99);
    if h.total == 0 {
    } else {
        let c = h.counts@;
        let vs = h.values@;
        let n = vs.len() as int;
        lemma_first_nonempty_props(c, 0);
        let f = first_nonempty(c, 0);
        lemma_last_nonempty_props(c, NUM_BUCKETS as int, f);
        let l = last_nonempty(c, NUM_BUCKETS as int);
        let lo = bucket_low(f);
        let hi = bucket_high(l);
        assert forall|k: int| 0 <= k < vs.len() implies lo <= #[trigger] vs[k] <= hi by {
            let b = bucket_of(vs[k] as nat);
            lemma_count_bucket_mem(vs, k);
            lemma_bucket_of_bound(vs[k] as nat);
            assert(c[b] > 0);
            lemma_first_nonempty_le(c, 0, b);
            assert(b <= l);
            lemma_bucket_contains(vs[k] as nat);
            lemma_bucket_bounds_monotone(f, b);
            lemma_bucket_bounds_monotone(b, l);
        }
        lemma_sum_seq_bounds(vs, lo, hi);
        let sum = sum_seq(vs);
        vstd::arithmetic::div_mod::lemma_div_is_ordered(n * lo, sum, n);
        vstd::arithmetic::div_mod::lemma_div_is_ordered(sum, n * hi, n);
        vstd::arithmetic::div_mod::lemma_div_multiples_vanish(lo, n);
        vstd::arithmetic::div_mod::lemma_div_multiples_vanish(hi, n);
        assert(n * lo == lo * n && n * hi == hi * n) by (nonlinear_arith);
    }
}

/// All-zero counters sum to zero.
proof fn lemma_counts_from_zero(c: Seq<u64>, i: int)
    requires
        0 <= i <= c.len(),
        forall|b: int| 0 <= b < c.len() ==> #[trigger] c[b] == 0,
    ensures
        counts_from(c, i) == 0,
    decreases c.len() - i,
{
    if i < c.len() {
        lemma_counts_from_zero(c, i + 1);
    }
}

/// The largest value of bucket `i`.
fn bucket_high_value(i: usize) -> (r: u64)
    requires
        i < NUM_BUCKETS,
    ensures
        r == bucket_high(i as int),
{
    if i < 2048 {
        i as u64
    } else {
        let s: u64 = ((i as u64 - 2048) / 1024) + 1;
        let r: u64 = 1024 + (i as u64 - 2048) % 1024;
        proof {
            lemma_split_ranges(i as int);
            lemma2_to64();
            lemma_pow2_pos(s as nat);
            assert(1 <= (r + 1) * pow2(s as nat) <= 2049 * pow2(22)) by (nonlinear_arith)
                requires
                    1 <= r <= 2048,
                    1 <= pow2(s as nat) <= pow2(22),
            {
            }
        }
        let p = pow2_u64(s);
        (r + 1) * p - 1
    }
}

} // verus!
