//! Latency histogram with logarithmic octaves split into 16 linear sub-buckets.
use vstd::prelude::*;
use vstd::arithmetic::power2::{pow2, lemma2_to64, lemma_pow2_adds, lemma_pow2_pos, lemma_pow2_unfold};
use vstd::bits::{lemma_u64_shl_is_mul, lemma_u64_shr_is_div, lemma_u64_pow2_no_overflow};
use vstd::std_specs::bits::u64_leading_zeros;

verus! {

/// Number of buckets of the histogram.
pub const NUM_BUCKETS: usize = 544;

/// Index of the highest set bit of `n` (0 for `n <= 1`).
pub open spec fn msb(n: nat) -> nat
    decreases n,
{
    if n <= 1 {
        0
    } else {
        1 + msb(n / 2)
    }
}

/// Bucket of a latency: values below 16 have a bucket each; above, each octave
/// `[2^k, 2^(k+1))` is cut into 16 equal sub-buckets, and everything from the last
/// bucket on is gathered in bucket 543.
pub open spec fn bucket_of(n: u64) -> nat {
    if n < 16 {
        n as nat
    } else {
        let k = msb(n as nat);
        let idx = 16 * (k - 4) + n as nat / pow2((k - 4) as nat);
        if idx < 543 {
            idx as nat
        } else {
            543
        }
    }
}

/// Value reported for a bucket: the bucket itself below 16, else the midpoint of the
/// sub-bucket interval `[2^k + s * 2^(k-4), 2^k + (s + 1) * 2^(k-4))`.
pub open spec fn bucket_value(b: nat) -> nat {
    if b < 16 {
        b
    } else {
        let k = ((b - 16) / 16 + 4) as nat;
        let step = pow2((k - 4) as nat);
        pow2(k) + ((b - 16) % 16) as nat * step + step / 2
    }
}

/// Sum of the counts in `s`.
pub open spec fn total(s: Seq<u32>) -> int
    decreases s.len(),
{
    if s.len() == 0 {
        0
    } else {
        total(s.drop_last()) + s.last()
    }
}

/// The cumulative count of the buckets up to and including `i` reaches `target`.
pub open spec fn reaches(s: Seq<u32>, target: u64, i: int) -> bool {
    total(s.take(i + 1)) >= target
}

/// The first bucket whose cumulative count reaches `target`, if there is one.
pub open spec fn first_reaching(s: Seq<u32>, target: u64) -> Option<int> {
    if exists|i: int| 0 <= i < s.len() && reaches(s, target, i) {
        Some(
            choose|i: int|
                0 <= i < s.len() && reaches(s, target, i) && forall|j: int|
                    0 <= j < i ==> !reaches(s, target, j),
        )
    } else {
        None
    }
}

/// Smallest integer not below `count * p / 100`.
pub open spec fn percentile_target(count: u64, p: u64) -> int {
    (count * p + 99) / 100
}

/// No bucket has reached the largest count it can hold.
pub open spec fn unsaturated(s: Seq<u32>) -> bool {
    forall|i: int| 0 <= i < s.len() ==> #[trigger] s[i] < u32::MAX
}

pub proof fn lemma_total_update(s: Seq<u32>, i: int, v: u32)
    requires
        0 <= i < s.len(),
    ensures
        total(s.update(i, v)) == total(s) - s[i] + v,
    decreases s.len(),
{
    if i == s.len() - 1 {
        assert(s.update(i, v).drop_last() =~= s.drop_last());
    } else {
        lemma_total_update(s.drop_last(), i, v);
        assert(s.update(i, v).drop_last() =~= s.drop_last().update(i, v));
    }
}

proof fn lemma_total_zeros(n: nat)
    ensures
        total(Seq::new(n, |i: int| 0u32)) == 0,
    decreases n,
{
    if n > 0 {
        assert(Seq::new(n, |i: int| 0u32).drop_last() =~= Seq::new((n - 1) as nat, |i: int| 0u32));
        lemma_total_zeros((n - 1) as nat);
    }
}

#[derive(Debug, Clone)]
pub struct LatencyHistogram {
    buckets: [u32; 544],
    count: u64,
    min_ns: u64,
    max_ns: u64,
    sum_ns: u128,
}

/// The integer figures of a histogram: count, extremes, mean and three percentiles.
#[derive(Debug, Clone, Copy, PartialEq, Eq)]
pub struct LatencySummary {
    pub total_orders: u64,
    pub min_ns: u64,
    pub avg_ns: u64,
    pub p50_ns: u64,
    pub p95_ns: u64,
    pub p99_ns: u64,
    pub max_ns: u64,
}

pub proof fn lemma_msb_bounds(n: nat)
    requires
        n >= 1,
    ensures
        pow2(msb(n)) <= n < pow2(msb(n) + 1),
    decreases n,
{
    lemma_pow2_unfold(msb(n) + 1);
    if n == 1 {
        lemma_pow2_unfold(1);
        lemma2_to64();
    } else {
        lemma_msb_bounds(n / 2);
        lemma_pow2_unfold(msb(n));
    }
}

proof fn lemma_leading_zeros_msb(n: u64)
    requires
        n >= 1,
    ensures
        u64_leading_zeros(n) == 63 - msb(n as nat),
    decreases n,
{
    reveal(u64_leading_zeros);
    if n == 1 {
        assert(u64_leading_zeros(0) == 64);
    } else {
        lemma_leading_zeros_msb(n / 2);
    }
}

pub proof fn lemma_msb_le(n: u64)
    requires
        n >= 1,
    ensures
        msb(n as nat) < 64,
{
    lemma_msb_bounds(n as nat);
    vstd::arithmetic::power2::lemma2_to64_rest();
    if msb(n as nat) > 64 {
        vstd::arithmetic::power2::lemma_pow2_strictly_increases(64, msb(n as nat));
    }
}

impl LatencyHistogram {
    pub closed spec fn buckets_view(&self) -> Seq<u32> {
        self.buckets@
    }

    pub closed spec fn count_view(&self) -> u64 {
        self.count
    }

    pub closed spec fn min_view(&self) -> u64 {
        self.min_ns
    }

    pub closed spec fn max_view(&self) -> u64 {
        self.max_ns
    }

    pub closed spec fn sum_view(&self) -> u128 {
        self.sum_ns
    }

    /// The sum of the recorded values never exceeds `count * u64::MAX`, and the
    /// buckets hold every sample counted as long as none of them has saturated.
    pub open spec fn wf(&self) -> bool {
        &&& self.buckets_view().len() == 544
        &&& self.sum_view() <= self.count_view() * (u64::MAX as int)
        &&& total(self.buckets_view()) <= self.count_view()
        &&& unsaturated(self.buckets_view()) ==> total(self.buckets_view()) == self.count_view()
    }

    pub fn new() -> (r: Self)
        ensures
            r.wf(),
            r.buckets_view() == Seq::new(544, |i: int| 0u32),
            r.count_view() == 0,
            r.min_view() == u64::MAX,
            r.max_view() == 0,
            r.sum_view() == 0,
    {
        let r = LatencyHistogram {
            buckets: [0u32; 544],
            count: 0,
            min_ns: u64::MAX,
            max_ns: 0,
            sum_ns: 0,
        };
        assert(r.buckets@ =~= Seq::new(544, |i: int| 0u32));
        proof {
            lemma_total_zeros(544);
        }
        r
    }

    /// Bucket index of a latency in nanoseconds.
    pub fn value_to_bucket(nanos: u64) -> (r: usize)
        ensures
            r == bucket_of(nanos),
            r < 544,
    {
        if nanos < 16 {
            return nanos as usize;
        }
        let leading = nanos.leading_zeros() as usize;
        proof {
            lemma_leading_zeros_msb(nanos);
            lemma_octave(nanos);
        }
        let k = 63 - leading;
        let shift = (k - 4) as u64;
        let q = nanos >> shift;
        proof {
            lemma_u64_shr_is_div(nanos, shift);
        }
        assert(16 <= q < 32 ==> q & 0x0F == q - 16) by (bit_vector);
        let sub_bucket = (q & 0x0F) as usize;
        let octave = k - 4;
        let idx = 16 + (octave * 16) + sub_bucket;
        if idx < 543 {
            idx
        } else {
            543
        }
    }

    /// Representative value of a bucket: the midpoint of its interval.
    pub fn bucket_to_value(bucket: usize) -> (r: u64)
        requires
            bucket < 544,
        ensures
            r == bucket_value(bucket as nat),
    {
        if bucket < 16 {
            return bucket as u64;
        }
        let octave = (bucket - 16) / 16;
        let sub_bucket = (bucket - 16) % 16;
        let k = octave + 4;
        proof {
            lemma_u64_pow2_no_overflow(k as nat);
            lemma_u64_pow2_no_overflow((k - 4) as nat);
            lemma_u64_pow2_no_overflow(37);
            lemma_pow2_adds((k - 4) as nat, 4);
            lemma2_to64();
            if k < 36 {
                vstd::arithmetic::power2::lemma_pow2_strictly_increases(k as nat, 36);
            }
            lemma_pow2_unfold(37);
            lemma_u64_shl_is_mul(1u64, k as u64);
            lemma_u64_shl_is_mul(1u64, (k - 4) as u64);
        }
        let base = 1u64 << (k as u64);
        let step = 1u64 << ((k - 4) as u64);
        proof {
            assert(sub_bucket as int * step <= 15 * step) by (nonlinear_arith)
                requires
                    sub_bucket < 16,
            ;
            assert(base == 16 * step);
        }
        base + (sub_bucket as u64 * step) + (step / 2)
    }

    /// Adds one latency sample.
    pub fn record(&mut self, nanos: u64)
        requires
            old(self).wf(),
            old(self).count_view() < u64::MAX,
        ensures
            final(self).wf(),
            final(self).count_view() == old(self).count_view() + 1,
            final(self).sum_view() == old(self).sum_view() + nanos,
            final(self).min_view() == (if nanos < old(self).min_view() {
                nanos
            } else {
                old(self).min_view()
            }),
            final(self).max_view() == (if nanos > old(self).max_view() {
                nanos
            } else {
                old(self).max_view()
            }),
            final(self).buckets_view() == old(self).buckets_view().update(
                bucket_of(nanos) as int,
                (if old(self).buckets_view()[bucket_of(nanos) as int] == u32::MAX {
                    u32::MAX
                } else {
                    (old(self).buckets_view()[bucket_of(nanos) as int] + 1) as u32
                }),
            ),
    {
        proof {
            assert(self.count * (u64::MAX as int) <= (u64::MAX as int) * (u64::MAX as int))
                by (nonlinear_arith)
                requires
                    self.count < u64::MAX,
            ;
        }
        self.count = self.count + 1;
        self.sum_ns = self.sum_ns + nanos as u128;
        if nanos < self.min_ns {
            self.min_ns = nanos;
        }
        if nanos > self.max_ns {
            self.max_ns = nanos;
        }
        let bucket = Self::value_to_bucket(nanos);
        let ghost before = self.buckets@;
        self.buckets[bucket] = self.buckets[bucket].saturating_add(1);
        proof {
            lemma_total_update(before, bucket as int, self.buckets@[bucket as int]);
            assert(self.buckets@ =~= before.update(bucket as int, self.buckets@[bucket as int]));
            if unsaturated(self.buckets@) {
                assert(self.buckets@[bucket as int] < u32::MAX);
                assert forall|i: int| 0 <= i < before.len() implies #[trigger] before[i] < u32::MAX by {
                    if i != bucket {
                        assert(self.buckets@[i] == before[i]);
                    }
                }
            }
        }
        assert(self.buckets@ =~= old(self).buckets@.update(
            bucket as int,
            (if old(self).buckets@[bucket as int] == u32::MAX {
                u32::MAX
            } else {
                (old(self).buckets@[bucket as int] + 1) as u32
            }),
        ));
    }

    /// Value of the first bucket whose cumulative count reaches `target`, or the
    /// largest recorded value when no bucket does; 0 for an empty histogram.
    pub fn percentile_for_target(&self, target: u64) -> (r: u64)
        requires
            self.wf(),
        ensures
            r == (if self.count_view() == 0 {
                0
            } else {
                match first_reaching(self.buckets_view(), target) {
                    Some(i) => bucket_value(i as nat) as u64,
                    None => self.max_view(),
                }
            }),
    {
        if self.count == 0 {
            return 0;
        }
        let ghost s = self.buckets@;
        let mut accumulated: u64 = 0;
        let mut bucket: usize = 0;
        while bucket < 544
            invariant
                s == self.buckets@,
                s.len() == 544,
                self.count != 0,
                0 <= bucket <= 544,
                accumulated == total(s.take(bucket as int)),
                accumulated <= bucket * (u32::MAX as int),
                forall|j: int| 0 <= j < bucket ==> !reaches(s, target, j),
            decreases 544 - bucket,
        {
            assert(s.take(bucket + 1).drop_last() =~= s.take(bucket as int));
            accumulated = accumulated + self.buckets[bucket] as u64;
            if accumulated >= target {
                proof {
                    assert(reaches(s, target, bucket as int));
                    let c = choose|i: int|
                        0 <= i < s.len() && reaches(s, target, i) && forall|j: int|
                            0 <= j < i ==> !reaches(s, target, j);
                    assert(0 <= c < s.len() && reaches(s, target, c) && forall|j: int|
                        0 <= j < c ==> !reaches(s, target, j));
                    assert(c == bucket);
                    assert(first_reaching(s, target) == Some(bucket as int));
                }
                let v = Self::bucket_to_value(bucket);
                assert(self.count_view() != 0);
                assert(first_reaching(self.buckets_view(), target) == Some(bucket as int));
                assert(v == bucket_value(bucket as nat) as u64);
                return v;
            }
            bucket = bucket + 1;
        }
        assert(!exists|i: int| 0 <= i < s.len() && reaches(s, target, i));
        self.max_ns
    }

    /// The `p`-th percentile (`p` in whole percent) of the recorded values, reported
    /// as a bucket value.
    pub fn percentile_percent(&self, p: u64) -> (r: u64)
        requires
            self.wf(),
            p <= 100,
        ensures
            r == (if self.count_view() == 0 {
                0
            } else {
                match first_reaching(
                    self.buckets_view(),
                    percentile_target(self.count_view(), p) as u64,
                ) {
                    Some(i) => bucket_value(i as nat) as u64,
                    None => self.max_view(),
                }
            }),
    {
        proof {
            assert(self.count as u128 * p as u128 <= 100 * (u64::MAX as int)) by (nonlinear_arith)
                requires
                    p <= 100,
            ;
        }
        let prod = self.count as u128 * p as u128 + 99;
        proof {
            assert(prod / 100 <= u64::MAX) by (nonlinear_arith)
                requires
                    prod == self.count * p + 99,
                    p <= 100,
                    self.count <= u64::MAX,
            ;
        }
        let target = (prod / 100) as u64;
        self.percentile_for_target(target)
    }

    /// Count, extremes, mean (rounded down) and the 50th, 95th and 99th percentiles;
    /// all zero for an empty histogram.
    #[verifier::spinoff_prover]
    pub fn summary(&self) -> (r: LatencySummary)
        requires
            self.wf(),
        ensures
            self.count_view() == 0 ==> r == (LatencySummary {
                total_orders: 0,
                min_ns: 0,
                avg_ns: 0,
                p50_ns: 0,
                p95_ns: 0,
                p99_ns: 0,
                max_ns: 0,
            }),
            self.count_view() > 0 ==> {
                &&& r.total_orders == self.count_view()
                &&& r.min_ns == (if self.min_view() == u64::MAX {
                    0
                } else {
                    self.min_view()
                })
                &&& r.avg_ns == self.sum_view() / (self.count_view() as u128)
                &&& r.max_ns == self.max_view()
                &&& r.p50_ns == percentile_spec(*self, 50)
                &&& r.p95_ns == percentile_spec(*self, 95)
                &&& r.p99_ns == percentile_spec(*self, 99)
            },
    {
        if self.count == 0 {
            return LatencySummary {
                total_orders: 0,
                min_ns: 0,
                avg_ns: 0,
                p50_ns: 0,
                p95_ns: 0,
                p99_ns: 0,
                max_ns: 0,
            };
        }
        proof {
            assert(self.sum_ns / (self.count as u128) <= u64::MAX) by (nonlinear_arith)
                requires
                    self.sum_ns <= self.count * (u64::MAX as int),
                    self.count > 0,
            ;
        }
        let avg = (self.sum_ns / (self.count as u128)) as u64;
        LatencySummary {
            total_orders: self.count,
            min_ns: if self.min_ns == u64::MAX {
                0
            } else {
                self.min_ns
            },
            avg_ns: avg,
            p50_ns: self.percentile_percent(50),
            p95_ns: self.percentile_percent(95),
            p99_ns: self.percentile_percent(99),
            max_ns: self.max_ns,
        }
    }

    /// Number of samples recorded.
    pub fn count(&self) -> (r: u64)
        ensures
            r == self.count_view(),
    {
        self.count
    }

    /// Largest sample recorded (0 before the first).
    pub fn max_ns(&self) -> (r: u64)
        ensures
            r == self.max_view(),
    {
        self.max_ns
    }
}

/// What `percentile_percent` reports for a non-empty histogram.
pub open spec fn percentile_spec(h: LatencyHistogram, p: u64) -> u64 {
    match first_reaching(h.buckets_view(), percentile_target(h.count_view(), p) as u64) {
        Some(i) => bucket_value(i as nat) as u64,
        None => h.max_view(),
    }
}

impl Default for LatencyHistogram {
    fn default() -> (r: Self)
        ensures
            r.wf(),
            r.count_view() == 0,
            r.min_view() == u64::MAX,
            r.max_view() == 0,
            r.sum_view() == 0,
    {
        Self::new()
    }
}


/// For `n >= 16`: the octave of `n` is `k = msb(n)` and its quotient by the sub-bucket
/// width `2^(k-4)` lies in `16..32`.
proof fn lemma_octave(n: u64)
    requires
        n >= 16,
    ensures
        4 <= msb(n as nat) < 64,
        pow2(msb(n as nat)) == 16 * pow2((msb(n as nat) - 4) as nat),
        16 <= n as nat / pow2((msb(n as nat) - 4) as nat) < 32,
        pow2((msb(n as nat) - 4) as nat) > 0,
{
    let k = msb(n as nat);
    lemma_msb_bounds(n as nat);
    lemma_msb_le(n);
    lemma2_to64();
    if k < 4 {
        if k + 1 < 4 {
            vstd::arithmetic::power2::lemma_pow2_strictly_increases(k + 1, 4);
        }
    }
    let p = pow2((k - 4) as nat);
    lemma_pow2_adds((k - 4) as nat, 4);
    lemma_pow2_unfold(k + 1);
    lemma_pow2_pos((k - 4) as nat);
    assert(16 <= n as nat / p < 32) by (nonlinear_arith)
        requires
            p * 16 <= n,
            n < 2 * (p * 16),
            p > 0,
    ;
}

/// Buckets follow the order of values: a larger latency never lands in an earlier
/// bucket.
pub proof fn lemma_bucket_monotone(n: u64, m: u64)
    requires
        n <= m,
    ensures
        bucket_of(n) <= bucket_of(m),
{
    if n < 16 {
        if m >= 16 {
            lemma_octave(m);
        }
    } else {
        lemma_octave(n);
        lemma_octave(m);
        let kn = msb(n as nat);
        let km = msb(m as nat);
        lemma_msb_bounds(n as nat);
        lemma_msb_bounds(m as nat);
        if kn > km {
            if km + 1 < kn {
                vstd::arithmetic::power2::lemma_pow2_strictly_increases(km + 1, kn);
            }
        }
        let pn = pow2((kn - 4) as nat);
        let pm = pow2((km - 4) as nat);
        if kn == km {
            vstd::arithmetic::div_mod::lemma_div_is_ordered(n as int, m as int, pn as int);
        }
    }
}

/// The histogram's resolution: a latency of at least 16 ns that falls below the
/// overflow bucket is reported within 1/16 (6.25%) of its value.
pub proof fn lemma_bucket_resolution(n: u64)
    requires
        n >= 16,
        bucket_of(n) < 543,
    ensures
        16 * (bucket_value(bucket_of(n)) - n) <= n,
        16 * (n - bucket_value(bucket_of(n))) <= n,
{
    lemma_octave(n);
    let k = msb(n as nat);
    let p = pow2((k - 4) as nat);
    let q = n as nat / p;
    let b = bucket_of(n);
    assert(b == 16 * (k - 4) + q);
    vstd::arithmetic::div_mod::lemma_fundamental_div_mod(n as int, p as int);
    let r = n as int % p as int;
    assert(0 <= r < p) by {
        vstd::arithmetic::div_mod::lemma_mod_pos_bound(n as int, p as int);
    }
    assert((b - 16) / 16 == k - 4 && (b - 16) % 16 == q - 16) by {
        vstd::arithmetic::div_mod::lemma_fundamental_div_mod_converse(
            b - 16,
            16,
            k - 4,
            q - 16,
        );
    }
    let v = bucket_value(b);
    assert(v == 16 * p + (q - 16) * p + p / 2);
    assert(v == q * p + p / 2) by (nonlinear_arith)
        requires
            v == 16 * p + (q - 16) * p + p / 2,
    ;
    assert(n == q * p + r);
    assert(16 * p <= n);
    assert(16 * (v - n) <= n && 16 * (n - v) <= n) by (nonlinear_arith)
        requires
            v == q * p + p / 2,
            n == q * p + r,
            0 <= r < p,
            16 * p <= n,
            p > 0,
    ;
}

/// Every latency below 2^36 ns (about 68.7 s) has a bucket of its own range, before
/// the overflow bucket 543.
pub proof fn lemma_bucket_range(n: u64)
    requires
        n < 0x10_0000_0000,
    ensures
        bucket_of(n) < 543,
{
    if n >= 16 {
        lemma_octave(n);
        let k = msb(n as nat);
        lemma_msb_bounds(n as nat);
        vstd::arithmetic::power2::lemma2_to64_rest();
        if k >= 36 {
            if k > 36 {
                vstd::arithmetic::power2::lemma_pow2_strictly_increases(36, k);
            }
        }
    }
}

/// Bucket values follow bucket order.
pub proof fn lemma_bucket_value_monotone(b1: nat, b2: nat)
    requires
        b1 <= b2 < 544,
    ensures
        bucket_value(b1) <= bucket_value(b2),
{
    if b2 < 16 {
    } else {
        let k2 = ((b2 - 16) / 16 + 4) as nat;
        let p2 = pow2((k2 - 4) as nat);
        lemma_pow2_adds((k2 - 4) as nat, 4);
        lemma2_to64();
        lemma_pow2_pos((k2 - 4) as nat);
        assert(pow2(k2) >= 16) by {
            if k2 > 4 {
                vstd::arithmetic::power2::lemma_pow2_strictly_increases(4, k2);
            }
        }
        if b1 < 16 {
        } else {
            let k1 = ((b1 - 16) / 16 + 4) as nat;
            let p1 = pow2((k1 - 4) as nat);
            let s1 = ((b1 - 16) % 16) as nat;
            let s2 = ((b2 - 16) % 16) as nat;
            lemma_pow2_adds((k1 - 4) as nat, 4);
            lemma_pow2_pos((k1 - 4) as nat);
            if k1 == k2 {
                assert(s1 <= s2);
                assert(s1 * p1 <= s2 * p1) by (nonlinear_arith)
                    requires
                        s1 <= s2,
                        p1 > 0,
                ;
            } else {
                assert(k1 < k2);
                lemma_pow2_unfold(k1 + 1);
                if k1 + 1 < k2 {
                    vstd::arithmetic::power2::lemma_pow2_strictly_increases(k1 + 1, k2);
                }
                assert(s1 * p1 <= 15 * p1) by (nonlinear_arith)
                    requires
                        s1 < 16,
                        p1 > 0,
                ;
                assert(bucket_value(b1) < pow2(k1 + 1));
            }
        }
    }
}

/// Higher percentiles never report lower latencies: for `p1 <= p2 <= 100`, on a
/// non-empty histogram whose buckets have not saturated, the `p1`-th percentile is at
/// most the `p2`-th.
pub proof fn lemma_percentile_monotone(h: LatencyHistogram, p1: u64, p2: u64)
    requires
        h.wf(),
        h.count_view() > 0,
        unsaturated(h.buckets_view()),
        p1 <= p2 <= 100,
    ensures
        percentile_spec(h, p1) <= percentile_spec(h, p2),
{
    let s = h.buckets_view();
    let c = h.count_view();
    let t1 = percentile_target(c, p1);
    let t2 = percentile_target(c, p2);
    assert(t1 <= t2 <= c) by (nonlinear_arith)
        requires
            t1 == (c * p1 + 99) / 100,
            t2 == (c * p2 + 99) / 100,
            p1 <= p2 <= 100,
            c > 0,
    ;
    let u1 = t1 as u64;
    let u2 = t2 as u64;
    assert(s.take(544) =~= s);
    assert(reaches(s, u2, 543));
    assert(reaches(s, u1, 543));
    lemma_first_reaching_exists(s, u1);
    lemma_first_reaching_exists(s, u2);
    let i1 = choose|i: int| 0 <= i < s.len() && reaches(s, u1, i) && forall|j: int| 0 <= j < i ==> !reaches(s, u1, j);
    let i2 = choose|i: int| 0 <= i < s.len() && reaches(s, u2, i) && forall|j: int| 0 <= j < i ==> !reaches(s, u2, j);
    assert(first_reaching(s, u1) == Some(i1));
    assert(first_reaching(s, u2) == Some(i2));
    if i2 < i1 {
        assert(reaches(s, u1, i2));
    }
    lemma_bucket_value_monotone(i1 as nat, i2 as nat);
    lemma_bucket_value_bound(i1 as nat);
    lemma_bucket_value_bound(i2 as nat);
}

/// When some bucket reaches the target, a first such bucket exists.
proof fn lemma_first_reaching_exists(s: Seq<u32>, t: u64)
    requires
        exists|i: int| 0 <= i < s.len() && reaches(s, t, i),
    ensures
        exists|i: int| 0 <= i < s.len() && reaches(s, t, i) && forall|j: int| 0 <= j < i ==> !reaches(s, t, j),
{
    let w = choose|i: int| 0 <= i < s.len() && reaches(s, t, i);
    lemma_first_reaching_below(s, t, w);
}

proof fn lemma_first_reaching_below(s: Seq<u32>, t: u64, w: int)
    requires
        0 <= w < s.len(),
        reaches(s, t, w),
    ensures
        exists|i: int| 0 <= i < s.len() && reaches(s, t, i) && forall|j: int| 0 <= j < i ==> !reaches(s, t, j),
    decreases w,
{
    if exists|j: int| 0 <= j < w && reaches(s, t, j) {
        let j = choose|j: int| 0 <= j < w && reaches(s, t, j);
        lemma_first_reaching_below(s, t, j);
    } else {
        assert(forall|j: int| 0 <= j < w ==> !reaches(s, t, j));
    }
}

/// Every bucket value fits comfortably in `u64`.
proof fn lemma_bucket_value_bound(b: nat)
    requires
        b < 544,
    ensures
        bucket_value(b) < 0x20_0000_0000,
{
    if b >= 16 {
        let k = ((b - 16) / 16 + 4) as nat;
        let p = pow2((k - 4) as nat);
        let sb = ((b - 16) % 16) as nat;
        lemma_pow2_adds((k - 4) as nat, 4);
        lemma2_to64();
        vstd::arithmetic::power2::lemma2_to64_rest();
        lemma_pow2_pos((k - 4) as nat);
        lemma_pow2_unfold(k + 1);
        if k + 1 < 37 {
            vstd::arithmetic::power2::lemma_pow2_strictly_increases(k + 1, 37);
        }
        assert(sb * p <= 15 * p) by (nonlinear_arith)
            requires
                sb < 16,
                p > 0,
        ;
    }
}

/// The percentile target is the ceiling of `count * p / 100`: the fewest samples that
/// make up at least `p` percent of `count`, one fewer falling short.
pub proof fn lemma_percentile_target_ceiling(count: u64, p: u64)
    ensures
        percentile_target(count, p) * 100 >= count * p,
        (percentile_target(count, p) - 1) * 100 < count * p,
{
    let t = percentile_target(count, p);
    assert(t * 100 >= count * p && (t - 1) * 100 < count * p) by (nonlinear_arith)
        requires
            t == (count * p + 99) / 100,
            count * p >= 0,
    ;
}

/// The `p`-th percentile (for `p > 0`) of a histogram holding samples is the value of a
/// bucket that holds at least one sample: the first bucket at which the samples up to
/// and including it make up at least `p` percent of all samples, those before it
/// falling short.
pub proof fn lemma_percentile_bucket(h: LatencyHistogram, p: u64)
    requires
        h.wf(),
        h.count_view() > 0,
        unsaturated(h.buckets_view()),
        0 < p <= 100,
    ensures
        exists|i: int|
            0 <= i < 544 && #[trigger] h.buckets_view()[i] > 0 && total(h.buckets_view().take(i + 1)) * 100
                >= h.count_view() * p && total(h.buckets_view().take(i)) * 100 < h.count_view() * p
                && percentile_spec(h, p) == bucket_value(i as nat),
{
    let s = h.buckets_view();
    let c = h.count_view();
    let t = percentile_target(c, p);
    lemma_percentile_target_ceiling(c, p);
    assert(1 <= t <= c) by (nonlinear_arith)
        requires
            t == (c * p + 99) / 100,
            0 < p <= 100,
            c > 0,
    ;
    let u = t as u64;
    assert(s.take(544) =~= s);
    assert(reaches(s, u, 543));
    lemma_first_reaching_exists(s, u);
    let i = choose|i: int| 0 <= i < s.len() && reaches(s, u, i) && forall|j: int| 0 <= j < i ==> !reaches(s, u, j);
    assert(first_reaching(s, u) == Some(i));
    assert(s.take(i + 1).drop_last() =~= s.take(i));
    if i > 0 {
        assert(!reaches(s, u, i - 1));
    } else {
        assert(s.take(0) =~= Seq::<u32>::empty());
    }
    assert(total(s.take(i)) < t);
    assert(total(s.take(i + 1)) == total(s.take(i)) + s[i]);
    lemma_bucket_value_bound(i as nat);
    assert(total(s.take(i + 1)) * 100 >= c * p) by (nonlinear_arith)
        requires
            total(s.take(i + 1)) >= t,
            t * 100 >= c * p,
    ;
    assert(total(s.take(i)) * 100 < c * p) by (nonlinear_arith)
        requires
            total(s.take(i)) <= t - 1,
            (t - 1) * 100 < c * p,
    ;
    assert(s[i] > 0);
}

/// Latencies below 16 ns are kept exactly: each lands in a bucket of its own whose
/// reported value is the latency itself.
pub proof fn lemma_small_latencies_exact(n: u64)
    ensures
        n < 16 ==> bucket_value(bucket_of(n)) == n,
        n < 16 ==> bucket_of(n) == n,
{
}
} // verus!
