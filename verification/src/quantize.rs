//! Quantizer: maps a vector of raw sensor readings into a discrete state key.
//!
//! Ambient-light readings span several decades of lux, so they are bucketed on
//! a logarithmic scale: bucket index `floor(log(1 + value) / log(1 + max) *
//! count)`, clamped to `[0, count - 1]`.  Because `b <= count * log(1 + v) /
//! log(1 + max) < b + 1` holds exactly when `pow(1 + max, b) <= pow(1 + v,
//! count) < pow(1 + max, b + 1)`, the bucket is characterized here purely over
//! integer powers, with no real arithmetic.  Screen-content luminance is
//! already normalized, so it uses linear buckets of equal width.

use vstd::arithmetic::power::{lemma_pow0, lemma_pow_increases, lemma_pow_positive, pow};
use vstd::prelude::*;

verus! {

/// How a signal's raw value is spread over its buckets.
#[derive(Clone, Copy, Debug)]
pub enum Scale {
    /// Log-scale buckets: equal ratios of `1 + value` per bucket (ambient lux).
    Logarithmic,
    /// Equal-width buckets (normalized screen-content luminance).
    Linear,
}

/// One sensed signal value together with the top of its valid range.
#[derive(Clone, Copy, Debug)]
pub struct Reading {
    /// The raw value; values above `max` are treated as `max`.
    pub value: u64,
    /// The top of the signal's valid range, at least 1.
    pub max: u64,
    /// The bucket scale this signal uses.
    pub scale: Scale,
}

/// `v` clamped from above to `max`.
pub open spec fn clamped(v: int, max: int) -> int {
    if v > max {
        max
    } else {
        v
    }
}

/// Bucket index for a linear-scale signal: equal-width buckets over
/// `[0, max]`, with everything from `max` up in the top bucket.
pub open spec fn linear_bucket(v: int, max: int, count: int) -> int {
    if v >= max {
        count - 1
    } else {
        (v * count) / max
    }
}

/// Walks the candidate log-scale buckets upward from `b`: the bucket of `v`
/// (already clamped) is the largest `b < count` with
/// `pow(1 + max, b) <= pow(1 + v, count)`.
pub open spec fn log_bucket_from(v: int, max: int, count: int, b: int) -> int
    decreases count - b,
{
    if b >= count - 1 {
        count - 1
    } else if pow(1 + v, count as nat) < pow(1 + max, (b + 1) as nat) {
        b
    } else {
        log_bucket_from(v, max, count, b + 1)
    }
}

/// Bucket index for a log-scale signal.
pub open spec fn log_bucket(v: int, max: int, count: int) -> int {
    log_bucket_from(clamped(v, max), max, count, 0)
}

/// The defining property of the log-scale bucket: `b` is in range, and `v`
/// (clamped) lies between the geometric boundaries of bucket `b`.
pub open spec fn is_log_bucket(b: int, v: int, max: int, count: int) -> bool {
    let vc = clamped(v, max);
    &&& 0 <= b < count
    &&& pow(1 + max, b as nat) <= pow(1 + vc, count as nat)
    &&& (b < count - 1 ==> pow(1 + vc, count as nat) < pow(1 + max, (b + 1) as nat))
}

/// The bucket index of one reading under its own scale.
pub open spec fn bucket_of(r: Reading, count: u32) -> int {
    match r.scale {
        Scale::Logarithmic => log_bucket(r.value as int, r.max as int, count as int),
        Scale::Linear => linear_bucket(r.value as int, r.max as int, count as int),
    }
}

/// A reading is usable with a given bucket count: the range is non-trivial,
/// there is at least one bucket, and for log-scale signals the machine can
/// hold the power table in 128 bits.
pub open spec fn reading_wf(r: Reading, count: u32) -> bool {
    &&& r.max >= 1
    &&& count >= 1
    &&& (r.scale is Logarithmic ==> pow(1 + r.max as int, count as nat) <= u128::MAX as int)
}

/// The state key produced by a vector of readings: one bucket per signal.
pub open spec fn quantize_spec(readings: Seq<Reading>, counts: Seq<u32>) -> Seq<u32> {
    Seq::new(readings.len(), |i: int| bucket_of(readings[i], counts[i]) as u32)
}

/// A discrete environmental state: one bucket index per configured signal,
/// ambient light first.  Used as the learning-table index.
#[derive(Clone, Debug)]
pub struct StateKey {
    pub buckets: Vec<u32>,
}

/// Powers of a non-negative base are non-negative (indeed positive for a
/// positive base).
proof fn lemma_pow_nonneg(b: int, e: nat)
    requires
        b >= 0,
    ensures
        pow(b, e) >= 0,
    decreases e,
{
    reveal(pow);
    if e > 0 {
        lemma_pow_nonneg(b, (e - 1) as nat);
    }
}

/// `pow` is monotone in the base for non-negative bases.
proof fn lemma_pow_base_mono(a: int, b: int, e: nat)
    requires
        0 <= a <= b,
    ensures
        pow(a, e) <= pow(b, e),
    decreases e,
{
    reveal(pow);
    if e > 0 {
        lemma_pow_base_mono(a, b, (e - 1) as nat);
        lemma_pow_nonneg(a, (e - 1) as nat);
        assert(pow(a, e) == a * pow(a, (e - 1) as nat));
        assert(pow(b, e) == b * pow(b, (e - 1) as nat));
        assert(a * pow(a, (e - 1) as nat) <= b * pow(b, (e - 1) as nat)) by (nonlinear_arith)
            requires
                0 <= a <= b,
                0 <= pow(a, (e - 1) as nat) <= pow(b, (e - 1) as nat),
        ;
    }
}

/// The recursive walk starting at a feasible `b` lands on a bucket satisfying
/// the defining property.
proof fn lemma_log_bucket_from_char(v: int, max: int, count: int, b: int)
    requires
        max >= 1,
        count >= 1,
        0 <= v <= max,
        0 <= b <= count - 1,
        pow(1 + max, b as nat) <= pow(1 + v, count as nat),
    ensures
        ({
            let r = log_bucket_from(v, max, count, b);
            &&& b <= r < count
            &&& pow(1 + max, r as nat) <= pow(1 + v, count as nat)
            &&& (r < count - 1 ==> pow(1 + v, count as nat) < pow(1 + max, (r + 1) as nat))
        }),
    decreases count - b,
{
    if b >= count - 1 {
    } else if pow(1 + v, count as nat) < pow(1 + max, (b + 1) as nat) {
    } else {
        lemma_log_bucket_from_char(v, max, count, b + 1);
    }
}

/// The log-scale bucket satisfies its defining property.
pub proof fn lemma_log_bucket_char(v: int, max: int, count: int)
    requires
        max >= 1,
        count >= 1,
        v >= 0,
    ensures
        is_log_bucket(log_bucket(v, max, count), v, max, count),
{
    let vc = clamped(v, max);
    lemma_pow_positive(1 + vc, count as nat);
    lemma_pow0(1 + max);
    lemma_log_bucket_from_char(vc, max, count, 0);
}

/// Raising the ambient-light value never lowers its log-scale bucket.
pub proof fn lemma_log_bucket_monotone(v1: int, v2: int, max: int, count: int)
    requires
        max >= 1,
        count >= 1,
        0 <= v1 <= v2,
    ensures
        log_bucket(v1, max, count) <= log_bucket(v2, max, count),
{
    let b1 = log_bucket(v1, max, count);
    let b2 = log_bucket(v2, max, count);
    let c1 = clamped(v1, max);
    let c2 = clamped(v2, max);
    lemma_log_bucket_char(v1, max, count);
    lemma_log_bucket_char(v2, max, count);
    if b1 > b2 {
        // b2 is below the top, so v2 sits under the boundary of b2 + 1,
        // which is itself no higher than the boundary b1 that v1 clears.
        lemma_pow_increases((1 + max) as nat, (b2 + 1) as nat, b1 as nat);
        lemma_pow_base_mono(1 + c1, 1 + c2, count as nat);
        assert(false);
    }
}

/// Quantizer determinism: the state key is a function of the readings and
/// bucket counts alone, so two keys produced from identical inputs are equal.
pub proof fn lemma_quantize_deterministic(
    k1: Seq<u32>,
    k2: Seq<u32>,
    readings: Seq<Reading>,
    counts: Seq<u32>,
)
    requires
        k1 == quantize_spec(readings, counts),
        k2 == quantize_spec(readings, counts),
    ensures
        k1 == k2,
{
}

/// Whether a log-scale signal with this range and bucket count is usable on
/// this machine: its power table must fit in 128 bits.  Callers outside the
/// proof check their configuration through this before quantizing.
pub fn pow_fits_u128(max: u64, count: u32) -> (r: bool)
    ensures
        r == (pow(1 + max as int, count as nat) <= u128::MAX as int),
{
    let base: u128 = max as u128 + 1;
    let mut acc: u128 = 1;
    let mut i: u32 = 0;
    proof {
        lemma_pow0(1 + max as int);
    }
    while i < count
        invariant
            i <= count,
            base == 1 + max as int,
            acc == pow(1 + max as int, i as nat),
        decreases count - i,
    {
        proof {
            assert(pow(1 + max as int, (i + 1) as nat) == (1 + max as int) * pow(
                1 + max as int,
                i as nat,
            )) by {
                vstd::arithmetic::power::lemma_pow1(1 + max as int);
                vstd::arithmetic::power::lemma_pow_adds(1 + max as int, 1, i as nat);
            }
            assert((1 + max as int) * pow(1 + max as int, i as nat) == pow(
                1 + max as int,
                i as nat,
            ) * (1 + max as int)) by (nonlinear_arith);
        }
        if acc > u128::MAX / base {
            proof {
                let b = base as int;
                let d = (u128::MAX / base) as int;
                vstd::arithmetic::div_mod::lemma_fundamental_div_mod(u128::MAX as int, b);
                assert(d == u128::MAX as int / b);
                assert((d + 1) * b > u128::MAX as int) by (nonlinear_arith)
                    requires
                        u128::MAX as int == b * d + u128::MAX as int % b,
                        0 <= u128::MAX as int % b < b,
                ;
                assert(acc as int * b >= (d + 1) * b) by (nonlinear_arith)
                    requires
                        acc as int >= d + 1,
                        b >= 1,
                ;
                lemma_pow_increases((1 + max as int) as nat, (i + 1) as nat, count as nat);
            }
            return false;
        }
        proof {
            let b = base as int;
            let d = (u128::MAX / base) as int;
            vstd::arithmetic::div_mod::lemma_fundamental_div_mod(u128::MAX as int, b);
            assert(acc as int * b <= d * b) by (nonlinear_arith)
                requires
                    acc as int <= d,
                    b >= 1,
            ;
            assert(d * b <= u128::MAX as int) by (nonlinear_arith)
                requires
                    u128::MAX as int == b * d + u128::MAX as int % b,
                    0 <= u128::MAX as int % b,
            ;
        }
        acc = acc * base;
        i = i + 1;
    }
    true
}

/// Computes `(1 + v)^count` exactly in 128 bits; fits because `v <= max` and
/// the caller guarantees `(1 + max)^count` fits.
fn pow_for_bucket(v: u64, max: u64, count: u32) -> (a: u128)
    requires
        v <= max,
        max >= 1,
        count >= 1,
        pow(1 + max as int, count as nat) <= u128::MAX as int,
    ensures
        a == pow(1 + v as int, count as nat),
{
    let base: u128 = v as u128 + 1;
    let mut a: u128 = 1;
    let mut i: u32 = 0;
    proof {
        lemma_pow0(1 + v as int);
    }
    while i < count
        invariant
            i <= count,
            v <= max,
            max >= 1,
            count >= 1,
            base == 1 + v as int,
            a == pow(1 + v as int, i as nat),
            pow(1 + max as int, count as nat) <= u128::MAX as int,
        decreases count - i,
    {
        proof {
            lemma_pow_base_mono(1 + v as int, 1 + max as int, (i + 1) as nat);
            lemma_pow_increases((1 + max as int) as nat, (i + 1) as nat, count as nat);
            lemma_pow_nonneg(1 + v as int, i as nat);
            assert(pow(1 + v as int, (i + 1) as nat) == (1 + v as int) * pow(
                1 + v as int,
                i as nat,
            )) by {
                vstd::arithmetic::power::lemma_pow1(1 + v as int);
                vstd::arithmetic::power::lemma_pow_adds(1 + v as int, 1, i as nat);
            }
            assert((1 + v as int) * pow(1 + v as int, i as nat) == pow(1 + v as int, i as nat) * (
            1 + v as int)) by (nonlinear_arith);
        }
        a = a * base;
        i = i + 1;
    }
    a
}

/// Computes the log-scale bucket of `v` by scanning the geometric boundaries
/// upward until the next one would pass `(1 + v)^count`.
fn log_bucket_exec(v: u64, max: u64, count: u32) -> (b: u32)
    requires
        max >= 1,
        count >= 1,
        pow(1 + max as int, count as nat) <= u128::MAX as int,
    ensures
        b as int == log_bucket(v as int, max as int, count as int),
        b < count,
{
    let vc: u64 = if v > max {
        max
    } else {
        v
    };
    let a = pow_for_bucket(vc, max, count);
    let base: u128 = max as u128 + 1;
    let mut b: u32 = 0;
    let mut p: u128 = 1;
    proof {
        lemma_pow_positive(1 + vc as int, count as nat);
        lemma_pow0(1 + max as int);
    }
    loop
        invariant
            0 <= b <= count - 1,
            max >= 1,
            count >= 1,
            vc == clamped(v as int, max as int),
            base == 1 + max as int,
            a == pow(1 + vc as int, count as nat),
            p == pow(1 + max as int, b as nat),
            p <= a,
            pow(1 + max as int, count as nat) <= u128::MAX as int,
            log_bucket(v as int, max as int, count as int) == log_bucket_from(
                vc as int,
                max as int,
                count as int,
                b as int,
            ),
        ensures
            0 <= b < count,
            b as int == log_bucket(v as int, max as int, count as int),
        decreases count - b,
    {
        if b >= count - 1 {
            assert(log_bucket_from(vc as int, max as int, count as int, b as int) == count - 1);
            break ;
        }
        proof {
            lemma_pow_increases((1 + max as int) as nat, (b + 1) as nat, count as nat);
            lemma_pow_nonneg(1 + max as int, b as nat);
            assert(pow(1 + max as int, (b + 1) as nat) == (1 + max as int) * pow(
                1 + max as int,
                b as nat,
            )) by {
                vstd::arithmetic::power::lemma_pow1(1 + max as int);
                vstd::arithmetic::power::lemma_pow_adds(1 + max as int, 1, b as nat);
            }
            assert((1 + max as int) * pow(1 + max as int, b as nat) == pow(
                1 + max as int,
                b as nat,
            ) * (1 + max as int)) by (nonlinear_arith);
        }
        let next: u128 = p * base;
        if a < next {
            assert(log_bucket_from(vc as int, max as int, count as int, b as int) == b as int);
            break ;
        }
        p = next;
        b = b + 1;
    }
    b
}

/// Computes the linear bucket of `v`: equal-width buckets over `[0, max]`.
fn linear_bucket_exec(v: u64, max: u64, count: u32) -> (b: u32)
    requires
        max >= 1,
        count >= 1,
    ensures
        b as int == linear_bucket(v as int, max as int, count as int),
        b < count,
{
    if v >= max {
        count - 1
    } else {
        proof {
            assert((v as int) * (count as int) <= (u64::MAX as int) * (u32::MAX as int))
                by (nonlinear_arith)
                requires
                    0 <= (v as int) <= u64::MAX as int,
                    0 <= (count as int) <= u32::MAX as int,
            ;
        }
        let scaled: u128 = (v as u128) * (count as u128) / (max as u128);
        proof {
            assert((v as int) * (count as int) / (max as int) < count as int) by (nonlinear_arith)
                requires
                    0 <= (v as int),
                    (v as int) < (max as int),
                    count as int >= 1,
            ;
            assert((v as int) * (count as int) / (max as int) >= 0) by (nonlinear_arith)
                requires
                    v as int >= 0,
                    count as int >= 0,
                    max as int >= 1,
            ;
        }
        scaled as u32
    }
}

/// Quantizes a vector of readings into a state key, one bucket per signal.
/// Deterministic: the result is exactly `quantize_spec` of the inputs.
pub fn quantize(readings: &Vec<Reading>, bucket_counts: &Vec<u32>) -> (key: StateKey)
    requires
        readings@.len() == bucket_counts@.len(),
        forall|i: int|
            0 <= i < readings@.len() ==> reading_wf(readings@[i], bucket_counts@[i]),
    ensures
        key.buckets@ == quantize_spec(readings@, bucket_counts@),
        key.buckets@.len() == readings@.len(),
{
    let mut buckets: Vec<u32> = Vec::new();
    let mut i: usize = 0;
    while i < readings.len()
        invariant
            i <= readings@.len(),
            readings@.len() == bucket_counts@.len(),
            forall|j: int|
                0 <= j < readings@.len() ==> reading_wf(readings@[j], bucket_counts@[j]),
            buckets@.len() == i,
            forall|j: int|
                0 <= j < i ==> buckets@[j] as int == bucket_of(readings@[j], bucket_counts@[j]),
        decreases readings@.len() - i,
    {
        let r = readings[i];
        let count = bucket_counts[i];
        let b: u32 = match r.scale {
            Scale::Logarithmic => log_bucket_exec(r.value, r.max, count),
            Scale::Linear => linear_bucket_exec(r.value, r.max, count),
        };
        buckets.push(b);
        i = i + 1;
    }
    proof {
        assert(buckets@ =~= quantize_spec(readings@, bucket_counts@));
    }
    StateKey { buckets }
}

} // verus!
