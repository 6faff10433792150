//! Sizing heuristics for the approximate-nearest-neighbour index: the
//! partition count grows with the square root of the row count, and the
//! probe count is a tunable share of the partitions, both clamped so that
//! small corpora keep enough recall and tiny ones waste no time.

use vstd::prelude::*;

verus! {

/// The integer square root: the largest `r` with `r * r <= n`.
pub open spec fn spec_isqrt(n: nat) -> nat
    decreases n,
{
    if n == 0 {
        0
    } else {
        let r = spec_isqrt((n - 1) as nat);
        if (r + 1) * (r + 1) <= n {
            r + 1
        } else {
            r
        }
    }
}

/// The integer square root is characterised by its two bounds.
pub proof fn lemma_isqrt_bounds(n: nat)
    ensures
        spec_isqrt(n) * spec_isqrt(n) <= n,
        n < (spec_isqrt(n) + 1) * (spec_isqrt(n) + 1),
    decreases n,
{
    let s = spec_isqrt(n);
    if n > 0 {
        lemma_isqrt_bounds((n - 1) as nat);
        let r = spec_isqrt((n - 1) as nat);
        if (r + 1) * (r + 1) <= n {
            assert(s == r + 1);
            assert(s * s <= n) by (nonlinear_arith)
                requires
                    s == r + 1,
                    (r + 1) * (r + 1) <= n,
            ;
            assert(n < (s + 1) * (s + 1)) by (nonlinear_arith)
                requires
                    s == r + 1,
                    n <= (r + 1) * (r + 1),
            ;
        } else {
            assert(s == r);
            assert(s * s <= n) by (nonlinear_arith)
                requires
                    s == r,
                    r * r <= n - 1,
                    n >= 1,
            ;
            assert(n < (s + 1) * (s + 1)) by (nonlinear_arith)
                requires
                    s == r,
                    !((r + 1) * (r + 1) <= n),
            ;
        }
    } else {
        assert(s == 0);
        assert(s * s <= n && n < (s + 1) * (s + 1)) by (nonlinear_arith)
            requires
                s == 0,
                n == 0,
        ;
    }
}

/// Any value meeting both bounds is the integer square root.
pub proof fn lemma_isqrt_unique(n: nat, r: nat)
    requires
        r * r <= n,
        n < (r + 1) * (r + 1),
    ensures
        r == spec_isqrt(n),
{
    lemma_isqrt_bounds(n);
    let s = spec_isqrt(n);
    if r < s {
        assert((r + 1) * (r + 1) <= s * s) by (nonlinear_arith)
            requires
                r + 1 <= s,
        ;
    }
    if s < r {
        assert((s + 1) * (s + 1) <= r * r) by (nonlinear_arith)
            requires
                s + 1 <= r,
        ;
    }
}

/// `sqrt(n)` rounded to the nearest integer: one more than the floor when
/// the remainder passes the midpoint.
pub open spec fn spec_round_sqrt(n: nat) -> nat {
    let r = spec_isqrt(n);
    if n <= r * r + r {
        r
    } else {
        r + 1
    }
}

/// `x` forced into `[lo, hi]`.
pub open spec fn spec_clamp(x: nat, lo: nat, hi: nat) -> nat {
    if x < lo {
        lo
    } else if x > hi {
        hi
    } else {
        x
    }
}

/// Tunable bounds for the index-sizing heuristics.
pub struct AnnParams {
    pub min_partitions: u64,
    pub max_partitions: u64,
    pub min_probes: u64,
    pub max_probes: u64,
    /// Share of the partitions probed per query, in percent.
    pub probe_percent: u64,
}

impl Default for AnnParams {
    /// The stock heuristics: partitions in `[10, 1000]`, probes in
    /// `[10, 100]`, probing ten percent of the partitions.
    fn default() -> (r: AnnParams)
        ensures
            r.min_partitions == 10 && r.max_partitions == 1000 && r.min_probes == 10
                && r.max_probes == 100 && r.probe_percent == 10,
    {
        AnnParams {
            min_partitions: 10,
            max_partitions: 1000,
            min_probes: 10,
            max_probes: 100,
            probe_percent: 10,
        }
    }
}

/// The estimated partition count for a dataset of `rows` rows.
pub open spec fn spec_partition_count(rows: nat, p: AnnParams) -> nat {
    spec_clamp(spec_round_sqrt(rows), p.min_partitions as nat, p.max_partitions as nat)
}

/// The probe count used when querying an index of `partitions` partitions.
pub open spec fn spec_probe_count(partitions: nat, p: AnnParams) -> nat {
    spec_clamp(
        ((partitions * p.probe_percent + 50) / 100) as nat,
        p.min_probes as nat,
        p.max_probes as nat,
    )
}

/// Computes the integer square root of `n`.
pub fn isqrt(n: u64) -> (r: u64)
    ensures
        r == spec_isqrt(n as nat),
{
    if n == 0 {
        proof {
            assert(spec_isqrt(0) == 0);
        }
        return 0;
    }
    let mut lo: u64 = 0;
    let mut hi: u64 = 4294967295;
    if n < hi {
        hi = n;
    }
    proof {
        assert((hi + 1) * (hi + 1) > n) by (nonlinear_arith)
            requires
                (hi == 4294967295 && n <= u64::MAX) || (hi == n && 1 <= n),
        ;
        assert(lo * lo <= n) by (nonlinear_arith)
            requires
                lo == 0,
        ;
    }
    while lo < hi
        invariant
            lo <= hi <= 4294967295,
            lo * lo <= n,
            n < (hi + 1) * (hi + 1),
        decreases hi - lo,
    {
        let mid = lo + (hi - lo + 1) / 2;
        proof {
            assert(mid * mid <= u64::MAX) by (nonlinear_arith)
                requires
                    mid <= 4294967295,
            ;
        }
        if mid * mid <= n {
            lo = mid;
        } else {
            hi = mid - 1;
        }
    }
    proof {
        lemma_isqrt_unique(n as nat, lo as nat);
    }
    lo
}

/// Computes `sqrt(n)` rounded to the nearest integer.
pub fn round_sqrt(n: u64) -> (r: u64)
    ensures
        r == spec_round_sqrt(n as nat),
{
    let s = isqrt(n);
    proof {
        lemma_isqrt_bounds(n as nat);
        assert(s <= 4294967295) by (nonlinear_arith)
            requires
                s * s <= n <= u64::MAX,
        ;
        assert(s * s + s <= u64::MAX) by (nonlinear_arith)
            requires
                s <= 4294967295,
        ;
    }
    if n <= s * s + s {
        s
    } else {
        s + 1
    }
}

/// Clamps `x` into `[lo, hi]`.
pub fn clamp_u64(x: u64, lo: u64, hi: u64) -> (r: u64)
    ensures
        r == spec_clamp(x as nat, lo as nat, hi as nat),
{
    if x < lo {
        lo
    } else if x > hi {
        hi
    } else {
        x
    }
}

/// The partition count for a dataset of `rows` rows: the rounded square
/// root, clamped into the configured band.
pub fn partition_count(rows: u64, p: &AnnParams) -> (r: u64)
    ensures
        r == spec_partition_count(rows as nat, *p),
{
    let est = round_sqrt(rows);
    clamp_u64(est, p.min_partitions, p.max_partitions)
}

/// The probe count for a query against `partitions` partitions: the
/// configured share, rounded to the nearest whole probe, clamped into the
/// configured band.
pub fn probe_count(partitions: u64, p: &AnnParams) -> (r: u64)
    ensures
        r == spec_probe_count(partitions as nat, *p),
{
    proof {
        assert((partitions as nat) * (p.probe_percent as nat) + 50 < 0x100000000000000000000000000000000)
            by (nonlinear_arith)
            requires
                partitions <= u64::MAX,
                p.probe_percent <= u64::MAX,
        ;
    }
    let scaled: u128 = (partitions as u128) * (p.probe_percent as u128) + 50;
    let est: u128 = scaled / 100;
    let est64: u64 = if est > 0xFFFF_FFFF_FFFF_FFFF {
        0xFFFF_FFFF_FFFF_FFFF
    } else {
        est as u64
    };
    if est64 < p.min_probes {
        p.min_probes
    } else if est64 > p.max_probes {
        p.max_probes
    } else {
        est64
    }
}

} // verus!
