//! The counters of a run and the rules by which they move.

use vstd::prelude::*;

verus! {

/// The counters of one run, as a reporter reads them.
#[derive(Debug, Clone, Copy, PartialEq, Eq, Structural)]
pub struct Stats {
    /// Requests that have finished with a body.
    pub downloaded: u64,
    /// Results that have been written.
    pub written_to_file: u64,
    /// Requests that are under way.
    pub in_route: u64,
    /// Finished requests that the server's cache answered.
    pub cache_hits: u64,
    /// The running mean of the time a request took, in milliseconds.
    pub avg_time_ms: u64,
}

/// The running mean after the `completed`-th request took `elapsed_ms`, from
/// the mean `prev` of those before it, rounded down.
pub open spec fn spec_updated_average(prev: u64, completed: u64, elapsed_ms: u64) -> int {
    (prev * (completed - 1) + elapsed_ms) / (completed as int)
}

/// One more than `x`, from the largest value on to zero.
pub open spec fn spec_bump(x: u64) -> u64 {
    if x == u64::MAX {
        0
    } else {
        (x + 1) as u64
    }
}

/// One less than `x`, from zero on to the largest value.
pub open spec fn spec_drop(x: u64) -> u64 {
    if x == 0 {
        u64::MAX
    } else {
        (x - 1) as u64
    }
}

/// The mean stays between the smaller and the larger of the old mean and the
/// new time, so it fits the type.
pub proof fn lemma_average_bounds(prev: u64, completed: u64, elapsed_ms: u64)
    requires
        completed >= 1,
    ensures
        spec_updated_average(prev, completed, elapsed_ms) >= 0,
        prev <= elapsed_ms ==> prev <= spec_updated_average(prev, completed, elapsed_ms)
            <= elapsed_ms,
        elapsed_ms <= prev ==> elapsed_ms <= spec_updated_average(prev, completed, elapsed_ms)
            <= prev,
{
    let n = completed as int;
    let p = prev as int;
    let e = elapsed_ms as int;
    let total = p * (n - 1) + e;
    assert(total >= 0) by (nonlinear_arith)
        requires
            total == p * (n - 1) + e,
            n >= 1,
            p >= 0,
            e >= 0,
    ;
    if p <= e {
        assert(p * n <= total <= e * n) by (nonlinear_arith)
            requires
                total == p * (n - 1) + e,
                n >= 1,
                0 <= p <= e,
        ;
        assert(p <= total / n <= e) by (nonlinear_arith)
            requires
                p * n <= total <= e * n,
                n >= 1,
        ;
    } else {
        assert(e * n <= total <= p * n) by (nonlinear_arith)
            requires
                total == p * (n - 1) + e,
                n >= 1,
                0 <= e <= p,
        ;
        assert(e <= total / n <= p) by (nonlinear_arith)
            requires
                e * n <= total <= p * n,
                n >= 1,
        ;
    }
}

/// The running mean after the `completed`-th request took `elapsed_ms`.
pub fn updated_average(prev: u64, completed: u64, elapsed_ms: u64) -> (avg: u64)
    requires
        completed >= 1,
    ensures
        avg == spec_updated_average(prev, completed, elapsed_ms),
{
    proof {
        lemma_average_bounds(prev, completed, elapsed_ms);
        assert(prev * (completed - 1) <= u64::MAX * u64::MAX) by (nonlinear_arith)
            requires
                prev <= u64::MAX,
                0 <= completed - 1 <= u64::MAX,
        ;
    }
    let total: u128 = (prev as u128) * ((completed - 1) as u128) + (elapsed_ms as u128);
    (total / (completed as u128)) as u64
}

impl Stats {
    /// All counters at zero.
    pub fn new() -> (s: Stats)
        ensures
            s == (Stats {
                downloaded: 0,
                written_to_file: 0,
                in_route: 0,
                cache_hits: 0,
                avg_time_ms: 0,
            }),
    {
        Stats { downloaded: 0, written_to_file: 0, in_route: 0, cache_hits: 0, avg_time_ms: 0 }
    }

    /// A request sets out.
    pub fn request_started(&mut self)
        ensures
            *final(self) == (Stats { in_route: spec_bump(old(self).in_route), ..*old(self) }),
    {
        self.in_route = self.in_route.wrapping_add(1);
    }

    /// A request has come back with its body after `elapsed_ms`.
    pub fn request_finished(&mut self, elapsed_ms: u64, cache_hit: bool)
        requires
            old(self).downloaded < u64::MAX,
        ensures
            *final(self) == (Stats {
                downloaded: (old(self).downloaded + 1) as u64,
                in_route: spec_drop(old(self).in_route),
                cache_hits: if cache_hit {
                    spec_bump(old(self).cache_hits)
                } else {
                    old(self).cache_hits
                },
                avg_time_ms: spec_updated_average(
                    old(self).avg_time_ms,
                    (old(self).downloaded + 1) as u64,
                    elapsed_ms,
                ) as u64,
                ..*old(self)
            }),
    {
        let completed: u64 = self.downloaded + 1;
        self.avg_time_ms = updated_average(self.avg_time_ms, completed, elapsed_ms);
        self.in_route = self.in_route.wrapping_sub(1);
        self.downloaded = completed;
        if cache_hit {
            self.cache_hits = self.cache_hits.wrapping_add(1);
        }
    }

    /// A request has failed for good. A cache hit that its last response
    /// signalled still counts.
    pub fn request_failed(&mut self, cache_hit: bool)
        ensures
            *final(self) == (Stats {
                in_route: spec_drop(old(self).in_route),
                cache_hits: if cache_hit {
                    spec_bump(old(self).cache_hits)
                } else {
                    old(self).cache_hits
                },
                ..*old(self)
            }),
    {
        self.in_route = self.in_route.wrapping_sub(1);
        if cache_hit {
            self.cache_hits = self.cache_hits.wrapping_add(1);
        }
    }

    /// One result has been written.
    pub fn entry_written(&mut self)
        ensures
            *final(self) == (Stats {
                written_to_file: spec_bump(old(self).written_to_file),
                ..*old(self)
            }),
    {
        self.written_to_file = self.written_to_file.wrapping_add(1);
    }
}

/// A share in millionths of a percent, rounded down; zero of nothing is zero.
pub open spec fn spec_pct_millionths(numerator: u64, denominator: u64) -> int {
    if denominator == 0 {
        0
    } else {
        numerator * 100_000_000 / (denominator as int)
    }
}

/// The share `numerator` of `denominator` in millionths of a percent.
pub fn get_pct(numerator: u64, denominator: u64) -> (r: u128)
    ensures
        r == spec_pct_millionths(numerator, denominator),
{
    if denominator == 0 {
        return 0;
    }
    (numerator as u128) * 100_000_000 / (denominator as u128)
}

} // verus!
