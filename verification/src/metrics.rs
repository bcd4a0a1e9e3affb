//! How often a candidate has to go to the judge: the rate that the project
//! wants to keep low.

use vstd::prelude::*;

verus! {

/// The numbers of candidates that were processed, and of those among them
/// that went to the judge.
#[derive(Clone, Copy, Debug, PartialEq, Eq, Structural)]
pub struct FallbackMetrics {
    pub total: u64,
    pub fallback: u64,
}

/// `n + 1`, starting over at the largest number.
pub open spec fn counted(n: u64) -> u64 {
    if n == u64::MAX {
        0
    } else {
        (n + 1) as u64
    }
}

impl FallbackMetrics {
    /// The counts after one more candidate.
    pub open spec fn recorded(self, was_fallback: bool) -> FallbackMetrics {
        FallbackMetrics {
            total: counted(self.total),
            fallback: if was_fallback {
                counted(self.fallback)
            } else {
                self.fallback
            },
        }
    }

    /// Counts of nothing.
    pub fn new() -> (r: Self)
        ensures
            r.total == 0,
            r.fallback == 0,
    {
        FallbackMetrics { total: 0, fallback: 0 }
    }

    /// Counts a candidate, which fell into the ambiguous zone and went to the
    /// judge if and only if `was_fallback`.
    pub fn record(&mut self, was_fallback: bool)
        ensures
            *final(self) == old(self).recorded(was_fallback),
    {
        self.total = self.total.wrapping_add(1);
        if was_fallback {
            self.fallback = self.fallback.wrapping_add(1);
        }
    }

    /// The number of candidates.
    pub fn total(&self) -> (r: u64)
        ensures
            r == self.total,
    {
        self.total
    }

    /// The number of candidates that went to the judge.
    pub fn fallback_total(&self) -> (r: u64)
        ensures
            r == self.fallback,
    {
        self.fallback
    }

    /// The share of candidates that went to the judge, as a numerator and a
    /// denominator; zero, and never a division by zero, where there were none.
    pub fn fallback_rate(&self) -> (r: (u64, u64))
        ensures
            r == (if self.total == 0 {
                (0u64, 1u64)
            } else {
                (self.fallback, self.total)
            }),
            r.1 != 0,
    {
        if self.total == 0 {
            (0, 1)
        } else {
            (self.fallback, self.total)
        }
    }
}

impl Default for FallbackMetrics {
    fn default() -> (r: Self)
        ensures
            r.total == 0,
            r.fallback == 0,
    {
        FallbackMetrics::new()
    }
}

/// Until the counts start over, no more candidates went to the judge than
/// there were, so the rate is at most one.
pub proof fn law_rate_at_most_one(m: FallbackMetrics, was_fallback: bool)
    requires
        m.fallback <= m.total,
        m.total < u64::MAX,
    ensures
        m.recorded(was_fallback).fallback <= m.recorded(was_fallback).total,
        m.recorded(was_fallback).total == m.total + 1,
{
}

} // verus!
