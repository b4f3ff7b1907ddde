//! Per-origin usage counters.
//!
//! Each origin keeps one `LogStats` record: how many requests it saw, how
//! many were answered from the cache, and how many payload bytes went out.
//! The counters only grow (saturating at `u64::MAX`), and the dispatcher
//! bumps `request_count` before any other work of a request, so
//! `cache_hits <= request_count` holds at every observation.

use vstd::prelude::*;

verus! {

/// Usage counters of one origin. All counters start at zero and never
/// decrease.
#[derive(Clone, Copy, Debug, PartialEq, Eq, Structural)]
pub struct LogStats {
    pub bytes_served: u64,
    pub request_count: u64,
    pub cache_hits: u64,
}

/// `x + y` capped at `u64::MAX`.
pub open spec fn sat_plus(x: u64, y: u64) -> u64 {
    if x + y <= u64::MAX {
        (x + y) as u64
    } else {
        u64::MAX
    }
}

impl Default for LogStats {
    /// A fresh record with all counters at zero.
    fn default() -> (s: LogStats)
        ensures
            s == (LogStats { bytes_served: 0, request_count: 0, cache_hits: 0 }),
    {
        LogStats { bytes_served: 0, request_count: 0, cache_hits: 0 }
    }
}

impl LogStats {
    /// Counts one incoming request. The dispatcher calls this first,
    /// unconditionally, before any cache or upstream work.
    pub fn record_request(&mut self)
        ensures
            final(self).request_count == sat_plus(old(self).request_count, 1),
            final(self).bytes_served == old(self).bytes_served,
            final(self).cache_hits == old(self).cache_hits,
    {
        self.request_count = self.request_count.saturating_add(1);
    }

    /// Counts one request answered from the cache rather than freshly
    /// fetched.
    pub fn record_cache_hit(&mut self)
        ensures
            final(self).cache_hits == sat_plus(old(self).cache_hits, 1),
            final(self).bytes_served == old(self).bytes_served,
            final(self).request_count == old(self).request_count,
    {
        self.cache_hits = self.cache_hits.saturating_add(1);
    }

    /// Counts `n` payload bytes written to a client.
    pub fn record_bytes_served(&mut self, n: usize)
        ensures
            final(self).bytes_served == sat_plus(old(self).bytes_served, n as u64),
            final(self).request_count == old(self).request_count,
            final(self).cache_hits == old(self).cache_hits,
    {
        self.bytes_served = self.bytes_served.saturating_add(n as u64);
    }
}

/// The effect of one whole request on the counters: the request is counted,
/// then at most one cache hit, then the payload bytes of the response (if
/// one was delivered).
pub open spec fn spec_after_request(s: LogStats, hit: bool, served: Option<u64>) -> LogStats {
    LogStats {
        request_count: sat_plus(s.request_count, 1),
        cache_hits: if hit {
            sat_plus(s.cache_hits, 1)
        } else {
            s.cache_hits
        },
        bytes_served: match served {
            Some(n) => sat_plus(s.bytes_served, n),
            None => s.bytes_served,
        },
    }
}

/// Law: `cache_hits <= request_count` is an invariant. A request increments
/// `request_count` exactly once and `cache_hits` at most once, so any state
/// satisfying the bound still satisfies it after a request — under
/// concurrent load too, since every interleaving of whole-request updates is
/// a sequence of such steps.
pub proof fn lemma_cache_hits_bounded(s: LogStats, hit: bool, served: Option<u64>)
    requires
        s.cache_hits <= s.request_count,
    ensures
        spec_after_request(s, hit, served).cache_hits <= spec_after_request(
            s,
            hit,
            served,
        ).request_count,
{
}

/// The sum of the payload sizes of a run of responses.
pub open spec fn sum_served(lens: Seq<u64>) -> int
    decreases lens.len(),
{
    if lens.len() == 0 {
        0
    } else {
        sum_served(lens.drop_last()) + lens.last()
    }
}

/// The counters after a run of responses of the given payload sizes has
/// been recorded.
pub open spec fn apply_served(s: LogStats, lens: Seq<u64>) -> LogStats
    decreases lens.len(),
{
    if lens.len() == 0 {
        s
    } else {
        let prev = apply_served(s, lens.drop_last());
        LogStats { bytes_served: sat_plus(prev.bytes_served, lens.last()), ..prev }
    }
}

/// Law: `bytes_served` equals the sum of the payload bytes of all delivered
/// responses — as long as that sum fits in the counter, recording one
/// response after another adds up exactly.
pub proof fn lemma_bytes_served_is_sum(s: LogStats, lens: Seq<u64>)
    requires
        s.bytes_served + sum_served(lens) <= u64::MAX,
    ensures
        apply_served(s, lens).bytes_served == s.bytes_served + sum_served(lens),
    decreases lens.len(),
{
    if lens.len() == 0 {
    } else {
        lemma_sum_served_nonneg(lens.drop_last());
        lemma_bytes_served_is_sum(s, lens.drop_last());
    }
}

/// Every payload size is nonnegative, so partial sums never exceed the
/// total.
pub proof fn lemma_sum_served_nonneg(lens: Seq<u64>)
    ensures
        sum_served(lens) >= 0,
    decreases lens.len(),
{
    if lens.len() == 0 {
    } else {
        lemma_sum_served_nonneg(lens.drop_last());
    }
}

} // verus!
