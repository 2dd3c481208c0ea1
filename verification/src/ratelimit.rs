//! The search rate limiter: a sliding window of send timestamps.
//!
//! The public server tolerates at most 34 searches in any trailing
//! 220-second window. Time enters as a millisecond count supplied by
//! the caller, so the limiter's behaviour is a function of its inputs.

use vstd::prelude::*;

verus! {

/// The most searches allowed within one window.
pub const SEARCH_RATE_LIMIT_MAX: usize = 34;

/// The window, in milliseconds.
pub const SEARCH_RATE_LIMIT_WINDOW_MS: u64 = 220_000;

/// A search waiting for a free slot, with the kind that routes its
/// results when it is finally sent.
#[derive(Debug, Clone)]
pub enum QueuedSearch {
    /// An interactive search typed by the user.
    Regular { query: String },
    /// A search issued to match one track of a playlist.
    TrackMatch { track_index: usize, query: String },
    /// A search for an alternative source of a failed download.
    RetryDownload { download_id: u32, original_filename: String, query: String },
}

/// The oldest instant still inside the window ending at `now_ms`.
pub open spec fn window_cutoff(now_ms: u64) -> u64 {
    if now_ms >= SEARCH_RATE_LIMIT_WINDOW_MS {
        (now_ms - SEARCH_RATE_LIMIT_WINDOW_MS) as u64
    } else {
        0
    }
}

/// What pruning leaves: timestamps are dropped from the front while
/// they lie before the cutoff.
pub open spec fn spec_prune(ts: Seq<u64>, now_ms: u64) -> Seq<u64>
    decreases ts.len(),
{
    if ts.len() > 0 && ts[0] < window_cutoff(now_ms) {
        spec_prune(ts.drop_first(), now_ms)
    } else {
        ts
    }
}

/// When every timestamp is still inside the window, pruning drops
/// nothing: a full window stays full.
pub proof fn lemma_full_window_blocks(ts: Seq<u64>, now_ms: u64)
    requires
        forall|i: int| 0 <= i < ts.len() ==> window_cutoff(now_ms) <= #[trigger] ts[i],
    ensures
        spec_prune(ts, now_ms) == ts,
{
}

/// When every timestamp lies before the cutoff, pruning empties the
/// window: after the window passes, sending is allowed again.
pub proof fn lemma_stale_window_frees(ts: Seq<u64>, now_ms: u64)
    requires
        forall|i: int| 0 <= i < ts.len() ==> #[trigger] ts[i] < window_cutoff(now_ms),
    ensures
        spec_prune(ts, now_ms).len() == 0,
    decreases ts.len(),
{
    if ts.len() > 0 {
        assert(forall|i: int|
            0 <= i < ts.drop_first().len() ==> #[trigger] ts.drop_first()[i] == ts[i + 1]);
        lemma_stale_window_frees(ts.drop_first(), now_ms);
    }
}


/// How long from `now_ms` until the window that started at `t0` ends,
/// clamped to the clock's range.
pub open spec fn wait_until(t0: u64, now_ms: u64) -> u64 {
    let due = t0 + SEARCH_RATE_LIMIT_WINDOW_MS - now_ms;
    if due <= 0 {
        0u64
    } else if due > u64::MAX {
        u64::MAX
    } else {
        due as u64
    }
}

/// The sliding-window rate limiter, with the queue of searches waiting
/// for a slot.
pub struct SearchRateLimiter {
    search_timestamps: Vec<u64>,
    queued_searches: Vec<QueuedSearch>,
}

impl SearchRateLimiter {
    /// The recorded send timestamps, oldest first.
    pub closed spec fn timestamps(&self) -> Seq<u64> {
        self.search_timestamps@
    }

    /// The queued searches, oldest first.
    pub closed spec fn queued(&self) -> Seq<QueuedSearch> {
        self.queued_searches@
    }

    pub fn new() -> (r: SearchRateLimiter)
        ensures
            r.timestamps() == Seq::<u64>::empty(),
            r.queued() == Seq::<QueuedSearch>::empty(),
    {
        SearchRateLimiter { search_timestamps: Vec::new(), queued_searches: Vec::new() }
    }

    /// Drops timestamps from the front while they lie outside the
    /// window ending at `now_ms`.
    pub fn prune_old_searches(&mut self, now_ms: u64)
        ensures
            final(self).timestamps() == spec_prune(old(self).timestamps(), now_ms),
            final(self).queued() == old(self).queued(),
    {
        let cutoff = if now_ms >= SEARCH_RATE_LIMIT_WINDOW_MS {
            now_ms - SEARCH_RATE_LIMIT_WINDOW_MS
        } else {
            0
        };
        while self.search_timestamps.len() > 0 && self.search_timestamps[0] < cutoff
            invariant
                cutoff == window_cutoff(now_ms),
                spec_prune(self.search_timestamps@, now_ms) == spec_prune(
                    old(self).timestamps(),
                    now_ms,
                ),
                self.queued_searches@ == old(self).queued(),
            decreases self.search_timestamps@.len(),
        {
            let ghost before = self.search_timestamps@;
            self.search_timestamps.remove(0);
            proof {
                assert(self.search_timestamps@ =~= before.drop_first());
            }
        }
    }

    /// True when a search may be sent at `now_ms`: fewer than the
    /// window's budget of sends remain inside the window.
    pub fn can_search(&mut self, now_ms: u64) -> (r: bool)
        ensures
            final(self).timestamps() == spec_prune(old(self).timestamps(), now_ms),
            final(self).queued() == old(self).queued(),
            r == (spec_prune(old(self).timestamps(), now_ms).len() < SEARCH_RATE_LIMIT_MAX),
    {
        self.prune_old_searches(now_ms);
        self.search_timestamps.len() < SEARCH_RATE_LIMIT_MAX
    }

    /// Records a send at `now_ms`.
    pub fn record_search(&mut self, now_ms: u64)
        ensures
            final(self).timestamps() == old(self).timestamps().push(now_ms),
            final(self).queued() == old(self).queued(),
    {
        self.search_timestamps.push(now_ms);
    }

    /// How long until the oldest recorded send leaves the window:
    /// `None` while the budget is not exhausted.
    pub fn time_until_next_slot(&mut self, now_ms: u64) -> (r: Option<u64>)
        ensures
            final(self).timestamps() == spec_prune(old(self).timestamps(), now_ms),
            final(self).queued() == old(self).queued(),
            ({
                let live = spec_prune(old(self).timestamps(), now_ms);
                match r {
                    Some(wait) => live.len() >= SEARCH_RATE_LIMIT_MAX && wait == wait_until(
                        live[0],
                        now_ms,
                    ),
                    None => live.len() < SEARCH_RATE_LIMIT_MAX,
                }
            }),
    {
        self.prune_old_searches(now_ms);
        if self.search_timestamps.len() < SEARCH_RATE_LIMIT_MAX {
            return None;
        }
        let oldest = self.search_timestamps[0];
        if oldest >= now_ms {
            let ahead = oldest - now_ms;
            if ahead > u64::MAX - SEARCH_RATE_LIMIT_WINDOW_MS {
                Some(u64::MAX)
            } else {
                Some(ahead + SEARCH_RATE_LIMIT_WINDOW_MS)
            }
        } else {
            let elapsed = now_ms - oldest;
            if SEARCH_RATE_LIMIT_WINDOW_MS >= elapsed {
                Some(SEARCH_RATE_LIMIT_WINDOW_MS - elapsed)
            } else {
                Some(0)
            }
        }
    }

    /// How many sends remain inside the budget at `now_ms`.
    pub fn searches_remaining(&mut self, now_ms: u64) -> (r: usize)
        ensures
            final(self).timestamps() == spec_prune(old(self).timestamps(), now_ms),
            final(self).queued() == old(self).queued(),
            r == (if spec_prune(old(self).timestamps(), now_ms).len() <= SEARCH_RATE_LIMIT_MAX {
                SEARCH_RATE_LIMIT_MAX - spec_prune(old(self).timestamps(), now_ms).len()
            } else {
                0int
            }),
    {
        self.prune_old_searches(now_ms);
        if self.search_timestamps.len() <= SEARCH_RATE_LIMIT_MAX {
            SEARCH_RATE_LIMIT_MAX - self.search_timestamps.len()
        } else {
            0
        }
    }

    /// Parks a search until a slot frees up.
    pub fn queue_search(&mut self, search: QueuedSearch)
        ensures
            final(self).queued() == old(self).queued().push(search),
            final(self).timestamps() == old(self).timestamps(),
    {
        self.queued_searches.push(search);
    }

    /// Takes the oldest queued search, if any.
    pub fn pop_queued(&mut self) -> (r: Option<QueuedSearch>)
        ensures
            final(self).timestamps() == old(self).timestamps(),
            match r {
                Some(s) => old(self).queued().len() > 0 && s == old(self).queued()[0]
                    && final(self).queued() == old(self).queued().drop_first(),
                None => old(self).queued().len() == 0 && final(self).queued() == old(self).queued(),
            },
    {
        if self.queued_searches.len() == 0 {
            return None;
        }
        let ghost before = self.queued_searches@;
        let s = self.queued_searches.remove(0);
        proof {
            assert(self.queued_searches@ =~= before.drop_first());
        }
        Some(s)
    }

    /// How many searches are parked.
    pub fn queued_count(&self) -> (r: usize)
        ensures
            r == self.queued().len(),
    {
        self.queued_searches.len()
    }
}


/// What became of one submitted search: it went out now, or it was
/// parked until a slot frees up.
#[derive(Debug, Clone, Copy, PartialEq, Eq, Structural)]
pub enum SearchDecision {
    /// The budget had a slot: the caller sends the frame now.
    SendNow,
    /// The budget was exhausted: the search waits on the queue.
    Parked,
}

impl SearchRateLimiter {
    /// Submits one search at `now_ms`: exactly one of two things
    /// happens. Either fewer than the budget's sends lie inside the
    /// window, the send is recorded and the caller emits the frame; or
    /// the search is parked on the queue and nothing is sent. So of 35
    /// submissions within one second, exactly 34 go out and the last
    /// waits for the window to pass.
    pub fn submit_search(&mut self, search: QueuedSearch, now_ms: u64) -> (r: SearchDecision)
        ensures
            match r {
                SearchDecision::SendNow => {
                    &&& spec_prune(old(self).timestamps(), now_ms).len() < SEARCH_RATE_LIMIT_MAX
                    &&& final(self).timestamps() == spec_prune(
                        old(self).timestamps(),
                        now_ms,
                    ).push(now_ms)
                    &&& final(self).queued() == old(self).queued()
                },
                SearchDecision::Parked => {
                    &&& spec_prune(old(self).timestamps(), now_ms).len() >= SEARCH_RATE_LIMIT_MAX
                    &&& final(self).timestamps() == spec_prune(old(self).timestamps(), now_ms)
                    &&& final(self).queued() == old(self).queued().push(search)
                },
            },
    {
        if self.can_search(now_ms) {
            self.record_search(now_ms);
            SearchDecision::SendNow
        } else {
            self.queue_search(search);
            SearchDecision::Parked
        }
    }
}

} // verus!
