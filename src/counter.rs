use vstd::prelude::*;

verus! {

/// Length of one rate-limit window, in milliseconds.
pub const WINDOW_MS: u64 = 60_000;

/// How long a counter may sit past the end of its window before it is stale.
pub const STALE_AFTER_MS: u64 = 120_000;

/// Outcome of asking the store to admit one request.
#[derive(Copy, Clone, Debug, PartialEq, Eq, Structural)]
pub enum StoreProcessResult {
    RateLimitExceeded,
    NotFound,
    Continue,
}

/// One caller's consumption of its quota in the current fixed window.
/// Times are milliseconds on a monotonic clock chosen by the caller.
#[derive(Copy, Clone, Debug, PartialEq, Eq, Structural)]
pub struct DurationCount {
    /// Start of the current window.
    pub start: u64,
    /// Requests still allowed in the current window.
    pub remain: usize,
    /// Requests allowed per window.
    pub size: usize,
}

/// True when the window that began at `start` has ended at time `now`.
pub open spec fn window_over(start: int, now: int) -> bool {
    now >= start + WINDOW_MS
}

/// True when a counter whose window began at `start` is stale at `now`:
/// its window ended at least `STALE_AFTER_MS` ago.
pub open spec fn stale_at(start: int, now: int) -> bool {
    now >= start + WINDOW_MS + STALE_AFTER_MS
}

impl DurationCount {
    pub open spec fn wf(&self) -> bool {
        &&& self.size > 0
        &&& self.remain <= self.size
    }

    /// The counter as it stands at `now` once an elapsed window is renewed.
    pub open spec fn refreshed(self, now: u64) -> DurationCount {
        if window_over(self.start as int, now as int) {
            DurationCount { start: now, remain: self.size, size: self.size }
        } else {
            self
        }
    }

    /// The outcome of one request at `now`, and the counter after it.
    pub open spec fn consumed(self, now: u64) -> (StoreProcessResult, DurationCount) {
        let r = self.refreshed(now);
        if r.remain == 0 {
            (StoreProcessResult::RateLimitExceeded, r)
        } else {
            (StoreProcessResult::Continue, DurationCount { remain: (r.remain - 1) as usize, ..r })
        }
    }

    /// A counter for a caller's first request at `now`; that request uses one unit.
    pub fn new(size: usize, now: u64) -> (r: (Self, StoreProcessResult))
        requires
            size > 0,
        ensures
            r.0 == (DurationCount { start: now, remain: (size - 1) as usize, size }),
            r.1 == StoreProcessResult::Continue,
            r.0.wf(),
    {
        (DurationCount { start: now, remain: size - 1, size }, StoreProcessResult::Continue)
    }

    /// Counts one request at `now`, renewing the window first if it has ended.
    pub fn reduce(&mut self, now: u64) -> (r: StoreProcessResult)
        requires
            old(self).wf(),
        ensures
            final(self).wf(),
            (r, *final(self)) == old(self).consumed(now),
    {
        self.check_or_refresh(now);
        if self.remain == 0 {
            StoreProcessResult::RateLimitExceeded
        } else {
            self.remain = self.remain - 1;
            StoreProcessResult::Continue
        }
    }

    /// Starts a fresh window with the full quota if the current one has ended.
    pub fn check_or_refresh(&mut self, now: u64)
        requires
            old(self).wf(),
        ensures
            final(self).wf(),
            *final(self) == old(self).refreshed(now),
    {
        if now >= self.start && now - self.start >= WINDOW_MS {
            self.start = now;
            self.remain = self.size;
        }
    }

    /// When the current window began.
    pub fn get_issue_time(&self) -> (r: u64)
        ensures
            r == self.start,
    {
        self.start
    }

    /// Time elapsed since the current window began, or zero if `now` is earlier.
    pub fn get_when_issued(&self, now: u64) -> (r: u64)
        ensures
            r == if now >= self.start { (now - self.start) as u64 } else { 0 },
    {
        let issued = self.get_issue_time();
        if now >= issued {
            now - issued
        } else {
            0
        }
    }

    /// True once `now` is at least `STALE_AFTER_MS` past the end of the window.
    pub fn is_stale(&self, now: u64) -> (r: bool)
        ensures
            r == stale_at(self.start as int, now as int),
    {
        now >= self.start && now - self.start >= WINDOW_MS + STALE_AFTER_MS
    }
}

} // verus!
