//! Fixed-window rate limiting, and the per-IP limiter with its warning flag.
use vstd::prelude::*;

verus! {

/// How many events a window admits, and how long a window lasts.
#[derive(Debug, Clone, Copy)]
pub struct RateWindow {
    pub limit: u32,
    pub window_ms: u64,
}

/// A fixed-window counter: `count` events seen since `start` (milliseconds).
#[derive(Debug, Clone, Copy)]
pub struct RateLimiter {
    pub window: RateWindow,
    pub count: u32,
    pub start: u64,
}

/// Relies on `SystemTime::now` and `duration_since(UNIX_EPOCH)`: whole seconds
/// since the Unix epoch, or 0 for a clock set before it.
#[verifier::external_body]
pub fn now_ts() -> u64 {
    std::time::SystemTime::now().duration_since(std::time::UNIX_EPOCH).unwrap_or_default().as_secs()
}

/// Relies on `SystemTime::now` and `duration_since(UNIX_EPOCH)`: milliseconds
/// since the Unix epoch, or 0 for a clock set before it.
#[verifier::external_body]
pub(crate) fn now_millis() -> u64 {
    std::time::SystemTime::now().duration_since(std::time::UNIX_EPOCH).unwrap_or_default().as_millis() as u64
}

/// Time from `start` to `now`, or zero when `now` is earlier.
pub open spec fn elapsed(start: u64, now: u64) -> int {
    if now >= start {
        now - start
    } else {
        0
    }
}

/// The limiter after one event at time `now`: a window that has run out
/// restarts at `now`, then the count goes up by one (saturating).
pub open spec fn after_check(r: RateLimiter, now: u64) -> RateLimiter {
    let reset = elapsed(r.start, now) >= r.window.window_ms;
    let count = if reset {
        0
    } else {
        r.count
    };
    RateLimiter {
        window: r.window,
        count: if count == u32::MAX {
            count
        } else {
            (count + 1) as u32
        },
        start: if reset {
            now
        } else {
            r.start
        },
    }
}

/// Whether an event at time `now` is admitted.
pub open spec fn admits(r: RateLimiter, now: u64) -> bool {
    after_check(r, now).count <= r.window.limit
}

/// What a run of events at the given times gets, one verdict each.
pub open spec fn verdicts(r: RateLimiter, times: Seq<u64>) -> Seq<bool>
    decreases times.len(),
{
    if times.len() == 0 {
        seq![]
    } else {
        seq![admits(r, times[0])] + verdicts(after_check(r, times[0]), times.drop_first())
    }
}

impl RateLimiter {
    /// A limiter whose first window starts at `now`.
    pub fn new_at(limit: u32, window_ms: u64, now: u64) -> (r: RateLimiter)
        ensures
            r.window == (RateWindow { limit, window_ms }),
            r.count == 0,
            r.start == now,
    {
        RateLimiter { window: RateWindow { limit, window_ms }, count: 0, start: now }
    }

    /// A limiter whose first window starts now.
    pub fn new(limit: u32, window_ms: u64) -> (r: RateLimiter)
        ensures
            r.window == (RateWindow { limit, window_ms }),
            r.count == 0,
    {
        Self::new_at(limit, window_ms, now_millis())
    }

    /// Counts one event at time `now` and says whether it is admitted.
    pub fn check_at(&mut self, now: u64) -> (ok: bool)
        ensures
            *final(self) == after_check(*old(self), now),
            ok == admits(*old(self), now),
    {
        let elapsed = now.saturating_sub(self.start);
        if elapsed >= self.window.window_ms {
            self.start = now;
            self.count = 0;
        }
        self.count = self.count.saturating_add(1);
        self.count <= self.window.limit
    }

    /// Counts one event now and says whether it is admitted.
    pub fn check(&mut self) -> (ok: bool)
        ensures
            exists|now: u64|
                *final(self) == after_check(*old(self), now) && ok == admits(*old(self), now),
    {
        let now = now_millis();
        self.check_at(now)
    }
}

/// One IP's limiter, with whether that IP has been warned.
#[derive(Debug, Clone, Copy)]
pub struct IpRate {
    pub limiter: RateLimiter,
    pub warned: bool,
}

/// Length of an IP limiter's window, in milliseconds.
pub const IP_WINDOW_MS: u64 = 1000;

/// The IP limiter after an event at `now`: an admitted event clears the warning.
pub open spec fn ip_after_check(r: IpRate, now: u64) -> IpRate {
    IpRate {
        limiter: after_check(r.limiter, now),
        warned: if admits(r.limiter, now) {
            false
        } else {
            r.warned
        },
    }
}

impl IpRate {
    /// A per-IP limiter with one-second windows, first window starting at `now`.
    pub fn new_at(limit: u32, now: u64) -> (r: IpRate)
        ensures
            r.limiter == RateLimiter::new_spec(limit, IP_WINDOW_MS, now),
            !r.warned,
    {
        IpRate { limiter: RateLimiter::new_at(limit, IP_WINDOW_MS, now), warned: false }
    }

    /// A per-IP limiter with one-second windows, first window starting now.
    pub fn new(limit: u32) -> (r: IpRate)
        ensures
            r.limiter.window == (RateWindow { limit, window_ms: IP_WINDOW_MS }),
            r.limiter.count == 0,
            !r.warned,
    {
        IpRate { limiter: RateLimiter::new(limit, IP_WINDOW_MS), warned: false }
    }

    /// Counts one event at time `now`; an admitted event clears the warning.
    pub fn check_at(&mut self, now: u64) -> (ok: bool)
        ensures
            *final(self) == ip_after_check(*old(self), now),
            ok == admits(old(self).limiter, now),
    {
        let ok = self.limiter.check_at(now);
        if ok {
            self.warned = false;
        }
        ok
    }

    /// Counts one event now; an admitted event clears the warning.
    pub fn check(&mut self) -> (ok: bool)
        ensures
            exists|now: u64|
                *final(self) == ip_after_check(*old(self), now) && ok == admits(
                    old(self).limiter,
                    now,
                ),
    {
        let now = now_millis();
        self.check_at(now)
    }
}

impl RateLimiter {
    /// The limiter that [`RateLimiter::new_at`] builds.
    pub open spec fn new_spec(limit: u32, window_ms: u64, now: u64) -> RateLimiter {
        RateLimiter { window: RateWindow { limit, window_ms }, count: 0, start: now }
    }
}

/// Within one window, the `i`-th event is admitted exactly when the count
/// it brings, `count + i + 1`, stays within the limit; for a fresh limiter
/// (count zero) the first `limit` events pass and the rest are refused.
pub proof fn lemma_verdicts_in_window(r: RateLimiter, times: Seq<u64>)
    requires
        r.window.limit < u32::MAX,
        forall|i: int| 0 <= i < times.len() ==> r.start <= #[trigger] times[i]
            && times[i] - r.start < r.window.window_ms,
    ensures
        verdicts(r, times).len() == times.len(),
        forall|i: int|
            0 <= i < times.len() ==> #[trigger] verdicts(r, times)[i] == (r.count + i + 1
                <= r.window.limit),
    decreases times.len(),
{
    if times.len() > 0 {
        let next = after_check(r, times[0]);
        assert forall|i: int| 0 <= i < times.drop_first().len() implies next.start <= #[trigger] times.drop_first()[i]
            && times.drop_first()[i] - next.start < next.window.window_ms by {
            assert(times.drop_first()[i] == times[i + 1]);
        }
        lemma_verdicts_in_window(next, times.drop_first());
        let v = verdicts(r, times);
        assert forall|i: int| 0 <= i < times.len() implies #[trigger] v[i] == (r.count + i + 1
            <= r.window.limit) by {
            if i > 0 {
                assert(v[i] == verdicts(next, times.drop_first())[i - 1]);
            }
        }
    }
}

/// A limiter admits exactly `limit` events in a window: when the first of a
/// run of events opens a new window and the rest fall inside it, the events
/// before the `limit`-th (inclusive) are admitted and every later one refused.
pub proof fn lemma_window_admits_limit(r: RateLimiter, times: Seq<u64>)
    requires
        r.window.limit < u32::MAX,
        times.len() > 0,
        elapsed(r.start, times[0]) >= r.window.window_ms,
        forall|i: int| 0 <= i < times.len() ==> times[0] <= #[trigger] times[i]
            && times[i] - times[0] < r.window.window_ms,
    ensures
        verdicts(r, times).len() == times.len(),
        forall|i: int| 0 <= i < times.len() ==> #[trigger] verdicts(r, times)[i] == (i < r.window.limit),
{
    let next = after_check(r, times[0]);
    let rest = times.drop_first();
    assert forall|i: int| 0 <= i < rest.len() implies next.start <= #[trigger] rest[i]
        && rest[i] - next.start < next.window.window_ms by {
        assert(rest[i] == times[i + 1]);
    }
    lemma_verdicts_in_window(next, rest);
    let v = verdicts(r, times);
    assert forall|i: int| 0 <= i < times.len() implies #[trigger] v[i] == (i < r.window.limit) by {
        if i > 0 {
            assert(v[i] == verdicts(next, rest)[i - 1]);
        }
    }
}

/// Once the window has run out, the next event is admitted again (for a
/// limit of at least one).
pub proof fn lemma_next_window_admits(r: RateLimiter, now: u64)
    requires
        r.window.limit >= 1,
        elapsed(r.start, now) >= r.window.window_ms,
    ensures
        admits(r, now),
        after_check(r, now).start == now,
        after_check(r, now).count == 1,
{
}

} // verus!
