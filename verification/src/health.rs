//! The health tracker: a single optional timestamp of the last successful
//! periodic tick, and a staleness-based liveness predicate over it.

use vstd::prelude::*;
use crate::clock::now_unix;

verus! {

/// Staleness threshold in seconds: the tracker is healthy only while the
/// last tick lies less than this many seconds in the past.
pub const HEALTH_STALE_SECONDS: i64 = 60;

/// Health state: the Unix time of the last successful periodic tick, or
/// `None` when no tick was ever recorded.
#[derive(Clone, Copy, Debug)]
pub struct AppHealth {
    pub last_run: Option<i64>,
}

/// The liveness predicate: healthy at `now` exactly when a tick was
/// recorded and lies less than `HEALTH_STALE_SECONDS` before `now`.
pub open spec fn healthy_at(h: AppHealth, now: i64) -> bool {
    match h.last_run {
        Some(t) => now - t < HEALTH_STALE_SECONDS,
        None => false,
    }
}

impl AppHealth {
    /// A tracker that has never recorded a tick.
    pub fn new() -> (r: AppHealth)
        ensures
            r.last_run is None,
    {
        AppHealth { last_run: None }
    }

    /// Records a successful tick at time `now`.
    pub fn record_tick(&mut self, now: i64)
        ensures
            final(self).last_run == Some(now),
    {
        self.last_run = Some(now);
    }

    /// Records a successful tick at the current time.
    pub fn update(&mut self)
        ensures
            final(self).last_run matches Some(_),
    {
        let now = now_unix();
        self.record_tick(now);
    }

    /// Decides the liveness predicate at a given time.
    pub fn is_healthy_at(&self, now: i64) -> (r: bool)
        ensures
            r == healthy_at(*self, now),
    {
        match self.last_run {
            Some(t) => (now as i128) - (t as i128) < HEALTH_STALE_SECONDS as i128,
            None => false,
        }
    }

    /// Decides the liveness predicate at the current time. Whatever the
    /// clock reads, a tracker that never recorded a tick is unhealthy.
    pub fn is_healthy(&self) -> (r: bool)
        ensures
            self.last_run is None ==> r == false,
            r ==> self.last_run matches Some(_),
    {
        let now = now_unix();
        self.is_healthy_at(now)
    }
}

impl Default for AppHealth {
    /// The default tracker has never recorded a tick.
    fn default() -> (r: AppHealth)
        ensures
            r.last_run is None,
    {
        AppHealth { last_run: None }
    }
}

/// Law: a tick recorded at time `t` makes the health predicate true at
/// every query time before `t + 60` seconds and false at every query time
/// from `t + 60` seconds on.
pub proof fn lemma_health_window(h: AppHealth, t: i64, now: i64)
    requires
        h.last_run == Some(t),
    ensures
        healthy_at(h, now) <==> now < t + HEALTH_STALE_SECONDS,
{
}

/// Law: with no tick ever recorded, the health predicate is false at every
/// query time.
pub proof fn lemma_never_ticked_never_healthy(h: AppHealth, now: i64)
    requires
        h.last_run is None,
    ensures
        !healthy_at(h, now),
{
}

} // verus!
