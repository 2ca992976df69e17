//! The watch loop's decisions: when a timer tick re-fetches, what each
//! event changes, and what the loop does next. The loop itself — timers,
//! terminal events, the fetch — runs outside the library and feeds events
//! in as plain values.

use vstd::prelude::*;

verus! {

/// The refresh cadence, and how old data may grow before a tick
/// re-fetches it.
#[derive(Clone, Copy, Debug, PartialEq, Eq, Structural)]
pub struct RefreshPolicy {
    pub interval_secs: u64,
    pub staleness_threshold_secs: u64,
}

/// Where the refresh cycle stands.
#[derive(Clone, Copy, Debug, PartialEq, Eq, Structural)]
pub enum WatchState {
    Idle,
    Refreshing,
}

/// What the loop should do next.
#[derive(Clone, Copy, Debug, PartialEq, Eq, Structural)]
pub enum WatchAction {
    StartFetch,
    Redraw,
    Exit,
    Nothing,
}

/// Data is stale when nothing was ever fetched, or more than `threshold`
/// seconds have passed since the last update.
pub open spec fn spec_stale(last_update: Option<u64>, now: u64, threshold: u64) -> bool {
    match last_update {
        None => true,
        Some(lu) => now > lu && now - lu > threshold,
    }
}

/// The timer-and-redraw controller: the refresh state, the moment of the
/// last successful update, and the policy it follows.
#[derive(Debug)]
pub struct Watcher {
    pub state: WatchState,
    pub last_update: Option<u64>,
    pub policy: RefreshPolicy,
}

impl Watcher {
    /// A fresh controller: idle, with the cached data's fetch moment (if
    /// any) standing as the last update.
    pub fn new(policy: RefreshPolicy, last_update: Option<u64>) -> (w: Watcher)
        ensures
            w.state == WatchState::Idle,
            w.last_update == last_update,
            w.policy == policy,
    {
        Watcher { state: WatchState::Idle, last_update, policy }
    }

    /// Whether the data on screen is stale at `now`.
    pub fn is_stale(&self, now: u64) -> (r: bool)
        ensures
            r == spec_stale(self.last_update, now, self.policy.staleness_threshold_secs),
    {
        match self.last_update {
            None => true,
            Some(lu) => now > lu && now - lu > self.policy.staleness_threshold_secs,
        }
    }

    /// A timer tick: an idle controller whose data is stale starts a
    /// fetch; a refreshing one, or one with fresh data, does nothing.
    pub fn on_tick(&mut self, now: u64) -> (a: WatchAction)
        ensures
            ({
                let fire = old(self).state == WatchState::Idle && spec_stale(
                    old(self).last_update,
                    now,
                    old(self).policy.staleness_threshold_secs,
                );
                &&& a == if fire {
                    WatchAction::StartFetch
                } else {
                    WatchAction::Nothing
                }
                &&& final(self).state == if fire {
                    WatchState::Refreshing
                } else {
                    old(self).state
                }
                &&& final(self).last_update == old(self).last_update
                &&& final(self).policy == old(self).policy
            }),
    {
        if self.state == WatchState::Idle && self.is_stale(now) {
            self.state = WatchState::Refreshing;
            WatchAction::StartFetch
        } else {
            WatchAction::Nothing
        }
    }

    /// A fetch came back: the controller returns to idle either way. On
    /// success the last update moves to `now` and the screen is redrawn;
    /// on failure the previous state stays visible and nothing is drawn.
    pub fn on_fetch_result(&mut self, ok: bool, now: u64) -> (a: WatchAction)
        ensures
            final(self).state == WatchState::Idle,
            final(self).policy == old(self).policy,
            ok ==> final(self).last_update == Some(now) && a == WatchAction::Redraw,
            !ok ==> final(self).last_update == old(self).last_update && a == WatchAction::Nothing,
    {
        self.state = WatchState::Idle;
        if ok {
            self.last_update = Some(now);
            WatchAction::Redraw
        } else {
            WatchAction::Nothing
        }
    }

    /// A terminal resize: repaint whatever is loaded.
    pub fn on_resize(&self) -> (a: WatchAction)
        ensures
            a == WatchAction::Redraw,
    {
        WatchAction::Redraw
    }

    /// The quit key: the only terminal transition.
    pub fn on_quit(&self) -> (a: WatchAction)
        ensures
            a == WatchAction::Exit,
    {
        WatchAction::Exit
    }
}

} // verus!
