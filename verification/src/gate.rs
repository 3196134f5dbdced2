//! How many connections a download may use at once.
//!
//! The bound halves whenever the server answers "too many requests" and grows
//! by one after a quiet period, up to the configured ceiling: additive
//! increase, multiplicative decrease.

use crate::config::MAX_CONNECTIONS_CAP;
use crate::num::{self, clamp};
use vstd::prelude::*;

verus! {

/// Quiet time, in nanoseconds, before one more connection is tried.
pub const RAMP_QUIET: u64 = 45_000_000_000;

/// A door that lets at most `max` connections through at a time.
#[derive(Debug, Clone, Copy, PartialEq, Eq, Structural)]
pub struct Gate {
    max: u64,
    cap: u64,
    active: u64,
    last_shrink: u64,
}

impl Gate {
    /// How many may be inside at once.
    pub closed spec fn max_spec(self) -> u64 {
        self.max
    }

    /// The configured ceiling, which `max` never passes.
    pub closed spec fn cap_spec(self) -> u64 {
        self.cap
    }

    /// How many are inside.
    pub closed spec fn active_spec(self) -> u64 {
        self.active
    }

    /// When the bound last moved, in nanoseconds.
    pub closed spec fn moved_spec(self) -> u64 {
        self.last_shrink
    }

    /// `1 <= max <= cap <= MAX_CONNECTIONS_CAP`, and never more inside than
    /// the ceiling.
    pub open spec fn well_formed(self) -> bool {
        &&& 1 <= self.max_spec() <= self.cap_spec() <= MAX_CONNECTIONS_CAP
        &&& self.active_spec() <= self.cap_spec()
    }

    /// A gate that starts at `max`, moved into `1..=cap`, with nobody inside.
    pub fn new(max: u64, cap: u64, now: u64) -> (r: Gate)
        ensures
            r.well_formed(),
            r.cap_spec() == num::within(cap as int, 1, MAX_CONNECTIONS_CAP as int),
            r.max_spec() == num::within(max as int, 1, r.cap_spec() as int),
            r.active_spec() == 0,
            r.moved_spec() == now,
    {
        let cap: u64 = clamp(cap, 1, MAX_CONNECTIONS_CAP);
        Gate { max: clamp(max, 1, cap), cap, active: 0, last_shrink: now }
    }

    /// How many may be inside at once.
    pub fn max(&self) -> (r: u64)
        ensures
            r == self.max_spec(),
    {
        self.max
    }

    /// The configured ceiling.
    pub fn cap(&self) -> (r: u64)
        ensures
            r == self.cap_spec(),
    {
        self.cap
    }

    /// How many are inside.
    pub fn active(&self) -> (r: u64)
        ensures
            r == self.active_spec(),
    {
        self.active
    }

    /// Goes in if there is room; otherwise the caller waits and tries again.
    pub fn enter(&mut self) -> (r: bool)
        requires
            old(self).well_formed(),
        ensures
            final(self).well_formed(),
            r == (old(self).active_spec() < old(self).max_spec()),
            final(self).active_spec() == old(self).active_spec() + if r { 1int } else { 0 },
            final(self).max_spec() == old(self).max_spec(),
            final(self).cap_spec() == old(self).cap_spec(),
            final(self).moved_spec() == old(self).moved_spec(),
    {
        if self.active < self.max {
            self.active = self.active + 1;
            true
        } else {
            false
        }
    }

    /// Comes out again.
    pub fn leave(&mut self)
        requires
            old(self).well_formed(),
            old(self).active_spec() > 0,
        ensures
            final(self).well_formed(),
            final(self).active_spec() == old(self).active_spec() - 1,
            final(self).max_spec() == old(self).max_spec(),
            final(self).cap_spec() == old(self).cap_spec(),
            final(self).moved_spec() == old(self).moved_spec(),
    {
        self.active = self.active - 1;
    }

    /// Whether there is room right now. Work is not taken from another
    /// connection only to wait outside with it.
    pub fn has_room(&self) -> (r: bool)
        ensures
            r == (self.active_spec() < self.max_spec()),
    {
        self.active < self.max
    }

    /// Halves the bound, never below one, and returns the new one.
    pub fn shrink(&mut self, now: u64) -> (r: u64)
        requires
            old(self).well_formed(),
        ensures
            final(self).well_formed(),
            r == num::max_of(old(self).max_spec() as int / 2, 1),
            final(self).max_spec() == r,
            final(self).cap_spec() == old(self).cap_spec(),
            final(self).active_spec() == old(self).active_spec(),
            final(self).moved_spec() == now,
    {
        let half: u64 = self.max / 2;
        self.max = if half < 1 { 1 } else { half };
        self.last_shrink = now;
        self.max
    }

    /// One connection more if the bound has not moved for `quiet` nanoseconds
    /// and the ceiling leaves room; the new bound if so. Growing counts as a
    /// move: the next step waits for another quiet period.
    pub fn maybe_grow(&mut self, quiet: u64, now: u64) -> (r: Option<u64>)
        requires
            old(self).well_formed(),
        ensures
            final(self).well_formed(),
            final(self).cap_spec() == old(self).cap_spec(),
            final(self).active_spec() == old(self).active_spec(),
            r is Some <==> num::max_of(now - old(self).moved_spec(), 0) >= quiet && old(
                self,
            ).max_spec() < old(self).cap_spec(),
            match r {
                Some(m) => {
                    &&& m == old(self).max_spec() + 1
                    &&& final(self).max_spec() == m
                    &&& final(self).moved_spec() == now
                },
                None => *final(self) == *old(self),
            },
    {
        if now.saturating_sub(self.last_shrink) < quiet {
            return None;
        }
        if self.max >= self.cap {
            return None;
        }
        self.max = self.max + 1;
        self.last_shrink = now;
        Some(self.max)
    }
}

/// A download has between one connection and sixteen, and after a refusal it
/// is three quarters of a minute before one more is tried.
pub proof fn connections_are_between_one_and_sixteen(g: Gate)
    ensures
        g.well_formed() ==> 1 <= g.max_spec() <= 16 && g.cap_spec() <= 16 && g.max_spec()
            <= g.cap_spec() && g.active_spec() <= g.cap_spec(),
        1 <= g.max_spec() <= g.cap_spec() <= 16 && g.active_spec() <= g.cap_spec()
            ==> g.well_formed(),
        RAMP_QUIET == 45 * 1_000_000_000,
{
}

} // verus!
