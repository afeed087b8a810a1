//! When a search must stop: soft and hard deadlines from the clock, and
//! pondering. Deadlines are nanoseconds on a clock the caller reads; the
//! limits a `go` command sets are milliseconds.

use vstd::prelude::*;
use crate::basetypes::Side;
use crate::search::SearchLimits;

verus! {

/// Time kept back from a fixed move time for overheads.
pub const OVERHEAD_MS: u64 = 50;

/// Nanoseconds in a millisecond.
pub const NANOS_PER_MS: u64 = 1_000_000;

/// The search budget, in nanoseconds, that a clock and increment given in
/// milliseconds give: the soft limit is a twentieth of the clock plus three
/// quarters of the increment; the hard limit is the smaller of half the
/// clock and four times the soft limit.
pub open spec fn clock_budget(time_remaining: u64, increment: u64) -> (int, int) {
    let t: int = time_remaining * NANOS_PER_MS;
    let inc: int = increment * NANOS_PER_MS;
    let soft: int = t / 20 + (inc * 3) / 4;
    let half: int = t / 2;
    let hard: int = if half <= soft * 4 { half } else { soft * 4 };
    (soft, hard)
}

/// `now + d`, held at the clock's largest value.
pub open spec fn later(now: u64, d: int) -> u64 {
    if now + d > u64::MAX {
        u64::MAX
    } else {
        (now + d) as u64
    }
}

/// The deadlines a set of limits gives a search started at `now` by `side`.
pub open spec fn deadlines(limits: SearchLimits, side: Side, now: u64) -> Option<(u64, u64)> {
    match limits.movetime {
        Some(movetime) => {
            let budget_ms = if movetime > OVERHEAD_MS + 1 { movetime - OVERHEAD_MS } else { 1 };
            let budget: int = budget_ms * NANOS_PER_MS;
            Some((later(now, budget), later(now, budget)))
        },
        None => {
            let clock = match side {
                Side::White => limits.wtime,
                Side::Black => limits.btime,
            };
            let inc = match side {
                Side::White => limits.winc,
                Side::Black => limits.binc,
            };
            match clock {
                Some(t) => {
                    let (soft, hard) = clock_budget(t, match inc {
                        Some(i) => i,
                        None => 0,
                    });
                    Some((later(now, soft), later(now, hard)))
                },
                None => None,
            }
        },
    }
}

/// When the current search must stop. While pondering nothing is ever
/// exceeded; `None` limits mean no bound.
#[derive(Debug, Clone, Copy, PartialEq, Eq, Structural)]
pub struct TimeCutoffs {
    pub soft_limit: Option<u64>,
    pub hard_limit: Option<u64>,
    pub pondering: bool,
    pub started_at: u64,
}

fn add_ns(now: u64, d: u128) -> (r: u64)
    requires
        d < 0x1_0000_0000_0000_0000_0000_0000,
    ensures
        r == later(now, d as int),
{
    let sum: u128 = now as u128 + d;
    if sum > u64::MAX as u128 {
        u64::MAX
    } else {
        sum as u64
    }
}

impl TimeCutoffs {
    /// The cutoffs of a search started at `now` by `active_side`; `None` when
    /// there is nothing to manage (not pondering, and no clock or move time).
    pub fn from_search_limit(limits: &SearchLimits, active_side: Side, now: u64) -> (r: Option<TimeCutoffs>)
        ensures
            match deadlines(*limits, active_side, now) {
                Some((soft, hard)) => r == Some(
                    TimeCutoffs { soft_limit: Some(soft), hard_limit: Some(hard), pondering: limits.ponder, started_at: now },
                ),
                None => if limits.ponder {
                    r == Some(TimeCutoffs { soft_limit: None, hard_limit: None, pondering: true, started_at: now })
                } else {
                    r is None
                },
            },
    {
        let (soft, hard): (Option<u64>, Option<u64>) = match limits.movetime {
            Some(movetime) => {
                let budget_ms = if movetime > OVERHEAD_MS + 1 { movetime - OVERHEAD_MS } else { 1 };
                let budget: u128 = budget_ms as u128 * NANOS_PER_MS as u128;
                (Some(add_ns(now, budget)), Some(add_ns(now, budget)))
            },
            None => {
                let clock = match active_side {
                    Side::White => limits.wtime,
                    Side::Black => limits.btime,
                };
                let inc = match active_side {
                    Side::White => limits.winc,
                    Side::Black => limits.binc,
                };
                match clock {
                    Some(time_remaining) => {
                        let increment = match inc {
                            Some(i) => i,
                            None => 0,
                        };
                        let t: u128 = time_remaining as u128 * NANOS_PER_MS as u128;
                        let inc: u128 = increment as u128 * NANOS_PER_MS as u128;
                        let soft: u128 = t / 20 + (inc * 3) / 4;
                        let half: u128 = t / 2;
                        let hard: u128 = if half <= soft * 4 { half } else { soft * 4 };
                        (Some(add_ns(now, soft)), Some(add_ns(now, hard)))
                    },
                    None => (None, None),
                }
            },
        };
        if !limits.ponder && soft.is_none() {
            return None;
        }
        Some(TimeCutoffs { soft_limit: soft, hard_limit: hard, pondering: limits.ponder, started_at: now })
    }

    /// The cutoffs after a ponder hit at `now`: unchanged unless pondering;
    /// else pondering ends and both deadlines move out by the time pondered.
    pub open spec fn after_ponder_hit(self, now: u64) -> TimeCutoffs {
        if !self.pondering {
            self
        } else {
            let pondered = if now >= self.started_at { now - self.started_at } else { 0 };
            TimeCutoffs {
                soft_limit: match self.soft_limit {
                    Some(l) => Some(later(l, pondered)),
                    None => None,
                },
                hard_limit: match self.hard_limit {
                    Some(l) => Some(later(l, pondered)),
                    None => None,
                },
                pondering: false,
                started_at: self.started_at,
            }
        }
    }

    /// The opponent played the pondered move: stop pondering and push both
    /// deadlines out by the time spent pondering.
    pub fn ponder_hit(&mut self, now: u64)
        ensures
            *final(self) == old(self).after_ponder_hit(now),
            !old(self).pondering ==> *final(self) == *old(self),
            old(self).pondering ==> ({
                let pondered = if now >= old(self).started_at { now - old(self).started_at } else { 0 };
                &&& !final(self).pondering
                &&& final(self).started_at == old(self).started_at
                &&& final(self).soft_limit == (match old(self).soft_limit {
                    Some(l) => Some(later(l, pondered)),
                    None => None,
                })
                &&& final(self).hard_limit == (match old(self).hard_limit {
                    Some(l) => Some(later(l, pondered)),
                    None => None,
                })
            }),
    {
        if !self.pondering {
            return;
        }
        self.pondering = false;
        let pondered = now.saturating_sub(self.started_at);
        if let Some(limit) = self.soft_limit {
            self.soft_limit = Some(add_ns(limit, pondered as u128));
        }
        if let Some(limit) = self.hard_limit {
            self.hard_limit = Some(add_ns(limit, pondered as u128));
        }
    }

    pub fn is_pondering(&self) -> (r: bool)
        ensures
            r == self.pondering,
    {
        self.pondering
    }

    /// Past the soft deadline at `now` (never while pondering).
    pub fn exceeded_soft(&self, now: u64) -> (r: bool)
        ensures
            r == (!self.pondering && (self.soft_limit matches Some(l) && now > l)),
    {
        !self.pondering && match self.soft_limit {
            Some(limit) => now > limit,
            None => false,
        }
    }

    /// Past the hard deadline at `now` (never while pondering).
    pub fn exceeded_hard(&self, now: u64) -> (r: bool)
        ensures
            r == (!self.pondering && (self.hard_limit matches Some(l) && now > l)),
    {
        !self.pondering && match self.hard_limit {
            Some(limit) => now > limit,
            None => false,
        }
    }
}

/// The limits with the two sides' clocks and increments exchanged.
pub open spec fn colours_swapped(l: SearchLimits) -> SearchLimits {
    SearchLimits { wtime: l.btime, btime: l.wtime, winc: l.binc, binc: l.winc, ..l }
}

/// The deadlines do not depend on the colour to move: Black with its clock
/// and increment gets exactly what White gets with the same clock and
/// increment.
pub proof fn lemma_deadlines_colour_symmetric(limits: SearchLimits, now: u64)
    ensures
        deadlines(limits, Side::Black, now) == deadlines(colours_swapped(limits), Side::White, now),
        deadlines(limits, Side::White, now) == deadlines(colours_swapped(limits), Side::Black, now),
{
}

/// On a clock without a fixed move time, a side with `t` ms left and an
/// increment of `inc` ms is given, after `now`, a soft budget of a twentieth
/// of its clock plus three quarters of its own increment, and a hard budget
/// of the smaller of half its clock and four soft budgets, in nanoseconds.
pub proof fn lemma_clock_deadlines(limits: SearchLimits, now: u64, t: u64, inc: u64)
    requires
        limits.movetime is None,
        limits.wtime == Some(t),
        limits.winc == Some(inc),
    ensures
        ({
            let soft = t * 1_000_000 / 20 + inc * 1_000_000 * 3 / 4;
            let hard = if t * 1_000_000 / 2 <= 4 * soft { t * 1_000_000 / 2 } else { 4 * soft };
            &&& deadlines(limits, Side::White, now) == Some((later(now, soft), later(now, hard)))
            &&& deadlines(colours_swapped(limits), Side::Black, now) == Some((later(now, soft), later(now, hard)))
        }),
{
}

/// A fixed move time of `m` ms overrides the clocks: both deadlines are
/// `m` ms less the 50 ms kept back for overheads, at least 1 ms, after `now`,
/// whichever side is to move.
pub proof fn lemma_movetime_deadlines(limits: SearchLimits, side: Side, now: u64, m: u64)
    requires
        limits.movetime == Some(m),
    ensures
        ({
            let budget = if m > 51 { (m - 50) * 1_000_000 } else { 1_000_000 };
            deadlines(limits, side, now) == Some((later(now, budget), later(now, budget)))
        }),
{
}

/// Time spent pondering is not charged: after a ponder hit at `now`, each
/// deadline is as far from `now` as it was from the search's start.
pub proof fn lemma_ponder_hit_keeps_budget(c: TimeCutoffs, now: u64)
    requires
        c.pondering,
        c.started_at <= now,
    ensures
        !c.after_ponder_hit(now).pondering,
        c.soft_limit matches Some(l) ==> (l + (now - c.started_at) <= u64::MAX ==> c.after_ponder_hit(now).soft_limit
            == Some((l + (now - c.started_at)) as u64)),
        c.hard_limit matches Some(l) ==> (l + (now - c.started_at) <= u64::MAX ==> c.after_ponder_hit(now).hard_limit
            == Some((l + (now - c.started_at)) as u64)),
        c.soft_limit is None ==> c.after_ponder_hit(now).soft_limit is None,
        c.hard_limit is None ==> c.after_ponder_hit(now).hard_limit is None,
{
}

} // verus!
