//! The pomodoro cadence: work slices separated by short breaks, with a long
//! break closing every cycle.

use vstd::prelude::*;

verus! {

/// One period of the cadence.
#[derive(Clone, Copy, Debug, PartialEq, Eq, Structural)]
pub enum Pomodoro {
    /// A work slice. The payload counts the short breaks still to come before
    /// the long break. Becomes `Break(n - 1)`, or `LongBreak` when `n` is 0.
    Work(u32),
    /// A short break. Becomes `Work(n)`.
    Break(u32),
    /// The long break that closes a cycle; the cadence starts here. Becomes
    /// `Work(break_interval - 1)`.
    LongBreak,
}

impl Pomodoro {
    /// The period that follows `self` in a cadence of `break_interval` work
    /// slices per cycle.
    pub open spec fn next(self, break_interval: u32) -> Pomodoro {
        match self {
            Pomodoro::Work(n) => if n == 0 {
                Pomodoro::LongBreak
            } else {
                Pomodoro::Break((n - 1) as u32)
            },
            Pomodoro::Break(n) => Pomodoro::Work(n),
            Pomodoro::LongBreak => Pomodoro::Work((break_interval - 1) as u32),
        }
    }

    /// The period that precedes `self` in a cadence of `break_interval` work
    /// slices per cycle.
    pub open spec fn prev(self, break_interval: u32) -> Pomodoro {
        match self {
            Pomodoro::LongBreak => Pomodoro::Work(0),
            Pomodoro::Break(n) => Pomodoro::Work((n + 1) as u32),
            Pomodoro::Work(n) => if n >= break_interval - 1 {
                Pomodoro::LongBreak
            } else {
                Pomodoro::Break(n)
            },
        }
    }

    /// The periods of one cycle: the long break, the work slices
    /// `Work(0)` to `Work(break_interval - 1)`, and the short breaks between
    /// two work slices, `Break(0)` to `Break(break_interval - 2)`.
    pub open spec fn in_cycle(self, break_interval: u32) -> bool {
        match self {
            Pomodoro::Work(n) => n < break_interval,
            Pomodoro::Break(n) => n + 1 < break_interval,
            Pomodoro::LongBreak => true,
        }
    }

    /// The state reached from the long break by `count` ticks.
    pub open spec fn after_ticks(count: nat, break_interval: u32) -> Pomodoro
        decreases count,
    {
        if count == 0 {
            Pomodoro::LongBreak
        } else {
            Pomodoro::after_ticks((count - 1) as nat, break_interval).next(break_interval)
        }
    }

    /// Return the next pomodoro state.
    #[must_use]
    pub fn tick(self, break_interval: u32) -> (r: Pomodoro)
        requires
            break_interval >= 1,
        ensures
            r == self.next(break_interval),
    {
        match self {
            Pomodoro::Work(n) => if n == 0 {
                Pomodoro::LongBreak
            } else {
                Pomodoro::Break(n - 1)
            },
            Pomodoro::Break(n) => Pomodoro::Work(n),
            Pomodoro::LongBreak => Pomodoro::Work(break_interval - 1),
        }
    }

    /// Returns the previous pomodoro state.
    #[must_use]
    pub fn untick(self, break_interval: u32) -> (r: Pomodoro)
        requires
            break_interval >= 1,
            self matches Pomodoro::Break(n) ==> n < u32::MAX,
        ensures
            r == self.prev(break_interval),
    {
        match self {
            Pomodoro::LongBreak => Pomodoro::Work(0),
            Pomodoro::Break(n) => Pomodoro::Work(n + 1),
            Pomodoro::Work(n) => if n >= break_interval - 1 {
                Pomodoro::LongBreak
            } else {
                Pomodoro::Break(n)
            },
        }
    }

    /// Whether this is a work slice.
    pub fn is_work(self) -> (r: bool)
        ensures
            r == (self is Work),
    {
        match self {
            Pomodoro::Work(_) => true,
            _ => false,
        }
    }

    /// Ticking stays inside the cycle.
    pub proof fn lemma_tick_stays_in_cycle(self, break_interval: u32)
        requires
            break_interval >= 1,
            self.in_cycle(break_interval),
        ensures
            self.next(break_interval).in_cycle(break_interval),
    {
    }

    /// Every state reached from the long break by ticking lies in the cycle.
    pub proof fn lemma_reachable_in_cycle(count: nat, break_interval: u32)
        requires
            break_interval >= 1,
        ensures
            Pomodoro::after_ticks(count, break_interval).in_cycle(break_interval),
        decreases count,
    {
        if count > 0 {
            Pomodoro::lemma_reachable_in_cycle((count - 1) as nat, break_interval);
        }
    }

    /// Unticking undoes a tick, from every state of the cycle.
    pub proof fn lemma_untick_undoes_tick(self, break_interval: u32)
        requires
            break_interval >= 1,
            self.in_cycle(break_interval),
        ensures
            self.next(break_interval).prev(break_interval) == self,
    {
    }

    /// Ticking undoes an untick, from every state of the cycle.
    pub proof fn lemma_tick_undoes_untick(self, break_interval: u32)
        requires
            break_interval >= 1,
            self.in_cycle(break_interval),
        ensures
            self.prev(break_interval).in_cycle(break_interval),
            self.prev(break_interval).next(break_interval) == self,
    {
    }

    /// Unticking undoes a tick from every state that ticking reaches from the
    /// long break.
    pub proof fn lemma_round_trip(count: nat, break_interval: u32)
        requires
            break_interval >= 1,
        ensures
            Pomodoro::after_ticks(count + 1, break_interval).prev(break_interval)
                == Pomodoro::after_ticks(count, break_interval),
    {
        Pomodoro::lemma_reachable_in_cycle(count, break_interval);
        Pomodoro::after_ticks(count, break_interval).lemma_untick_undoes_tick(break_interval);
    }
}

impl Default for Pomodoro {
    /// The cadence starts in the long break.
    fn default() -> (r: Pomodoro)
        ensures
            r == Pomodoro::LongBreak,
    {
        Pomodoro::LongBreak
    }
}

} // verus!
