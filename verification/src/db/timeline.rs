//! The timeline: the periods of the cadence, laid out day by day over the
//! active part of each day.

use crate::clock::{clock_shows, local_add_days, local_with_time, read_clock};
use crate::db::{Db, DbView, Period, TimelineError};
use crate::pomodoro::Pomodoro;
use crate::scheduler::Time;
use std::ops::Range;
use vstd::prelude::*;

verus! {

/// The local days from the end of a period to the start of the active period
/// that follows a turn of the day.
pub const DAYS_TO_NEXT_START: u64 = 1;

impl DbView {
    /// The period recorded last, or the long break where none is.
    pub open spec fn last_state(self) -> Pomodoro {
        if self.timeline.len() == 0 {
            Pomodoro::LongBreak
        } else {
            self.timeline.last().1
        }
    }

    /// Where laying out goes on at the instant `now`: at the end of the
    /// timeline (the epoch, where it is empty), or at `now` if that is later.
    pub open spec fn start_cursor(self, now: Time) -> Time {
        let end = match self.timeline_end() {
            Some(end) => end,
            None => 0,
        };
        if end > now {
            end
        } else {
            now
        }
    }

    /// Whether period `j` lasts as long as the settings say and goes on from
    /// the cursor and the state before it: it starts at the cursor and follows
    /// the state in the cadence or, unless it is the first period laid out, it
    /// starts later, after a turn of the day, and follows the long break.
    pub open spec fn laid_out(self, j: int, first: bool, cursor: Time, state: Pomodoro) -> bool {
        let period = self.timeline[j];
        &&& period.0.end == period.0.start + self.period_length(period.1)
        &&& (period.0.start == cursor && period.1 == state.next(self.break_interval)) || (!first
            && period.0.start > cursor && period.1 == Pomodoro::LongBreak.next(
            self.break_interval,
        ))
    }

    /// The starts of the work slices among the periods from `from` on.
    pub open spec fn work_starts(self, from: int) -> Set<Time> {
        Set::new(
            |t: Time|
                exists|j: int|
                    from <= j < self.timeline.len() && (#[trigger] self.timeline[j]).1 is Work
                        && self.timeline[j].0.start == t,
        )
    }

    /// Whether `after` is this database with its timeline laid out further,
    /// at the instant `now` and towards `target`: the settings and the tasks
    /// are the same, the timeline goes on with periods that start before
    /// `target`, each laid out from the one before it, and the slots are
    /// those of this database with an empty slot at the start of every work
    /// slice that was added.
    #[verifier::opaque]
    pub open spec fn grown_to(self, after: Self, now: Time, target: Time) -> bool {
        let n = self.timeline.len() as int;
        &&& after.same_settings(self)
        &&& after.timeline.len() >= n
        &&& after.timeline.take(n) == self.timeline
        &&& forall|j: int|
            n <= j < after.timeline.len() ==> (#[trigger] after.timeline[j]).0.start < target
                && after.laid_out(
                j,
                j == n,
                if j == n {
                    self.start_cursor(now)
                } else {
                    after.timeline[j - 1].0.end
                },
                if j == n {
                    self.last_state()
                } else {
                    after.timeline[j - 1].1
                },
            )
        &&& self.schedule.seeded_with(after.work_starts(n), after.schedule)
    }
}

impl DbView {
    /// Whether laying out, which has made `after` of this database, stands at
    /// `cursor` after a period `state`: where nothing was added, at the start
    /// cursor after the last state; else at the end of the last period after
    /// that period, or later, after a turn of the day and a long break.
    pub open spec fn stands_at(self, after: Self, now: Time, cursor: Time, state: Pomodoro) -> bool {
        if after.timeline.len() == self.timeline.len() {
            cursor == self.start_cursor(now) && state == self.last_state()
        } else {
            (cursor == after.timeline.last().0.end && state == after.timeline.last().1) || (cursor
                > after.timeline.last().0.end && state == Pomodoro::LongBreak)
        }
    }

    /// Whether `after` and `r` are what laying out the timeline of this
    /// database gives, at the instant `now` and towards `target`.
    ///
    /// The timeline is laid out further. Where laying out starts at or after
    /// the target, nothing changes and the start is returned. A cursor that
    /// is returned is at or after the target, and is where laying out stands.
    /// `OutOfRange` comes where laying out stands before the target and no
    /// period can be opened there; `Unresolved` comes only after a period
    /// was added, the calendar having given no place to go on.
    pub open spec fn laid_out_to(
        self,
        after: Self,
        now: Time,
        target: Time,
        r: Result<Time, TimelineError>,
    ) -> bool {
        &&& self.grown_to(after, now, target)
        &&& self.start_cursor(now) >= target ==> r == Ok::<Time, TimelineError>(
            self.start_cursor(now),
        ) && after == self
        &&& match r {
            Ok(cursor) => cursor >= target && exists|state: Pomodoro|
                #[trigger] self.stands_at(after, now, cursor, state),
            Err(TimelineError::OutOfRange) => exists|cursor: Time, state: Pomodoro|
                #[trigger] self.stands_at(after, now, cursor, state) && cursor < target
                    && !after.can_open(cursor, state),
            Err(TimelineError::Unresolved) => after.timeline.len() > self.timeline.len(),
        }
    }
}

impl DbView {
    /// The starts of the work slices after one more period was laid out.
    pub proof fn lemma_work_starts_push(self, after: Self, from: int, period: Period)
        requires
            0 <= from <= self.timeline.len(),
            after.timeline == self.timeline.push(period),
        ensures
            after.work_starts(from) == if period.1 is Work {
                self.work_starts(from).union(set![period.0.start])
            } else {
                self.work_starts(from)
            },
    {
        let m = self.timeline.len() as int;
        let wanted = if period.1 is Work {
            self.work_starts(from).union(set![period.0.start])
        } else {
            self.work_starts(from)
        };
        assert forall|t: Time| after.work_starts(from).contains(t) implies wanted.contains(t) by {
            let j = choose|j: int|
                from <= j < after.timeline.len() && (#[trigger] after.timeline[j]).1 is Work
                    && after.timeline[j].0.start == t;
            if j < m {
                assert(self.timeline[j] == after.timeline[j]);
            }
        }
        assert forall|t: Time| wanted.contains(t) implies after.work_starts(from).contains(t) by {
            if self.work_starts(from).contains(t) {
                let j = choose|j: int|
                    from <= j < self.timeline.len() && (#[trigger] self.timeline[j]).1 is Work
                        && self.timeline[j].0.start == t;
                assert(after.timeline[j] == self.timeline[j]);
            } else {
                assert(after.timeline[m] == period);
            }
        }
        assert(after.work_starts(from) =~= wanted);
    }

    /// A timeline is laid out further where nothing is added to it.
    pub proof fn lemma_grown_by_nothing(self, now: Time, target: Time)
        ensures
            self.grown_to(self, now, target),
    {
        reveal(DbView::grown_to);
        let n = self.timeline.len() as int;
        assert(self.timeline.take(n) =~= self.timeline);
        assert(self.work_starts(n) =~= Set::empty());
    }

    /// What laying out further keeps: the settings and the tasks, and the
    /// periods that were there.
    pub proof fn lemma_grown_keeps(self, after: Self, now: Time, target: Time)
        requires
            self.grown_to(after, now, target),
        ensures
            after.same_settings(self),
            after.schedule.tasks == self.schedule.tasks,
            after.timeline.len() >= self.timeline.len(),
            forall|j: int| 0 <= j < self.timeline.len() ==> #[trigger] after.timeline[j] == self.timeline[j],
    {
        reveal(DbView::grown_to);
        assert forall|j: int| 0 <= j < self.timeline.len() implies #[trigger] after.timeline[j]
            == self.timeline[j] by {
            assert(after.timeline.take(self.timeline.len() as int)[j] == after.timeline[j]);
        }
    }

    /// A timeline that was laid out further, and then by one more period from
    /// where laying out had got to, was laid out further.
    pub proof fn lemma_grown_by_period(
        self,
        before: Self,
        after: Self,
        now: Time,
        target: Time,
        cursor: Time,
        state: Pomodoro,
    )
        requires
            self.grown_to(before, now, target),
            before.can_open(cursor, state),
            before.opened(cursor, state, after),
            cursor < target,
            if before.timeline.len() == self.timeline.len() {
                cursor == self.start_cursor(now) && state == self.last_state()
            } else {
                (cursor == before.timeline.last().0.end && state == before.timeline.last().1) || (
                cursor > before.timeline.last().0.end && state == Pomodoro::LongBreak)
            },
        ensures
            self.grown_to(after, now, target),
            after.timeline.len() == before.timeline.len() + 1,
            after.timeline.last() == (
                cursor..(cursor + before.period_length(state.next(before.break_interval))) as Time,
                state.next(before.break_interval),
            ),
    {
        reveal(DbView::grown_to);
        let n = self.timeline.len() as int;
        let m = before.timeline.len() as int;
        let entered = state.next(before.break_interval);
        let end = (cursor + before.period_length(entered)) as Time;
        let period = (cursor..end, entered);
        assert(after.timeline.len() == m + 1);
        assert(after.timeline[m] == period);
        assert(after.timeline.take(n) =~= self.timeline) by {
            assert forall|j: int| 0 <= j < n implies after.timeline.take(n)[j] == self.timeline[j] by {
                assert(before.timeline.take(n)[j] == before.timeline[j]);
            }
        }
        assert forall|j: int| n <= j < after.timeline.len() implies (#[trigger] after.timeline[j]).0.start
            < target && after.laid_out(
            j,
            j == n,
            if j == n {
                self.start_cursor(now)
            } else {
                after.timeline[j - 1].0.end
            },
            if j == n {
                self.last_state()
            } else {
                after.timeline[j - 1].1
            },
        ) by {
            if j < m {
                assert(after.timeline[j] == before.timeline[j]);
                assert(before.laid_out(
                    j,
                    j == n,
                    if j == n {
                        self.start_cursor(now)
                    } else {
                        before.timeline[j - 1].0.end
                    },
                    if j == n {
                        self.last_state()
                    } else {
                        before.timeline[j - 1].1
                    },
                ));
                if j > n {
                    assert(after.timeline[j - 1] == before.timeline[j - 1]);
                }
            } else {
                if m > n {
                    assert(after.timeline[m - 1] == before.timeline.last());
                }
            }
        }
        before.lemma_work_starts_push(after, n, period);
        if entered is Work {
            self.schedule.lemma_seeded_twice(
                before.work_starts(n),
                before.schedule,
                set![cursor],
                after.schedule,
            );
        }
    }
}

/// Where the timeline goes on after a period that ended at `cursor` in
/// `state`, given the end of the active period on that local day and the
/// start of the active period on the next: from the same instant and state
/// while the day is not over, and from the start of the next active period,
/// after a long break, once it is. `None` where the calendar gave no end of
/// the day or, the day being over, no later start.
pub open spec fn resumed(
    cursor: Time,
    state: Pomodoro,
    day_end: Option<Time>,
    next_start: Option<Time>,
) -> Option<(Time, Pomodoro)> {
    match day_end {
        None => None,
        Some(end) => if cursor > end {
            match next_start {
                Some(start) => if start > cursor {
                    Some((start, Pomodoro::LongBreak))
                } else {
                    None
                },
                None => None,
            }
        } else {
            Some((cursor, state))
        },
    }
}

/// Whether the calendar, asked after a period that ended at `end`, gave
/// these answers: `day_end` for the instant on the local day of `end` at
/// which the active period ends, `tomorrow` for the instant one local day
/// after `end`, and `next_start` for the instant on that day at which the
/// active period starts, which is not asked where there is no such day.
pub open spec fn answered<W: Fn(Time, u32) -> Option<Time>, A: Fn(Time, u64) -> Option<Time>>(
    with_time: W,
    add_days: A,
    active_period: Range<u32>,
    end: Time,
    day_end: Option<Time>,
    tomorrow: Option<Time>,
    next_start: Option<Time>,
) -> bool {
    &&& call_ensures(with_time, (end, active_period.end), day_end)
    &&& call_ensures(add_days, (end, DAYS_TO_NEXT_START), tomorrow)
    &&& match tomorrow {
        Some(day) => call_ensures(with_time, (day, active_period.start), next_start),
        None => next_start is None,
    }
}

/// Whether `next` is where the timeline goes on after a period that ended at
/// `end` in `state`, by some answers of the calendar.
pub open spec fn turned<W: Fn(Time, u32) -> Option<Time>, A: Fn(Time, u64) -> Option<Time>>(
    with_time: W,
    add_days: A,
    active_period: Range<u32>,
    end: Time,
    state: Pomodoro,
    next: Option<(Time, Pomodoro)>,
) -> bool {
    exists|day_end: Option<Time>, tomorrow: Option<Time>, next_start: Option<Time>|
        #[trigger] answered(with_time, add_days, active_period, end, day_end, tomorrow, next_start)
            && next == resumed(end, state, day_end, next_start)
}

impl DbView {
    /// Whether period `j + 1` goes on from period `j` as the calendar said:
    /// it starts where the timeline goes on after period `j`, and follows
    /// the state from which it goes on.
    pub open spec fn follows_turn<W: Fn(Time, u32) -> Option<Time>, A: Fn(Time, u64) -> Option<Time>>(
        self,
        j: int,
        with_time: W,
        add_days: A,
    ) -> bool {
        exists|state: Pomodoro|
            #[trigger] turned(
                with_time,
                add_days,
                self.active_period,
                self.timeline[j].0.end,
                self.timeline[j].1,
                Some((self.timeline[j + 1].0.start, state)),
            ) && self.timeline[j + 1].1 == state.next(self.break_interval)
    }

    /// Whether every period from `from` on but the last is followed as the
    /// calendar said.
    pub open spec fn turns_kept<W: Fn(Time, u32) -> Option<Time>, A: Fn(Time, u64) -> Option<Time>>(
        self,
        from: int,
        with_time: W,
        add_days: A,
    ) -> bool {
        forall|j: int|
            from <= j < self.timeline.len() - 1 ==> #[trigger] self.follows_turn(
                j,
                with_time,
                add_days,
            )
    }

    /// Whether `r` is how laying out ended after the last period, as the
    /// calendar said: a cursor that is returned is where the timeline goes
    /// on; `Unresolved` comes where the calendar gave no place to go on; and
    /// `OutOfRange` where no period can be opened at the place to go on,
    /// which lies before `target`.
    pub open spec fn ends_as<W: Fn(Time, u32) -> Option<Time>, A: Fn(Time, u64) -> Option<Time>>(
        self,
        target: Time,
        r: Result<Time, TimelineError>,
        with_time: W,
        add_days: A,
    ) -> bool {
        let last = self.timeline.last();
        match r {
            Ok(cursor) => exists|state: Pomodoro|
                #[trigger] turned(
                    with_time,
                    add_days,
                    self.active_period,
                    last.0.end,
                    last.1,
                    Some((cursor, state)),
                ),
            Err(TimelineError::Unresolved) => turned(
                with_time,
                add_days,
                self.active_period,
                last.0.end,
                last.1,
                None,
            ),
            Err(TimelineError::OutOfRange) => exists|cursor: Time, state: Pomodoro|
                #[trigger] turned(
                    with_time,
                    add_days,
                    self.active_period,
                    last.0.end,
                    last.1,
                    Some((cursor, state)),
                ) && cursor < target && !self.can_open(cursor, state),
        }
    }
}

impl DbView {
    /// Whether every period from `from` on but the last is followed as the
    /// calendar of the local time zone said.
    pub closed spec fn locally_kept(self, from: int) -> bool {
        self.turns_kept(from, local_with_time, local_add_days)
    }

    /// Whether `r` is how laying out ended after the last period, as the
    /// calendar of the local time zone said.
    pub closed spec fn locally_ends(self, target: Time, r: Result<Time, TimelineError>) -> bool {
        self.ends_as(target, r, local_with_time, local_add_days)
    }

    /// Whether `after` and `r` are what laying out the timeline of this
    /// database gives, at the instant `now` and towards `target`, with the
    /// calendar of the local time zone: see [`DbView::laid_out_to`],
    /// [`DbView::turns_kept`] and [`DbView::ends_as`].
    pub open spec fn laid_out_locally(
        self,
        after: Self,
        now: Time,
        target: Time,
        r: Result<Time, TimelineError>,
    ) -> bool {
        &&& self.laid_out_to(after, now, target, r)
        &&& after.locally_kept(self.timeline.len() as int)
        &&& after.timeline.len() > self.timeline.len() ==> after.locally_ends(target, r)
    }
}

/// Where the timeline goes on after a period that ended at `cursor` in
/// `state`: see [`resumed`].
pub fn resume(cursor: Time, state: Pomodoro, day_end: Option<Time>, next_start: Option<Time>) -> (r:
    Option<(Time, Pomodoro)>)
    ensures
        r == resumed(cursor, state, day_end, next_start),
{
    match day_end {
        None => None,
        Some(end) => if cursor > end {
            match next_start {
                Some(start) => if start > cursor {
                    Some((start, Pomodoro::LongBreak))
                } else {
                    None
                },
                None => None,
            }
        } else {
            Some((cursor, state))
        },
    }
}

impl Db {
    /// Lays out one more period, the one that follows `state`, at `cursor`,
    /// and opens an empty slot there if it is a work slice. Returns the end of
    /// the period and what it is; `None`, with nothing changed, where the
    /// period would start before the end of the timeline or would end after
    /// the last instant that `Time` holds.
    pub fn open_period(&mut self, cursor: Time, state: Pomodoro) -> (next: Option<(Time, Pomodoro)>)
        ensures
            final(self)@.wf(),
            match next {
                Some((end, entered)) => {
                    &&& old(self)@.can_open(cursor, state)
                    &&& old(self)@.opened(cursor, state, final(self)@)
                    &&& entered == state.next(old(self)@.break_interval)
                    &&& end == cursor + old(self)@.period_length(entered)
                },
                None => !old(self)@.can_open(cursor, state) && final(self)@ == old(self)@,
            },
    {
        proof {
            use_type_invariant(&*self);
        }
        let ghost before = self@;
        let n = self.pomodoro_states.len();
        if n > 0 && self.pomodoro_states[n - 1].0.end > cursor {
            return None;
        }
        let entered = state.tick(self.break_interval);
        let length = self.period_length(entered);
        let end = match cursor.checked_add_unsigned(length) {
            Some(end) => end,
            None => {
                return None;
            },
        };
        let mut schedule = self.take_schedule();
        if entered.is_work() {
            schedule.open_slot(cursor);
        }
        let mut states = self.take_timeline();
        states.push((cursor..end, entered));
        proof {
            assert forall|i: int, j: int| 0 <= i < j < states.len() implies (#[trigger] states[i]).0.end
                <= (#[trigger] states[j]).0.start by {
                if j == n {
                    if i < n - 1 {
                        assert(before.timeline[i].0.end <= before.timeline[n - 1].0.start);
                    }
                }
            }
        }
        self.set_schedule(schedule);
        self.set_timeline(states);
        Some((end, entered))
    }
}

impl Db {
    /// Fill out slots and pomodoro states up to the specified time, at the
    /// instant `now` and with the given calendar: `with_time` gives the
    /// instant on the local day of an instant at which the clock shows a time
    /// of day, and `add_days` the instant some local days after an instant.
    ///
    /// Laying out goes on from the end of the timeline, or from `now` if that
    /// is later, period by period in the cadence, until a period ends at or
    /// after `time`. After every period the calendar is asked for the end of
    /// the active period on the day on which the period ended, and for the
    /// start of the active period one day later. A period that ends after the
    /// active period is followed by a long break, and laying out goes on at
    /// the start of the next active period. Returns the instant at which
    /// laying out would go on.
    pub fn create_slots_with<W: Fn(Time, u32) -> Option<Time>, A: Fn(Time, u64) -> Option<Time>>(
        &mut self,
        now: Time,
        time: Time,
        with_time: W,
        add_days: A,
    ) -> (r: Result<Time, TimelineError>)
        requires
            forall|at: Time, second: u32| #[trigger] call_requires(with_time, (at, second)),
            forall|at: Time, days: u64| #[trigger] call_requires(add_days, (at, days)),
        ensures
            final(self)@.wf(),
            old(self)@.laid_out_to(final(self)@, now, time, r),
            final(self)@.turns_kept(old(self)@.timeline.len() as int, with_time, add_days),
            final(self)@.timeline.len() > old(self)@.timeline.len() ==> final(self)@.ends_as(
                time,
                r,
                with_time,
                add_days,
            ),
    {
        proof {
            use_type_invariant(&*self);
        }
        let ghost base = self@;
        let n = self.pomodoro_states.len();
        let mut state = Pomodoro::LongBreak;
        let mut cursor = now;
        if n > 0 {
            state = self.pomodoro_states[n - 1].1;
            if self.pomodoro_states[n - 1].0.end > now {
                cursor = self.pomodoro_states[n - 1].0.end;
            }
        } else if 0 > now {
            cursor = 0;
        }
        proof {
            base.lemma_grown_by_nothing(now, time);
        }
        while cursor < time
            invariant
                self@.wf(),
                base == old(self)@,
                n == base.timeline.len(),
                base.grown_to(self@, now, time),
                self@.timeline_end() matches Some(end) ==> end <= cursor,
                self@.timeline.len() >= n,
                self@.timeline.len() == n ==> self@ == base,
                self@.timeline.len() > n ==> base.start_cursor(now) < time,
                base.stands_at(self@, now, cursor, state),
                self@.active_period == base.active_period,
                self@.break_interval == base.break_interval,
                forall|at: Time, second: u32| #[trigger] call_requires(with_time, (at, second)),
                forall|at: Time, days: u64| #[trigger] call_requires(add_days, (at, days)),
                self@.turns_kept(n as int, with_time, add_days),
                self@.timeline.len() > n ==> turned(
                    with_time,
                    add_days,
                    self@.active_period,
                    self@.timeline.last().0.end,
                    self@.timeline.last().1,
                    Some((cursor, state)),
                ),
            decreases
                if cursor < time {
                    time - cursor
                } else {
                    0
                },
        {
            let ghost before = self@;
            let (end, entered) = match self.open_period(cursor, state) {
                Some(next) => next,
                None => {
                    proof {
                        assert(base.stands_at(self@, now, cursor, state) && cursor < time
                            && !self@.can_open(cursor, state));
                    }
                    return Err(TimelineError::OutOfRange);
                },
            };
            proof {
                assert(before.period_length(entered) > 0);
                assert(end > cursor);
                base.lemma_grown_keeps(before, now, time);
                base.lemma_grown_by_period(before, self@, now, time, cursor, state);
                let after = self@;
                let m = before.timeline.len() as int;
                assert forall|j: int| n <= j < after.timeline.len() - 1 implies #[trigger] after.follows_turn(
                    j,
                    with_time,
                    add_days,
                ) by {
                    assert(after.timeline[j] == before.timeline[j]);
                    if j < m - 1 {
                        assert(after.timeline[j + 1] == before.timeline[j + 1]);
                        assert(before.follows_turn(j, with_time, add_days));
                    } else {
                        assert(before.timeline[j] == before.timeline.last());
                        assert(turned(
                            with_time,
                            add_days,
                            after.active_period,
                            after.timeline[j].0.end,
                            after.timeline[j].1,
                            Some((after.timeline[j + 1].0.start, state)),
                        ));
                    }
                }
            }
            let day_end = with_time(end, self.active_period.end);
            let tomorrow = add_days(end, DAYS_TO_NEXT_START);
            let next_start = match tomorrow {
                Some(day) => with_time(day, self.active_period.start),
                None => None,
            };
            let next = resume(end, entered, day_end, next_start);
            proof {
                assert(answered(
                    with_time,
                    add_days,
                    self@.active_period,
                    end,
                    day_end,
                    tomorrow,
                    next_start,
                ));
                assert(turned(with_time, add_days, self@.active_period, end, entered, next));
            }
            match next {
                Some((place, then)) => {
                    cursor = place;
                    state = then;
                },
                None => {
                    return Err(TimelineError::Unresolved);
                },
            }
        }
        proof {
            let r = Ok::<Time, TimelineError>(cursor);
            assert(base.stands_at(self@, now, cursor, state));
            assert(base.start_cursor(now) >= time ==> r == Ok::<Time, TimelineError>(
                base.start_cursor(now),
            ) && self@ == base);
            assert(match r {
                Ok(c) => c >= time && exists|state: Pomodoro|
                    #[trigger] base.stands_at(self@, now, c, state),
                Err(_) => false,
            });
        }
        Ok(cursor)
    }

    /// Fill out slots and pomodoro states up to the specified time, as
    /// [`Db::create_slots_up_to`] does when the clock shows `now`: with the
    /// calendar of the local time zone.
    pub fn create_slots_from(&mut self, now: Time, time: Time) -> (r: Result<Time, TimelineError>)
        ensures
            final(self)@.wf(),
            old(self)@.laid_out_locally(final(self)@, now, time, r),
    {
        self.create_slots_with(now, time, local_with_time, local_add_days)
    }

    /// Fill out slots and pomodoro states up to the specified time, from what
    /// the clock shows now.
    pub fn create_slots_up_to(&mut self, time: Time) -> (r: Result<Time, TimelineError>)
        ensures
            final(self)@.wf(),
            exists|now: Time|
                clock_shows(now) && #[trigger] old(self)@.laid_out_locally(
                    final(self)@,
                    now,
                    time,
                    r,
                ),
    {
        let now = read_clock();
        self.create_slots_from(now, time)
    }
}

impl Db {
    /// Removes the periods of the timeline that have ended at the instant
    /// `now`.
    pub fn remove_old_states(&mut self, now: Time)
        ensures
            final(self)@.wf(),
            final(self)@.same_settings(old(self)@),
            final(self)@.schedule == old(self)@.schedule,
            forall|p: Period|
                #![trigger final(self)@.timeline.contains(p)]
                #![trigger old(self)@.timeline.contains(p)]
                final(self)@.timeline.contains(p) <==> old(self)@.timeline.contains(p) && p.0.end
                    > now,
    {
        proof {
            use_type_invariant(&*self);
        }
        let ghost given = self@.timeline;
        let mut states = self.take_timeline();
        let mut cut: usize = 0;
        while cut < states.len() && states[cut].0.end <= now
            invariant
                cut <= states.len(),
                forall|q: int| 0 <= q < cut ==> (#[trigger] states[q]).0.end <= now,
            decreases states.len() - cut,
        {
            cut = cut + 1;
        }
        let kept = states.split_off(cut);
        proof {
            assert forall|i: int| 0 <= i < kept.len() implies #[trigger] kept[i] == given[cut + i] by {}
            assert forall|i: int, j: int| 0 <= i < j < kept.len() implies (#[trigger] kept[i]).0.end
                <= (#[trigger] kept[j]).0.start by {
                assert(given[cut + i].0.end <= given[cut + j].0.start);
            }
            assert forall|i: int| 0 <= i < kept.len() implies (#[trigger] kept[i]).0.start
                < kept[i].0.end by {
                assert(given[cut + i].0.start < given[cut + i].0.end);
            }
            assert forall|p: Period| kept@.contains(p) <==> given.contains(p) && p.0.end > now by {
                if kept@.contains(p) {
                    let i = choose|i: int| 0 <= i < kept.len() && kept[i] == p;
                    assert(given[cut + i] == p);
                    if i > 0 {
                        assert(given[cut as int].0.end <= given[cut + i].0.start);
                    }
                }
                if given.contains(p) && p.0.end > now {
                    let i = choose|i: int| 0 <= i < given.len() && given[i] == p;
                    assert(i >= cut);
                    assert(kept[i - cut] == p);
                }
            }
        }
        self.set_timeline(kept);
    }

    /// Removes every slot and every period, to lay the timeline out anew.
    pub fn clear_timeline(&mut self)
        ensures
            final(self)@.wf(),
            final(self)@.same_settings(old(self)@),
            final(self)@.schedule.tasks == old(self)@.schedule.tasks,
            final(self)@.schedule.slots.len() == 0,
            final(self)@.timeline.len() == 0,
    {
        let mut schedule = self.take_schedule();
        schedule.clear_slots();
        self.set_schedule(schedule);
        let _ = self.take_timeline();
    }

    /// Appends a period to the timeline, as when a stored database is read
    /// back. Says whether it did: a period that ends before it starts, or
    /// that starts before the timeline ends, is left out.
    pub fn load_state(&mut self, span: Range<Time>, state: Pomodoro) -> (done: bool)
        ensures
            final(self)@.wf(),
            final(self)@.same_settings(old(self)@),
            final(self)@.schedule == old(self)@.schedule,
            done <==> span.start < span.end && (old(self)@.timeline_end() matches Some(end) ==> end
                <= span.start),
            final(self)@.timeline == if done {
                old(self)@.timeline.push((span, state))
            } else {
                old(self)@.timeline
            },
    {
        proof {
            use_type_invariant(&*self);
        }
        let n = self.pomodoro_states.len();
        if span.start >= span.end || (n > 0 && self.pomodoro_states[n - 1].0.end > span.start) {
            return false;
        }
        let ghost given = self@.timeline;
        let mut states = self.take_timeline();
        states.push((span, state));
        proof {
            assert forall|i: int, j: int| 0 <= i < j < states.len() implies (#[trigger] states[i]).0.end
                <= (#[trigger] states[j]).0.start by {
                if j == n && i < n - 1 {
                    assert(given[i].0.end <= given[n - 1].0.start);
                }
            }
        }
        self.set_timeline(states);
        true
    }
}

} // verus!
