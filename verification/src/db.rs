//! Wraps the scheduler and the pomodoro timer up together: the schedule, the
//! cadence settings, and the timeline of periods laid out so far.

use crate::pomodoro::Pomodoro;
use crate::scheduler::{Schedule, ScheduleView, Task, Time};
use std::ops::Range;
use vstd::prelude::*;

pub mod search;
pub mod timeline;
pub mod upkeep;

verus! {

/// Constant Task, an implementor of Task with constant fields.
#[derive(PartialEq, Eq, Hash, Debug)]
pub struct CTask {
    /// The priority of the task. Higher priorities are more important.
    pub priority: u32,
    /// The range of times when it is possible to work on the task.
    pub working_period: Range<Time>,
    /// The length of time the task is expected to take, in seconds.
    pub estimated_length: u64,
    /// The amount of time that the user has worked on the task, in seconds.
    pub worked_length: u64,
    /// The human-friendly name of the task.
    pub name: String,
    /// The remote ID of a task, if it has one.
    pub remote_id: Option<String>,
}

impl Task for CTask {
    open spec fn priority_of(&self) -> i64 {
        self.priority as i64
    }

    open spec fn period_of(&self) -> Range<Time> {
        self.working_period
    }

    /// What is left of the estimated length once the worked length is taken
    /// off; nothing where more was worked than estimated.
    open spec fn length_of(&self) -> u64 {
        if self.estimated_length >= self.worked_length {
            (self.estimated_length - self.worked_length) as u64
        } else {
            0
        }
    }

    fn priority(&self) -> (p: i64) {
        self.priority as i64
    }

    fn working_period(&self) -> (w: Range<Time>) {
        self.working_period.start..self.working_period.end
    }

    fn estimated_length(&self) -> (d: u64) {
        self.estimated_length.saturating_sub(self.worked_length)
    }
}

impl Clone for CTask {
    fn clone(&self) -> (copy: Self)
        ensures
            copy == *self,
    {
        CTask {
            priority: self.priority,
            working_period: self.working_period.start..self.working_period.end,
            estimated_length: self.estimated_length,
            worked_length: self.worked_length,
            name: self.name.clone(),
            remote_id: match &self.remote_id {
                Some(id) => Some(id.clone()),
                None => None,
            },
        }
    }
}

/// One period of the timeline: when it runs, and what it is.
pub type Period = (Range<Time>, Pomodoro);

/// Why the timeline could not be laid out further.
#[derive(Clone, Copy, Debug, PartialEq, Eq, Structural)]
pub enum TimelineError {
    /// A period would end after the last instant that `Time` holds, or would
    /// start before the end of the timeline.
    OutOfRange,
    /// The local calendar gave no single instant for the end of the active
    /// period or for the start of the next, or one that is not later.
    Unresolved,
}

/// The database as contracts speak of it.
pub struct DbView {
    /// The schedule.
    pub schedule: ScheduleView<CTask>,
    /// The part of the day to schedule timeslots on, in seconds after local
    /// midnight.
    pub active_period: Range<u32>,
    /// The number of work slices in a cycle.
    pub break_interval: u32,
    /// The length of a short break, in seconds.
    pub short_break: u64,
    /// The length of a long break, in seconds.
    pub long_break: u64,
    /// The periods laid out so far, in time order.
    pub timeline: Seq<Period>,
}

impl DbView {
    /// What a database always satisfies: a cycle has a work slice, every
    /// period has a length, and the periods of the timeline do not start
    /// before they end and follow each other without overlap.
    pub open spec fn wf(self) -> bool {
        &&& self.schedule.wf()
        &&& self.break_interval >= 1
        &&& self.short_break > 0
        &&& self.long_break > 0
        &&& forall|i: int|
            0 <= i < self.timeline.len() ==> (#[trigger] self.timeline[i]).0.start
                < self.timeline[i].0.end
        &&& forall|i: int, j: int|
            0 <= i < j < self.timeline.len() ==> (#[trigger] self.timeline[i]).0.end <= (
            #[trigger] self.timeline[j]).0.start
    }

    /// The two databases have the same settings.
    pub open spec fn same_settings(self, other: Self) -> bool {
        &&& self.active_period == other.active_period
        &&& self.break_interval == other.break_interval
        &&& self.short_break == other.short_break
        &&& self.long_break == other.long_break
        &&& self.schedule.timeslice_length == other.schedule.timeslice_length
    }

    /// The length of a period: a work slice lasts a time slice, a break as
    /// long as the settings say.
    pub open spec fn period_length(self, state: Pomodoro) -> u64 {
        match state {
            Pomodoro::Work(_) => self.schedule.timeslice_length,
            Pomodoro::Break(_) => self.short_break,
            Pomodoro::LongBreak => self.long_break,
        }
    }

    /// The end of the last period of the timeline.
    pub open spec fn timeline_end(self) -> Option<Time> {
        if self.timeline.len() == 0 {
            None
        } else {
            Some(self.timeline.last().0.end)
        }
    }

    /// Whether a period may be laid out at `cursor` after the period `state`:
    /// it does not start before the end of the timeline, and it ends at an
    /// instant that `Time` holds.
    pub open spec fn can_open(self, cursor: Time, state: Pomodoro) -> bool {
        &&& self.timeline_end() matches Some(end) ==> end <= cursor
        &&& cursor + self.period_length(state.next(self.break_interval)) <= i64::MAX
    }

    /// Whether `after` is this database with one more period: the one that
    /// follows `state`, laid out at `cursor`, with an empty slot at `cursor`
    /// if it is a work slice.
    pub open spec fn opened(self, cursor: Time, state: Pomodoro, after: Self) -> bool {
        let entered = state.next(self.break_interval);
        let end = (cursor + self.period_length(entered)) as Time;
        &&& after.same_settings(self)
        &&& after.timeline == self.timeline.push((cursor..end, entered))
        &&& if entered is Work {
            self.schedule.seeded_with(set![cursor], after.schedule)
        } else {
            after.schedule == self.schedule
        }
    }
}

/// The database: the schedule, the settings of the cadence, and the timeline.
pub struct Db {
    /// The schedule, which in this case operates on [CTask]s.
    schedule: Schedule<CTask>,
    /// The part of the day to schedule timeslots on, in seconds after local
    /// midnight.
    active_period: Range<u32>,
    /// The break interval for the pomodoro techniques.
    break_interval: u32,
    /// The length of a short break, in seconds.
    short_break: u64,
    /// The length of a long break, in seconds.
    long_break: u64,
    /// The list of pomodoro states that have already been created, in time
    /// order.
    pomodoro_states: Vec<Period>,
}

impl View for Db {
    type V = DbView;

    closed spec fn view(&self) -> DbView {
        DbView {
            schedule: self.schedule@,
            active_period: self.active_period,
            break_interval: self.break_interval,
            short_break: self.short_break,
            long_break: self.long_break,
            timeline: self.pomodoro_states@,
        }
    }
}

impl Default for Db {
    /// Time slices of 25 minutes between 9:00 and 17:00, four to a cycle, with
    /// short breaks of 5 minutes and long breaks of 30.
    fn default() -> (db: Db)
        ensures
            db@.wf(),
            db@.schedule.tasks.len() == 0,
            db@.schedule.slots.len() == 0,
            db@.schedule.timeslice_length == 25 * 60,
            db@.active_period.start == 9 * 60 * 60,
            db@.active_period.end == 17 * 60 * 60,
            db@.break_interval == 4,
            db@.short_break == 5 * 60,
            db@.long_break == 30 * 60,
            db@.timeline.len() == 0,
    {
        Db {
            schedule: Schedule::new(25 * 60),
            active_period: 9 * 60 * 60..17 * 60 * 60,
            break_interval: 4,
            short_break: 5 * 60,
            long_break: 30 * 60,
            pomodoro_states: Vec::new(),
        }
    }
}

impl Db {
    #[verifier::type_invariant]
    spec fn inv(&self) -> bool {
        self@.wf()
    }

    /// The schedule that the database holds.
    pub closed spec fn committed(&self) -> Schedule<CTask> {
        self.schedule
    }

    /// The schedule.
    pub fn schedule(&self) -> (schedule: &Schedule<CTask>)
        ensures
            *schedule == self.committed(),
            schedule@ == self@.schedule,
    {
        &self.schedule
    }

    /// The length of a period, in seconds.
    pub fn period_length(&self, state: Pomodoro) -> (length: u64)
        ensures
            length == self@.period_length(state),
            length > 0,
    {
        proof {
            use_type_invariant(self);
        }
        match state {
            Pomodoro::Work(_) => self.schedule.timeslice_length(),
            Pomodoro::Break(_) => self.short_break,
            Pomodoro::LongBreak => self.long_break,
        }
    }

    /// Takes the schedule out, to put it back changed.
    fn take_schedule(&mut self) -> (schedule: Schedule<CTask>)
        ensures
            schedule == old(self).committed(),
            schedule@ == old(self)@.schedule,
            schedule@.wf(),
            final(self)@.same_settings(old(self)@),
            final(self)@.timeline == old(self)@.timeline,
            final(self)@.schedule.tasks.len() == 0,
            final(self)@.schedule.slots.len() == 0,
    {
        proof {
            use_type_invariant(&*self);
        }
        let mut schedule = Schedule::new(self.schedule.timeslice_length());
        let ghost before = self@;
        proof {
            let after = DbView {
                schedule: schedule@,
                active_period: before.active_period,
                break_interval: before.break_interval,
                short_break: before.short_break,
                long_break: before.long_break,
                timeline: before.timeline,
            };
            assert(before.wf());
            assert(schedule@.wf());
            assert(after.wf());
        }
        std::mem::swap(&mut schedule, &mut self.schedule);
        schedule
    }

    /// Puts a schedule in place of the one that is there.
    fn set_schedule(&mut self, schedule: Schedule<CTask>)
        requires
            schedule@.wf(),
        ensures
            final(self)@.wf(),
            final(self).committed() == schedule,
            final(self)@.schedule == schedule@,
            final(self)@.active_period == old(self)@.active_period,
            final(self)@.break_interval == old(self)@.break_interval,
            final(self)@.short_break == old(self)@.short_break,
            final(self)@.long_break == old(self)@.long_break,
            final(self)@.timeline == old(self)@.timeline,
    {
        proof {
            use_type_invariant(&*self);
            let before = self@;
            let after = DbView {
                schedule: schedule@,
                active_period: before.active_period,
                break_interval: before.break_interval,
                short_break: before.short_break,
                long_break: before.long_break,
                timeline: before.timeline,
            };
            assert(before.wf());
            assert(after.wf());
        }
        self.schedule = schedule;
    }

    /// Takes the timeline out, to put it back changed.
    fn take_timeline(&mut self) -> (timeline: Vec<Period>)
        ensures
            timeline@ == old(self)@.timeline,
            final(self)@.same_settings(old(self)@),
            final(self)@.schedule == old(self)@.schedule,
            final(self)@.timeline.len() == 0,
    {
        proof {
            use_type_invariant(&*self);
        }
        let mut timeline = Vec::new();
        std::mem::swap(&mut timeline, &mut self.pomodoro_states);
        timeline
    }

    /// Puts a timeline in place of the one that is there.
    fn set_timeline(&mut self, timeline: Vec<Period>)
        requires
            forall|i: int| 0 <= i < timeline.len() ==> (#[trigger] timeline[i]).0.start < timeline[i].0.end,
            forall|i: int, j: int|
                0 <= i < j < timeline.len() ==> (#[trigger] timeline[i]).0.end <= (
                #[trigger] timeline[j]).0.start,
        ensures
            final(self)@.wf(),
            final(self)@.timeline == timeline@,
            final(self)@.same_settings(old(self)@),
            final(self)@.schedule == old(self)@.schedule,
    {
        proof {
            use_type_invariant(&*self);
        }
        self.pomodoro_states = timeline;
    }
}

impl Db {
    /// A database without tasks, slots or periods. `None` where a cycle
    /// would have no work slice or a period no length.
    pub fn new(
        timeslice_length: u64,
        active_period: Range<u32>,
        break_interval: u32,
        short_break: u64,
        long_break: u64,
    ) -> (db: Option<Db>)
        ensures
            db is Some <==> timeslice_length > 0 && break_interval >= 1 && short_break > 0
                && long_break > 0,
            db matches Some(db) ==> {
                &&& db@.wf()
                &&& db@.schedule.tasks.len() == 0
                &&& db@.schedule.slots.len() == 0
                &&& db@.schedule.timeslice_length == timeslice_length
                &&& db@.active_period == active_period
                &&& db@.break_interval == break_interval
                &&& db@.short_break == short_break
                &&& db@.long_break == long_break
                &&& db@.timeline.len() == 0
            },
    {
        if timeslice_length == 0 || break_interval == 0 || short_break == 0 || long_break == 0 {
            return None;
        }
        Some(
            Db {
                schedule: Schedule::new(timeslice_length),
                active_period,
                break_interval,
                short_break,
                long_break,
                pomodoro_states: Vec::new(),
            },
        )
    }

    /// The part of the day to schedule timeslots on, in seconds after local
    /// midnight.
    pub fn active_period(&self) -> (period: Range<u32>)
        ensures
            period == self@.active_period,
    {
        self.active_period.start..self.active_period.end
    }

    /// The break interval for the pomodoro technique.
    pub fn break_interval(&self) -> (n: u32)
        ensures
            n == self@.break_interval,
            n >= 1,
    {
        proof {
            use_type_invariant(self);
        }
        self.break_interval
    }

    /// The length of a short break, in seconds.
    pub fn short_break(&self) -> (length: u64)
        ensures
            length == self@.short_break,
            length > 0,
    {
        proof {
            use_type_invariant(self);
        }
        self.short_break
    }

    /// The length of a long break, in seconds.
    pub fn long_break(&self) -> (length: u64)
        ensures
            length == self@.long_break,
            length > 0,
    {
        proof {
            use_type_invariant(self);
        }
        self.long_break
    }

    /// The number of periods on the timeline.
    pub fn state_count(&self) -> (n: usize)
        ensures
            n == self@.timeline.len(),
    {
        self.pomodoro_states.len()
    }

    /// Period `i` of the timeline.
    pub fn state_at(&self, i: usize) -> (period: Period)
        requires
            i < self@.timeline.len(),
        ensures
            period == self@.timeline[i as int],
    {
        let period = &self.pomodoro_states[i];
        (period.0.start..period.0.end, period.1)
    }
}

} // verus!
