//! Keeping the plan up to date: tasks come and go, and time passes.

use crate::clock::{clock_shows, read_clock};
use crate::db::{CTask, Db, DbView, Period, TimelineError};
use crate::scheduler::{ScheduleView, SlotView, Time};
use vstd::prelude::*;

verus! {

impl DbView {
    /// The latest end of a working period among the first `n` tasks.
    pub open spec fn latest_end(self, n: int) -> Option<Time>
        decreases n,
    {
        if n <= 0 {
            None
        } else {
            let end = self.schedule.tasks[n - 1].1.working_period.end;
            match self.latest_end(n - 1) {
                Some(latest) => if latest >= end {
                    Some(latest)
                } else {
                    Some(end)
                },
                None => Some(end),
            }
        }
    }

    /// How far the timeline is to reach at the instant `now`: to the latest
    /// end of a working period, or to `now` where there is no task.
    pub open spec fn horizon(self, now: Time) -> Time {
        match self.latest_end(self.schedule.tasks.len() as int) {
            Some(latest) => latest,
            None => now,
        }
    }

    /// Whether `after` is this database once what lies in the past at the
    /// instant `now` is removed and the tasks are placed anew: the settings
    /// and the tasks are the same, the periods left are those that end after
    /// `now`, and the schedule is the one with the slots that do not end
    /// before `now`, once its tasks are placed.
    pub open spec fn tidied(self, now: Time, after: Self) -> bool {
        &&& after.same_settings(self)
        &&& after.schedule.tasks == self.schedule.tasks
        &&& forall|p: Period|
            #![trigger after.timeline.contains(p)]
            #![trigger self.timeline.contains(p)]
            after.timeline.contains(p) <==> self.timeline.contains(p) && p.0.end > now
        &&& exists|pruned: ScheduleView<CTask>|
            pruned.wf() && #[trigger] self.schedule.pruned_to(now, pruned) && after.schedule
                == pruned.scheduled()
    }

    /// Whether `after` has the settings, the timeline and the slot instants
    /// of this database.
    pub open spec fn same_layout(self, after: Self) -> bool {
        &&& after.same_settings(self)
        &&& after.timeline == self.timeline
        &&& after.schedule.slots.len() == self.schedule.slots.len()
        &&& forall|i: int|
            0 <= i < self.schedule.slots.len() ==> (#[trigger] after.schedule.slots[i]).time
                == self.schedule.slots[i].time
    }
}

impl Db {
    /// How far the timeline is to reach at the instant `now`.
    pub fn horizon(&self, now: Time) -> (target: Time)
        ensures
            target == self@.horizon(now),
    {
        let mut latest: Option<Time> = None;
        let mut k: usize = 0;
        while k < self.schedule.task_count()
            invariant
                k <= self@.schedule.tasks.len(),
                latest == self@.latest_end(k as int),
            decreases self@.schedule.tasks.len() - k,
        {
            let end = self.schedule.task_at(k).working_period.end;
            latest = match latest {
                Some(so_far) => if so_far >= end {
                    Some(so_far)
                } else {
                    Some(end)
                },
                None => Some(end),
            };
            k = k + 1;
        }
        match latest {
            Some(latest) => latest,
            None => now,
        }
    }

    /// Perform housekeeping tasks to clean up old slots and such, as
    /// [`Db::housekeeping`] does when the clock shows `now`: the timeline is
    /// laid out up to the latest end of a working period, the slots and the
    /// periods that lie in the past are removed, and the tasks are placed
    /// anew. Returns what laying out the timeline returned.
    pub fn housekeeping_at(&mut self, now: Time) -> (r: Result<Time, TimelineError>)
        ensures
            final(self)@.wf(),
            final(self)@.schedule.settled(),
            exists|laid: DbView|
                old(self)@.laid_out_locally(laid, now, old(self)@.horizon(now), r) && #[trigger] laid.tidied(
                    now,
                    final(self)@,
                ),
    {
        let target = self.horizon(now);
        let reached = self.create_slots_from(now, target);
        let ghost laid = self@;
        let mut schedule = self.take_schedule();
        schedule.remove_old_slots(now);
        let ghost pruned = schedule@;
        let _ = schedule.schedule();
        self.set_schedule(schedule);
        self.remove_old_states(now);
        proof {
            assert(laid.schedule.pruned_to(now, pruned) && self@.schedule == pruned.scheduled());
            assert(laid.tidied(now, self@));
        }
        reached
    }

    /// Perform housekeeping tasks to clean up old slots and such, at the
    /// instant that the clock shows.
    pub fn housekeeping(&mut self) -> (r: Result<Time, TimelineError>)
        ensures
            final(self)@.wf(),
            final(self)@.same_settings(old(self)@),
            final(self)@.schedule.tasks == old(self)@.schedule.tasks,
            final(self)@.schedule.settled(),
            exists|now: Time, laid: DbView|
                clock_shows(now) && old(self)@.laid_out_locally(
                    laid,
                    now,
                    old(self)@.horizon(now),
                    r,
                ) && #[trigger] laid.tidied(now, final(self)@),
    {
        let now = read_clock();
        let r = self.housekeeping_at(now);
        proof {
            let laid = choose|laid: DbView|
                old(self)@.laid_out_locally(laid, now, old(self)@.horizon(now), r) && #[trigger] laid.tidied(
                    now,
                    self@,
                );
            old(self)@.lemma_grown_keeps(laid, now, old(self)@.horizon(now));
        }
        r
    }

    /// Insert a task and ensure we've done our best to schedule it, as
    /// [`Db::insert_task`] does when the clock shows `now`: the timeline is
    /// laid out up to the end of its working period, the task is entered under
    /// the ID, in place of the one that has it if there is one, and the tasks
    /// are placed anew. Returns what laying out the timeline returned: the
    /// instant at which it would go on, at or after the end of the working
    /// period, or why it did not get that far.
    pub fn insert_task_at(&mut self, id: String, task: CTask, now: Time) -> (r: Result<
        Time,
        TimelineError,
    >)
        ensures
            final(self)@.wf(),
            final(self)@.schedule.settled(),
            exists|laid: DbView|
                #[trigger] old(self)@.laid_out_locally(laid, now, task.working_period.end, r)
                    && laid.same_layout(final(self)@) && final(self)@.schedule
                    == laid.schedule.with_tasks(final(self)@.schedule.tasks).scheduled(),
            if old(self)@.schedule.has_task(id@) {
                exists|k: int|
                    0 <= k < old(self)@.schedule.tasks.len() && (
                    #[trigger] old(self)@.schedule.tasks[k]).0 == id@ && final(self)@.schedule.tasks
                        == old(self)@.schedule.tasks.update(k, (id@, task))
            } else {
                final(self)@.schedule.tasks == old(self)@.schedule.tasks.push((id@, task))
            },
    {
        let ghost wanted = (id@, task);
        let reached = self.create_slots_from(now, task.working_period.end);
        let ghost laid = self@;
        proof {
            old(self)@.lemma_grown_keeps(laid, now, task.working_period.end);
        }
        let mut schedule = self.take_schedule();
        let _ = schedule.add_task(id, task);
        let ghost entered = schedule@;
        let _ = schedule.schedule();
        self.set_schedule(schedule);
        proof {
            assert(laid.same_layout(self@));
            assert(entered == laid.schedule.with_tasks(entered.tasks));
            assert(self@.schedule == laid.schedule.with_tasks(self@.schedule.tasks).scheduled());
            if old(self)@.schedule.has_task(wanted.0) {
                let k = choose|k: int|
                    0 <= k < laid.schedule.tasks.len() && (#[trigger] laid.schedule.tasks[k]).0
                        == wanted.0 && entered.tasks == laid.schedule.tasks.update(k, wanted);
                assert(old(self)@.schedule.tasks[k].0 == wanted.0);
            }
        }
        reached
    }

    /// Insert a task and ensure we've done our best to schedule it, at the
    /// instant that the clock shows.
    pub fn insert_task(&mut self, id: String, task: CTask) -> (r: Result<Time, TimelineError>)
        ensures
            final(self)@.wf(),
            final(self)@.schedule.settled(),
            exists|now: Time, laid: DbView|
                clock_shows(now) && #[trigger] old(self)@.laid_out_locally(
                    laid,
                    now,
                    task.working_period.end,
                    r,
                ) && laid.same_layout(final(self)@) && final(self)@.schedule
                    == laid.schedule.with_tasks(final(self)@.schedule.tasks).scheduled(),
            if old(self)@.schedule.has_task(id@) {
                exists|k: int|
                    0 <= k < old(self)@.schedule.tasks.len() && (
                    #[trigger] old(self)@.schedule.tasks[k]).0 == id@ && final(self)@.schedule.tasks
                        == old(self)@.schedule.tasks.update(k, (id@, task))
            } else {
                final(self)@.schedule.tasks == old(self)@.schedule.tasks.push((id@, task))
            },
    {
        let now = read_clock();
        self.insert_task_at(id, task, now)
    }

    /// Remove a task from the schedule: its slots are emptied, the task is
    /// taken out of the table, and the others are placed anew.
    pub fn remove_task(&mut self, id: &String) -> (removed: Option<CTask>)
        ensures
            final(self)@.wf(),
            final(self)@.schedule.settled(),
            old(self)@.same_layout(final(self)@),
            final(self)@.schedule == old(self)@.schedule.released(id@).with_tasks(
                final(self)@.schedule.tasks,
            ).scheduled(),
            match removed {
                Some(gone) => exists|k: int|
                    0 <= k < old(self)@.schedule.tasks.len() && #[trigger] old(self)@.schedule.tasks[k]
                        == (id@, gone) && final(self)@.schedule.tasks
                        == old(self)@.schedule.tasks.remove(k),
                None => !old(self)@.schedule.has_task(id@) && final(self)@.schedule.tasks == old(
                    self,
                )@.schedule.tasks,
            },
    {
        let mut schedule = self.take_schedule();
        schedule.release(id);
        let removed = schedule.drop_task(id);
        let ghost dropped = schedule@;
        let _ = schedule.schedule();
        proof {
            assert(dropped == old(self)@.schedule.released(id@).with_tasks(dropped.tasks));
        }
        self.set_schedule(schedule);
        removed
    }

    /// Enters a task without placing it, as when a stored database is read
    /// back. Returns the task that had the ID.
    pub fn load_task(&mut self, id: String, task: CTask) -> (replaced: Option<CTask>)
        ensures
            final(self)@.wf(),
            old(self)@.same_layout(final(self)@),
            final(self)@.schedule.slots == old(self)@.schedule.slots,
            match replaced {
                Some(gone) => exists|k: int|
                    0 <= k < old(self)@.schedule.tasks.len() && #[trigger] old(self)@.schedule.tasks[k]
                        == (id@, gone) && final(self)@.schedule.tasks
                        == old(self)@.schedule.tasks.update(k, (id@, task)),
                None => !old(self)@.schedule.has_task(id@) && final(self)@.schedule.tasks == old(
                    self,
                )@.schedule.tasks.push((id@, task)),
            },
    {
        let mut schedule = self.take_schedule();
        let replaced = schedule.add_task(id, task);
        self.set_schedule(schedule);
        replaced
    }

    /// Opens a slot at `time` and places `task` on it, as when a stored
    /// database is read back. A slot that is there already is given to
    /// `task`.
    pub fn load_slot(&mut self, time: Time, task: Option<String>)
        ensures
            final(self)@.wf(),
            final(self)@.same_settings(old(self)@),
            final(self)@.timeline == old(self)@.timeline,
            final(self)@.schedule.tasks == old(self)@.schedule.tasks,
            final(self)@.schedule.slots.contains(SlotView { time, task: task.deep_view() }),
            forall|s: SlotView|
                s.time != time ==> (final(self)@.schedule.slots.contains(s) <==> old(
                    self,
                )@.schedule.slots.contains(s)),
            forall|s: SlotView|
                #[trigger] final(self)@.schedule.slots.contains(s) && s.time == time ==> s.task
                    == task.deep_view(),
    {
        let mut schedule = self.take_schedule();
        schedule.place(time, task);
        self.set_schedule(schedule);
    }
}

} // verus!
