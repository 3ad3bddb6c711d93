//! The table of tasks, and what the tasks hold.

use crate::scheduler::{count_held, slot_views, Schedule, Slot, Task};
use vstd::prelude::*;

verus! {

impl<T: Task> Schedule<T> {
    /// The number of slots that the task with this ID holds.
    pub fn held_by(&self, id: &String) -> (n: usize)
        ensures
            n == count_held(self@.slots, id@),
    {
        let mut n: usize = 0;
        let mut i: usize = 0;
        while i < self.slots.len()
            invariant
                i <= self.slots.len(),
                self@.slots == slot_views(self.slots@),
                n <= i,
                n == count_held(self@.slots.take(i as int), id@),
            decreases self.slots.len() - i,
        {
            proof {
                assert(self@.slots.take(i + 1).drop_last() =~= self@.slots.take(i as int));
                assert(self@.slots.take(i + 1).last() == self.slots[i as int]@);
            }
            let held = match &self.slots[i].task {
                Some(holder) => *holder == *id,
                None => false,
            };
            if held {
                n = n + 1;
            }
            i = i + 1;
        }
        proof {
            assert(self@.slots.take(self.slots.len() as int) =~= self@.slots);
        }
        n
    }

    /// Tasks which don't have enough slots scheduled to be finished before
    /// their due date: their IDs, in the order of the table.
    #[must_use]
    pub fn unsatisfied_tasks(&self) -> (failed: Vec<String>)
        ensures
            failed.deep_view() == self@.unsatisfied(),
    {
        proof {
            use_type_invariant(self);
        }
        let mut failed: Vec<String> = Vec::new();
        let mut k: usize = 0;
        while k < self.tasks.len()
            invariant
                k <= self.tasks.len(),
                self.tasks.len() == self@.tasks.len(),
                self.timeslice_length == self@.timeslice_length,
                self.timeslice_length > 0,
                failed.deep_view() == self@.unsatisfied_among(k as int),
            decreases self.tasks.len() - k,
        {
            assert(self@.tasks[k as int] == (self.tasks[k as int].0@, self.tasks[k as int].1));
            let have = self.held_by(&self.tasks[k].0);
            let need = self.tasks[k].1.divided_into(self.timeslice_length);
            if (have as u64) < need {
                let ghost before = failed.deep_view();
                failed.push(self.tasks[k].0.clone());
                assert(failed.deep_view() =~= before.push(self@.tasks[k as int].0));
            }
            k = k + 1;
        }
        failed
    }

    /// Whether every slot that a task of the table holds lies in the working
    /// period of that task.
    pub fn check_times(&self) -> (r: bool)
        ensures
            r == self@.contained(),
    {
        proof {
            use_type_invariant(self);
        }
        let mut i: usize = 0;
        while i < self.slots.len()
            invariant
                i <= self.slots.len(),
                self@.wf(),
                self.slots.len() == self@.slots.len(),
                forall|j: int, k: int|
                    0 <= j < i && 0 <= k < self@.tasks.len() && #[trigger] self@.holds(j, k)
                        ==> self@.admits(k, j),
            decreases self.slots.len() - i,
        {
            let reach = self.reach(i);
            let time = self.slot_time(i);
            match reach {
                Some(w) => {
                    if !(w.start <= time && time < w.end) {
                        proof {
                            assert(!self@.accepts(i as int, time));
                            let k = choose|k: int|
                                0 <= k < self@.tasks.len() && #[trigger] self@.holds(i as int, k)
                                    && !(self@.tasks[k].1.period_of().start <= time
                                    < self@.tasks[k].1.period_of().end);
                            assert(!self@.admits(k, i as int));
                        }
                        return false;
                    }
                },
                None => {},
            }
            proof {
                assert(self@.accepts(i as int, time));
            }
            i = i + 1;
        }
        true
    }
}

impl<T: Task> Schedule<T> {
    /// Enters a task under an ID. A task that has this ID already is replaced,
    /// at its place in the table, and returned; else the task is entered
    /// last. The slots stay as they are.
    pub fn add_task(&mut self, id: String, task: T) -> (replaced: Option<T>)
        ensures
            final(self)@.wf(),
            final(self)@.slots == old(self)@.slots,
            final(self)@.timeslice_length == old(self)@.timeslice_length,
            match replaced {
                Some(gone) => exists|k: int|
                    0 <= k < old(self)@.tasks.len() && #[trigger] old(self)@.tasks[k] == (id@, gone)
                        && final(self)@.tasks == old(self)@.tasks.update(k, (id@, task)),
                None => !old(self)@.has_task(id@) && final(self)@.tasks == old(self)@.tasks.push(
                    (id@, task),
                ),
            },
    {
        proof {
            use_type_invariant(&*self);
        }
        let ghost before = self@;
        let place = self.position_of(&id);
        let ghost entry = (id@, task);
        let mut tasks = Vec::new();
        proof {
            assert forall|i: int, j: int| 0 <= i < j < self.slots.len() implies (
            #[trigger] self.slots[i]).time < (#[trigger] self.slots[j]).time by {
                assert(before.slots[i] == self.slots[i]@);
                assert(before.slots[j] == self.slots[j]@);
            }
        }
        std::mem::swap(&mut tasks, &mut self.tasks);
        let ghost given = tasks@;
        tasks.push((id, task));
        let replaced = match place {
            Some(k) => {
                let gone = tasks.swap_remove(k);
                proof {
                    assert(before.tasks[k as int] == (given[k as int].0@, given[k as int].1));
                    assert forall|a: int, b: int| 0 <= a < b < tasks.len() implies (
                    #[trigger] tasks[a]).0@ != (#[trigger] tasks[b]).0@ by {
                        assert(before.tasks[a].0 != before.tasks[b].0);
                        assert(before.tasks[a] == (given[a].0@, given[a].1));
                        assert(before.tasks[b] == (given[b].0@, given[b].1));
                    }
                }
                Some(gone.1)
            },
            None => {
                proof {
                    assert forall|a: int, b: int| 0 <= a < b < tasks.len() implies (
                    #[trigger] tasks[a]).0@ != (#[trigger] tasks[b]).0@ by {
                        assert(before.tasks[a] == (given[a].0@, given[a].1));
                        if b < given.len() {
                            assert(before.tasks[a].0 != before.tasks[b].0);
                            assert(before.tasks[b] == (given[b].0@, given[b].1));
                        } else {
                            assert(!before.has_task(id@));
                        }
                    }
                }
                None
            },
        };
        self.tasks = tasks;
        proof {
            assert(self@.slots =~= before.slots);
            match place {
                Some(k) => {
                    assert(self@.tasks =~= before.tasks.update(k as int, entry));
                },
                None => {
                    assert(self@.tasks =~= before.tasks.push(entry));
                },
            }
        }
        replaced
    }

    /// Takes the task with this ID out of the table and returns it. The slots
    /// stay as they are.
    pub fn drop_task(&mut self, id: &String) -> (dropped: Option<T>)
        ensures
            final(self)@.wf(),
            final(self)@.slots == old(self)@.slots,
            final(self)@.timeslice_length == old(self)@.timeslice_length,
            match dropped {
                Some(gone) => exists|k: int|
                    0 <= k < old(self)@.tasks.len() && #[trigger] old(self)@.tasks[k] == (id@, gone)
                        && final(self)@.tasks == old(self)@.tasks.remove(k),
                None => !old(self)@.has_task(id@) && final(self)@.tasks == old(self)@.tasks,
            },
    {
        proof {
            use_type_invariant(&*self);
        }
        let ghost before = self@;
        match self.position_of(id) {
            Some(k) => {
                let mut tasks = Vec::new();
                proof {
                    assert forall|i: int, j: int| 0 <= i < j < self.slots.len() implies (
                    #[trigger] self.slots[i]).time < (#[trigger] self.slots[j]).time by {
                        assert(before.slots[i] == self.slots[i]@);
                        assert(before.slots[j] == self.slots[j]@);
                    }
                }
                std::mem::swap(&mut tasks, &mut self.tasks);
                let ghost given = tasks@;
                let gone = tasks.remove(k);
                proof {
                    assert(before.tasks[k as int] == (given[k as int].0@, given[k as int].1));
                    assert forall|a: int, b: int| 0 <= a < b < tasks.len() implies (
                    #[trigger] tasks[a]).0@ != (#[trigger] tasks[b]).0@ by {
                        let x = if a < k {
                            a
                        } else {
                            a + 1
                        };
                        let y = if b < k {
                            b
                        } else {
                            b + 1
                        };
                        assert(before.tasks[x].0 != before.tasks[y].0);
                        assert(before.tasks[x] == (given[x].0@, given[x].1));
                        assert(before.tasks[y] == (given[y].0@, given[y].1));
                    }
                }
                self.tasks = tasks;
                proof {
                    assert(self@.slots =~= before.slots);
                    assert(self@.tasks =~= before.tasks.remove(k as int));
                }
                Some(gone.1)
            },
            None => None,
        }
    }
}

impl<T: Task + Clone> Clone for Schedule<T> {
    /// A copy with the same slots and, under the same IDs, clones of the
    /// tasks.
    fn clone(&self) -> (copy: Self)
        ensures
            copy@.wf(),
            copy@.slots == self@.slots,
            copy@.timeslice_length == self@.timeslice_length,
            copy@.tasks.len() == self@.tasks.len(),
            forall|k: int|
                0 <= k < self@.tasks.len() ==> (#[trigger] copy@.tasks[k]).0 == self@.tasks[k].0
                    && cloned::<T>(self@.tasks[k].1, copy@.tasks[k].1),
    {
        proof {
            use_type_invariant(self);
        }
        let mut tasks: Vec<(String, T)> = Vec::new();
        let mut k: usize = 0;
        while k < self.tasks.len()
            invariant
                k <= self.tasks.len(),
                tasks.len() == k,
                forall|q: int|
                    0 <= q < k ==> (#[trigger] tasks[q]).0@ == self.tasks[q].0@ && cloned::<T>(
                        self.tasks[q].1,
                        tasks[q].1,
                    ),
            decreases self.tasks.len() - k,
        {
            tasks.push((self.tasks[k].0.clone(), self.tasks[k].1.clone()));
            k = k + 1;
        }
        let mut slots: Vec<Slot> = Vec::new();
        let mut i: usize = 0;
        while i < self.slots.len()
            invariant
                i <= self.slots.len(),
                slots.len() == i,
                forall|j: int| 0 <= j < i ==> (#[trigger] slots[j])@ == self.slots[j]@,
            decreases self.slots.len() - i,
        {
            let task = match &self.slots[i].task {
                Some(id) => Some(id.clone()),
                None => None,
            };
            slots.push(Slot { time: self.slots[i].time, task });
            i = i + 1;
        }
        proof {
            assert forall|a: int, b: int| 0 <= a < b < tasks.len() implies (#[trigger] tasks[a]).0@ != (
            #[trigger] tasks[b]).0@ by {
                assert(self@.tasks[a].0 != self@.tasks[b].0);
            }
            assert forall|a: int, b: int| 0 <= a < b < slots.len() implies (#[trigger] slots[a]).time
                < (#[trigger] slots[b]).time by {
                assert(self@.slots[a].time < self@.slots[b].time);
                assert(slots[a]@ == self.slots[a]@);
                assert(slots[b]@ == self.slots[b]@);
            }
        }
        let copy = Schedule { tasks, slots, timeslice_length: self.timeslice_length };
        proof {
            assert(copy@.slots =~= self@.slots);
        }
        copy
    }
}

} // verus!
