//! What the shuffling strategies measure of a schedule. Each measure is a
//! total and the number of things it is the total of; a strategy scores a
//! schedule by their quotient, or by its negative.

use crate::scheduler::{Schedule, SlotView, Task, Time};
use vstd::prelude::*;

verus! {

/// The most slots or tasks that the totals over instants are taken of.
pub const MOST_COUNTED: usize = 0x1000_0000;

/// The number of empty slots.
pub open spec fn free_slots(slots: Seq<SlotView>) -> nat
    decreases slots.len(),
{
    if slots.len() == 0 {
        0
    } else {
        free_slots(slots.drop_last()) + if slots.last().task is None {
            1nat
        } else {
            0nat
        }
    }
}

/// The number of runs of empty slots: of empty slots that are the first slot
/// or come after a slot that is held.
pub open spec fn free_runs(slots: Seq<SlotView>) -> nat
    decreases slots.len(),
{
    if slots.len() == 0 {
        0
    } else {
        free_runs(slots.drop_last()) + if slots.last().task is None && (slots.len() == 1
            || slots[slots.len() - 2].task is Some) {
            1nat
        } else {
            0nat
        }
    }
}

/// The number of slots that are held.
pub open spec fn held_slots(slots: Seq<SlotView>) -> nat
    decreases slots.len(),
{
    if slots.len() == 0 {
        0
    } else {
        held_slots(slots.drop_last()) + if slots.last().task is Some {
            1nat
        } else {
            0nat
        }
    }
}

/// The number of runs of slots with one holder: of held slots that are the
/// first slot or come after a slot that is empty or has another holder.
pub open spec fn held_runs(slots: Seq<SlotView>) -> nat
    decreases slots.len(),
{
    if slots.len() == 0 {
        0
    } else {
        held_runs(slots.drop_last()) + if slots.last().task is Some && (slots.len() == 1
            || slots[slots.len() - 2].task != slots.last().task) {
            1nat
        } else {
            0nat
        }
    }
}

/// The seconds from `now` to the start of each empty slot, added up.
pub open spec fn free_wait(slots: Seq<SlotView>, now: Time) -> int
    decreases slots.len(),
{
    if slots.len() == 0 {
        0
    } else {
        free_wait(slots.drop_last(), now) + if slots.last().task is None {
            slots.last().time - now
        } else {
            0
        }
    }
}

/// The start of the last slot that the task with this ID holds.
pub open spec fn last_held(slots: Seq<SlotView>, id: Seq<char>) -> Option<Time>
    decreases slots.len(),
{
    if slots.len() == 0 {
        None
    } else if slots.last().task == Some(id) {
        Some(slots.last().time)
    } else {
        last_held(slots.drop_last(), id)
    }
}

/// The number of tasks, among the first `n`, that hold a slot.
pub open spec fn placed_tasks<T>(tasks: Seq<(Seq<char>, T)>, slots: Seq<SlotView>, n: int) -> nat
    decreases n,
{
    if n <= 0 {
        0
    } else {
        placed_tasks(tasks, slots, n - 1) + if last_held(slots, tasks[n - 1].0) is Some {
            1nat
        } else {
            0nat
        }
    }
}

/// The seconds from `now` to the start of the last slot of each task, among
/// the first `n`, that holds a slot, added up.
pub open spec fn finish_wait<T>(
    tasks: Seq<(Seq<char>, T)>,
    slots: Seq<SlotView>,
    now: Time,
    n: int,
) -> int
    decreases n,
{
    if n <= 0 {
        0
    } else {
        finish_wait(tasks, slots, now, n - 1) + match last_held(slots, tasks[n - 1].0) {
            Some(time) => time - now,
            None => 0,
        }
    }
}

/// The empty slots and the runs of empty slots, for the strategy that likes
/// long stretches of free time.
pub fn free_stretches<T: Task>(schedule: &Schedule<T>) -> (r: (usize, usize))
    ensures
        r.0 == free_slots(schedule@.slots),
        r.1 == free_runs(schedule@.slots),
{
    let m = schedule.slot_count();
    let mut total: usize = 0;
    let mut runs: usize = 0;
    let mut in_run = false;
    let mut i: usize = 0;
    while i < m
        invariant
            i <= m,
            m == schedule@.slots.len(),
            total <= i,
            runs <= i,
            total == free_slots(schedule@.slots.take(i as int)),
            runs == free_runs(schedule@.slots.take(i as int)),
            in_run == (i > 0 && schedule@.slots[i - 1].task is None),
        decreases m - i,
    {
        proof {
            assert(schedule@.slots.take(i + 1).drop_last() =~= schedule@.slots.take(i as int));
        }
        if schedule.slot_is_free(i) {
            total = total + 1;
            if !in_run {
                runs = runs + 1;
            }
            in_run = true;
        } else {
            in_run = false;
        }
        i = i + 1;
    }
    proof {
        assert(schedule@.slots.take(m as int) =~= schedule@.slots);
    }
    (total, runs)
}

/// The held slots and the runs of slots with one holder, for the strategy
/// that likes to stay with a task.
pub fn task_stretches<T: Task>(schedule: &Schedule<T>) -> (r: (usize, usize))
    ensures
        r.0 == held_slots(schedule@.slots),
        r.1 == held_runs(schedule@.slots),
{
    let m = schedule.slot_count();
    let mut total: usize = 0;
    let mut runs: usize = 0;
    let mut i: usize = 0;
    while i < m
        invariant
            i <= m,
            m == schedule@.slots.len(),
            total <= i,
            runs <= i,
            total == held_slots(schedule@.slots.take(i as int)),
            runs == held_runs(schedule@.slots.take(i as int)),
        decreases m - i,
    {
        proof {
            assert(schedule@.slots.take(i + 1).drop_last() =~= schedule@.slots.take(i as int));
        }
        if !schedule.slot_is_free(i) {
            total = total + 1;
            if i == 0 || !schedule.same_holder(i - 1, i) {
                runs = runs + 1;
            }
        }
        i = i + 1;
    }
    proof {
        assert(schedule@.slots.take(m as int) =~= schedule@.slots);
    }
    (total, runs)
}

/// The seconds from `now` to the start of each empty slot, added up, and the
/// number of empty slots, for the strategy that likes free time early.
/// `None` where there are more than `MOST_COUNTED` slots.
pub fn free_waits<T: Task>(schedule: &Schedule<T>, now: Time) -> (r: Option<(i128, usize)>)
    ensures
        r is Some <==> schedule@.slots.len() <= MOST_COUNTED,
        r matches Some((wait, count)) ==> wait == free_wait(schedule@.slots, now) && count
            == free_slots(schedule@.slots),
{
    let m = schedule.slot_count();
    if m > MOST_COUNTED {
        return None;
    }
    let mut wait: i128 = 0;
    let mut count: usize = 0;
    let mut i: usize = 0;
    while i < m
        invariant
            i <= m,
            m == schedule@.slots.len(),
            m <= MOST_COUNTED,
            count <= i,
            count == free_slots(schedule@.slots.take(i as int)),
            wait == free_wait(schedule@.slots.take(i as int), now),
            -i * 0x1_0000_0000_0000_0000 <= wait <= i * 0x1_0000_0000_0000_0000,
        decreases m - i,
    {
        proof {
            assert(schedule@.slots.take(i + 1).drop_last() =~= schedule@.slots.take(i as int));
        }
        if schedule.slot_is_free(i) {
            count = count + 1;
            wait = wait + (schedule.slot_time(i) as i128 - now as i128);
        }
        i = i + 1;
    }
    proof {
        assert(schedule@.slots.take(m as int) =~= schedule@.slots);
    }
    Some((wait, count))
}

/// The start of the last slot that the task with this ID holds.
pub fn last_slot_of<T: Task>(schedule: &Schedule<T>, id: &String) -> (r: Option<Time>)
    ensures
        r == last_held(schedule@.slots, id@),
{
    let mut i: usize = schedule.slot_count();
    proof {
        assert(schedule@.slots.take(i as int) =~= schedule@.slots);
    }
    while i > 0
        invariant
            i <= schedule@.slots.len(),
            last_held(schedule@.slots, id@) == last_held(schedule@.slots.take(i as int), id@),
        decreases i,
    {
        proof {
            assert(schedule@.slots.take(i as int).drop_last() =~= schedule@.slots.take(i - 1));
        }
        if schedule.slot_held_by(i - 1, id) {
            return Some(schedule.slot_time(i - 1));
        }
        i = i - 1;
    }
    None
}

/// The seconds from `now` to the start of the last slot of each task that
/// holds a slot, added up, and the number of those tasks, for the strategy
/// that likes tasks to be finished early. `None` where there are more than
/// `MOST_COUNTED` tasks.
pub fn finish_waits<T: Task>(schedule: &Schedule<T>, now: Time) -> (r: Option<(i128, usize)>)
    ensures
        r is Some <==> schedule@.tasks.len() <= MOST_COUNTED,
        r matches Some((wait, count)) ==> wait == finish_wait(
            schedule@.tasks,
            schedule@.slots,
            now,
            schedule@.tasks.len() as int,
        ) && count == placed_tasks(schedule@.tasks, schedule@.slots, schedule@.tasks.len() as int),
{
    let n = schedule.task_count();
    if n > MOST_COUNTED {
        return None;
    }
    let mut wait: i128 = 0;
    let mut count: usize = 0;
    let mut k: usize = 0;
    while k < n
        invariant
            k <= n,
            n == schedule@.tasks.len(),
            n <= MOST_COUNTED,
            count <= k,
            count == placed_tasks(schedule@.tasks, schedule@.slots, k as int),
            wait == finish_wait(schedule@.tasks, schedule@.slots, now, k as int),
            -k * 0x1_0000_0000_0000_0000 <= wait <= k * 0x1_0000_0000_0000_0000,
        decreases n - k,
    {
        match last_slot_of(schedule, schedule.task_id(k)) {
            Some(time) => {
                count = count + 1;
                wait = wait + (time as i128 - now as i128);
            },
            None => {},
        }
        k = k + 1;
    }
    Some((wait, count))
}

} // verus!
