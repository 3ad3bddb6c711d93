//! The scheduler for organizing tasks: a table of tasks, and the time slots
//! on which they are placed.

use crate::allocator::{holders_known, preempted, reclaimed, seeded, Demand, Holders};
use std::ops::Range;
use vstd::prelude::*;

pub mod placing;
pub mod shuffling;
pub mod slots;
pub mod table;

verus! {

/// An instant, in seconds since the Unix epoch.
pub type Time = i64;

/// The number of slices of `slice` seconds that `length` seconds of work are
/// divided into: `length / slice`, rounded up.
pub open spec fn slices_needed(length: u64, slice: u64) -> nat {
    ((length + slice - 1) / (slice as int)) as nat
}

/// A task which the scheduler is able to organize.
pub trait Task {
    /// The priority of the task, as contracts speak of it.
    spec fn priority_of(&self) -> i64;

    /// The working period of the task, as contracts speak of it.
    spec fn period_of(&self) -> Range<Time>;

    /// The remaining length of the task in seconds, as contracts speak of it.
    spec fn length_of(&self) -> u64;

    /// The priority of the task. Higher is more important.
    fn priority(&self) -> (p: i64)
        ensures
            p == self.priority_of(),
    ;

    /// The range of time when it is possible to work on the task. The end is
    /// not part of it.
    fn working_period(&self) -> (w: Range<Time>)
        ensures
            w == self.period_of(),
    ;

    /// The length of time the task is expected to take, in seconds.
    fn estimated_length(&self) -> (d: u64)
        ensures
            d == self.length_of(),
    ;

    /// The number of time slices it will take to complete the task.
    fn divided_into(&self, duration: u64) -> (n: u64)
        requires
            duration > 0,
        ensures
            n == slices_needed(self.length_of(), duration),
    {
        let length = self.estimated_length();
        let whole = length / duration;
        proof {
            lemma_slices_needed(length, duration);
        }
        if length % duration == 0 {
            whole
        } else {
            whole + 1
        }
    }
}

/// `slices_needed` is the whole quotient, and one more where a remainder is
/// left; it is the least number of slices that cover the length.
pub proof fn lemma_slices_needed(length: u64, slice: u64)
    requires
        slice > 0,
    ensures
        slices_needed(length, slice) == length / slice + if length % slice == 0 {
            0int
        } else {
            1int
        },
        slices_needed(length, slice) * slice >= length,
        slices_needed(length, slice) > 0 ==> (slices_needed(length, slice) - 1) * slice < length,
        slices_needed(length, slice) <= length,
{
    let l = length as int;
    let s = slice as int;
    let q = l / s;
    let r = l % s;
    assert(l == q * s + r && 0 <= r < s) by (nonlinear_arith)
        requires
            s > 0,
            q == l / s,
            r == l % s,
    ;
    if r == 0 {
        assert((l + s - 1) / s == q) by (nonlinear_arith)
            requires
                s > 0,
                l == q * s,
        ;
    } else {
        assert((l + s - 1) / s == q + 1) by (nonlinear_arith)
            requires
                s > 0,
                l == q * s + r,
                0 < r < s,
        ;
    }
    assert(q >= 0 && q <= l && (r > 0 ==> q < l)) by (nonlinear_arith)
        requires
            s > 0,
            l >= 0,
            l == q * s + r,
            0 <= r < s,
    ;
    assert(q * s + (if r == 0 { 0int } else { s }) >= l);
    assert((q + 1) * s == q * s + s) by (nonlinear_arith);
    assert((q - 1) * s == q * s - s) by (nonlinear_arith);
}

/// A time slot: the instant at which it starts, and the task placed on it.
#[derive(Debug)]
pub struct Slot {
    /// The start of the slot.
    pub time: Time,
    /// The ID of the task that holds the slot, if any.
    pub task: Option<String>,
}

/// A slot as contracts speak of it.
pub struct SlotView {
    /// The start of the slot.
    pub time: Time,
    /// The ID of the task that holds the slot, if any.
    pub task: Option<Seq<char>>,
}

impl View for Slot {
    type V = SlotView;

    open spec fn view(&self) -> SlotView {
        SlotView {
            time: self.time,
            task: match self.task {
                Some(id) => Some(id@),
                None => None,
            },
        }
    }
}

/// The slots as contracts speak of them.
pub open spec fn slot_views(slots: Seq<Slot>) -> Seq<SlotView> {
    Seq::new(slots.len(), |i: int| slots[i]@)
}

/// The number of slots that the task with the given ID holds.
pub open spec fn count_held(slots: Seq<SlotView>, id: Seq<char>) -> nat
    decreases slots.len(),
{
    if slots.len() == 0 {
        0
    } else {
        count_held(slots.drop_last(), id) + if slots.last().task == Some(id) {
            1nat
        } else {
            0nat
        }
    }
}

/// A schedule as contracts speak of it.
pub struct ScheduleView<T> {
    /// The task table, in the order in which the tasks were entered: IDs and
    /// tasks.
    pub tasks: Seq<(Seq<char>, T)>,
    /// The slots, in time order.
    pub slots: Seq<SlotView>,
    /// The length of each time slice, in seconds.
    pub timeslice_length: u64,
}

impl<T: Task> ScheduleView<T> {
    /// What a schedule always satisfies: no ID occurs twice in the task table,
    /// the slots are in strictly ascending time order, and a time slice is
    /// not empty.
    pub open spec fn wf(self) -> bool {
        &&& forall|a: int, b: int|
            0 <= a < b < self.tasks.len() ==> (#[trigger] self.tasks[a]).0 != (
            #[trigger] self.tasks[b]).0
        &&& forall|i: int, j: int|
            0 <= i < j < self.slots.len() ==> (#[trigger] self.slots[i]).time < (
            #[trigger] self.slots[j]).time
        &&& self.timeslice_length > 0
    }

    /// Whether the task table has a task with this ID.
    pub open spec fn has_task(self, id: Seq<char>) -> bool {
        exists|k: int| 0 <= k < self.tasks.len() && (#[trigger] self.tasks[k]).0 == id
    }

    /// Whether there is a slot that starts at `time`.
    pub open spec fn has_slot(self, time: Time) -> bool {
        exists|i: int| 0 <= i < self.slots.len() && (#[trigger] self.slots[i]).time == time
    }

    /// Whether slot `i` is held by task `k` of the table.
    pub open spec fn holds(self, i: int, k: int) -> bool {
        self.slots[i].task == Some(self.tasks[k].0)
    }

    /// Whether slot `i` lies in the working period of task `k`.
    pub open spec fn admits(self, k: int, i: int) -> bool {
        self.tasks[k].1.period_of().start <= self.slots[i].time < self.tasks[k].1.period_of().end
    }

    /// The priority of task `k`.
    pub open spec fn priority(self, k: int) -> i64 {
        self.tasks[k].1.priority_of()
    }

    /// The number of slots that task `k` requires.
    pub open spec fn need(self, k: int) -> nat {
        slices_needed(self.tasks[k].1.length_of(), self.timeslice_length)
    }

    /// The number of slots that task `k` holds.
    pub open spec fn have(self, k: int) -> nat {
        count_held(self.slots, self.tasks[k].0)
    }

    /// Whether task `k` is unsatisfied: it holds fewer slots than it requires.
    pub open spec fn lacking(self, k: int) -> bool {
        self.have(k) < self.need(k)
    }

    /// What the allocator reads of task `k`.
    pub open spec fn demand(self, k: int) -> Demand {
        Demand {
            priority: self.priority(k),
            start: self.tasks[k].1.period_of().start,
            end: self.tasks[k].1.period_of().end,
            need: self.need(k) as u64,
        }
    }

    /// Every slot that a task of the table holds lies in the working period of
    /// that task.
    pub open spec fn contained(self) -> bool {
        forall|i: int, k: int|
            0 <= i < self.slots.len() && 0 <= k < self.tasks.len() && #[trigger] self.holds(i, k)
                ==> self.admits(k, i)
    }

    /// No task holds more slots than it requires.
    pub open spec fn within_capacity(self) -> bool {
        forall|k: int| 0 <= k < self.tasks.len() ==> #[trigger] self.have(k) <= self.need(k)
    }

    /// Every slot is empty or held by a task of the table.
    pub open spec fn no_strangers(self) -> bool {
        forall|i: int|
            0 <= i < self.slots.len() && (#[trigger] self.slots[i]).task is Some ==> exists|k: int|
                0 <= k < self.tasks.len() && self.holds(i, k)
    }

    /// No unsatisfied task has, in its working period, a slot that a task of
    /// strictly lower priority holds.
    pub open spec fn priority_respected(self) -> bool {
        forall|k: int, i: int, v: int|
            0 <= k < self.tasks.len() && 0 <= i < self.slots.len() && 0 <= v < self.tasks.len()
                && self.lacking(k) && #[trigger] self.admits(k, i) && #[trigger] self.holds(i, v)
                ==> self.priority(v) >= self.priority(k)
    }

    /// No slot in the working period of task `k` is empty.
    pub open spec fn exhausted(self, k: int) -> bool {
        forall|i: int|
            0 <= i < self.slots.len() && #[trigger] self.admits(k, i) ==> self.slots[i].task is Some
    }

    /// Some slot in the working period of task `k` is held by a task of
    /// strictly higher priority.
    pub open spec fn outranked(self, k: int) -> bool {
        exists|i: int, v: int|
            0 <= i < self.slots.len() && 0 <= v < self.tasks.len() && self.admits(k, i)
                && #[trigger] self.holds(i, v) && self.priority(v) > self.priority(k)
    }

    /// Every unsatisfied task has no empty slot left in its working period, or
    /// has a slot there that a task of strictly higher priority holds.
    pub open spec fn lacking_for_cause(self) -> bool {
        forall|k: int|
            0 <= k < self.tasks.len() && #[trigger] self.lacking(k) ==> self.exhausted(k)
                || self.outranked(k)
    }

    /// What holds of a schedule once its tasks have been placed.
    pub open spec fn settled(self) -> bool {
        &&& self.wf()
        &&& self.no_strangers()
        &&& self.contained()
        &&& self.within_capacity()
        &&& self.priority_respected()
        &&& self.lacking_for_cause()
    }

    /// The two schedules have the same task table, the same slice length and
    /// slots at the same instants.
    pub open spec fn same_frame(self, other: Self) -> bool {
        &&& self.tasks == other.tasks
        &&& self.timeslice_length == other.timeslice_length
        &&& self.slots.len() == other.slots.len()
        &&& forall|i: int|
            0 <= i < self.slots.len() ==> (#[trigger] self.slots[i]).time == other.slots[i].time
    }

    /// What the allocator reads of the tasks, in the order of the table.
    pub open spec fn demands(self) -> Seq<Demand> {
        Seq::new(self.tasks.len(), |k: int| self.demand(k))
    }

    /// The instants of the slots, in time order.
    pub open spec fn times(self) -> Seq<Time> {
        Seq::new(self.slots.len(), |i: int| self.slots[i].time)
    }

    /// For every slot, the position in the table of the task that holds it
    /// and may work at that time; none for a slot that is empty, whose
    /// holder is not in the table or whose holder may not work then.
    pub open spec fn given(self) -> Holders {
        Seq::new(
            self.slots.len(),
            |i: int|
                if exists|k: int|
                    0 <= k < self.tasks.len() && #[trigger] self.holds(i, k) && self.admits(k, i) {
                    Some(
                        (choose|k: int|
                            0 <= k < self.tasks.len() && #[trigger] self.holds(i, k) && self.admits(
                                k,
                                i,
                            )) as usize,
                    )
                } else {
                    None
                },
        )
    }

    /// The holders of the slots once the tasks are placed: slots are
    /// reclaimed from tasks that hold more than they require, the tasks are
    /// seeded, and the unsatisfied tasks preempt those of lower priority.
    pub open spec fn placed(self) -> Holders {
        preempted(
            self.times(),
            self.demands(),
            seeded(self.times(), self.demands(), reclaimed(self.demands(), self.given())),
        )
    }

    /// The schedule in which every slot is held by the task at the position
    /// that `occ` names for it.
    pub open spec fn with_holders(self, occ: Holders) -> Self {
        ScheduleView {
            tasks: self.tasks,
            slots: Seq::new(
                self.slots.len(),
                |i: int|
                    SlotView {
                        time: self.slots[i].time,
                        task: match occ[i] {
                            Some(k) => Some(self.tasks[k as int].0),
                            None => None,
                        },
                    },
            ),
            timeslice_length: self.timeslice_length,
        }
    }

    /// The schedule in which the slots of the task with this ID are empty.
    pub open spec fn released(self, id: Seq<char>) -> Self {
        ScheduleView {
            tasks: self.tasks,
            slots: Seq::new(
                self.slots.len(),
                |i: int|
                    if self.slots[i].task == Some(id) {
                        SlotView { time: self.slots[i].time, task: None }
                    } else {
                        self.slots[i]
                    },
            ),
            timeslice_length: self.timeslice_length,
        }
    }

    /// The schedule with another table of tasks.
    pub open spec fn with_tasks(self, tasks: Seq<(Seq<char>, T)>) -> Self {
        ScheduleView { tasks, slots: self.slots, timeslice_length: self.timeslice_length }
    }

    /// The schedule once the tasks are placed.
    pub open spec fn scheduled(self) -> Self {
        self.with_holders(self.placed())
    }

    /// Every slot that a task held without holding more than it requires is
    /// held, in `after`, by that task or by one of strictly higher priority.
    pub open spec fn kept_by(self, after: Self) -> bool {
        forall|i: int, k: int|
            0 <= i < self.slots.len() && 0 <= k < self.tasks.len() && #[trigger] self.holds(i, k)
                && self.have(k) <= self.need(k) ==> exists|w: int|
                0 <= w < after.tasks.len() && #[trigger] after.holds(i, w) && (w == k
                    || after.priority(w) > after.priority(k))
    }

    /// Whether `occ` names, slot by slot, the task of the table that holds the
    /// slot.
    pub open spec fn held_as(self, occ: Holders) -> bool {
        &&& occ.len() == self.slots.len()
        &&& holders_known(occ, self.tasks.len())
        &&& forall|i: int|
            0 <= i < self.slots.len() ==> (#[trigger] self.slots[i]).task == match occ[i] {
                Some(k) => Some(self.tasks[k as int].0),
                None => None,
            }
    }

    /// Whether `after` is this schedule with an empty slot at every instant of
    /// `fresh`, in place of the slot that was there if there was one, and
    /// with the other slots as they are.
    pub open spec fn seeded_with(self, fresh: Set<Time>, after: Self) -> bool {
        &&& after.tasks == self.tasks
        &&& after.timeslice_length == self.timeslice_length
        &&& forall|t: Time|
            fresh.contains(t) ==> #[trigger] after.slots.contains(SlotView { time: t, task: None })
        &&& forall|s: SlotView|
            #![trigger after.slots.contains(s)]
            #![trigger self.slots.contains(s)]
            !fresh.contains(s.time) ==> (after.slots.contains(s) <==> self.slots.contains(s))
        &&& forall|s: SlotView|
            #[trigger] after.slots.contains(s) && fresh.contains(s.time) ==> s.task is None
    }

    /// Whether the slot covers an instant at or after `before`: it does not
    /// end before it.
    pub open spec fn lasts_until(self, slot: SlotView, before: Time) -> bool {
        slot.time + self.timeslice_length >= before
    }

    /// Whether `after` is this schedule without the slots that end before
    /// `before`.
    pub open spec fn pruned_to(self, before: Time, after: Self) -> bool {
        &&& after.tasks == self.tasks
        &&& after.timeslice_length == self.timeslice_length
        &&& forall|s: SlotView|
            #![trigger after.slots.contains(s)]
            #![trigger self.slots.contains(s)]
            after.slots.contains(s) <==> self.slots.contains(s) && self.lasts_until(s, before)
    }

    /// Whether the holder of slot `i` may work at the instant `t`. An empty
    /// slot, or one whose holder is not in the table, accepts every instant.
    pub open spec fn accepts(self, i: int, t: Time) -> bool {
        forall|k: int|
            0 <= k < self.tasks.len() && #[trigger] self.holds(i, k) ==> self.tasks[k].1.period_of().start
                <= t < self.tasks[k].1.period_of().end
    }

    /// Whether slot `i` may exchange its contents with the later slot `j`: the
    /// holder of slot `i` may work at every slot from the one after `i` up to
    /// `j`, and the holder of slot `j` may work at slot `i`.
    pub open spec fn swappable(self, i: int, j: int) -> bool {
        &&& 0 <= i < j < self.slots.len()
        &&& forall|m: int| i < m <= j ==> self.accepts(i, (#[trigger] self.slots[m]).time)
        &&& self.accepts(j, self.slots[i].time)
    }

    /// The schedule in which slot `i` is held by `task`.
    pub open spec fn with_holder(self, i: int, task: Option<Seq<char>>) -> Self {
        ScheduleView {
            tasks: self.tasks,
            slots: self.slots.update(i, SlotView { time: self.slots[i].time, task }),
            timeslice_length: self.timeslice_length,
        }
    }

    /// The schedule in which slots `i` and `j` have exchanged their contents.
    pub open spec fn swapped(self, i: int, j: int) -> Self {
        self.with_holder(i, self.slots[j].task).with_holder(j, self.slots[i].task)
    }

    /// The schedule after the given exchanges, made one after the other.
    pub open spec fn rearranged(self, swaps: Seq<(int, int)>) -> Self
        decreases swaps.len(),
    {
        if swaps.len() == 0 {
            self
        } else {
            self.rearranged(swaps.drop_last()).swapped(swaps.last().0, swaps.last().1)
        }
    }

    /// Whether each of the given exchanges, made one after the other, is one
    /// between slots that may exchange their contents at that point.
    pub open spec fn all_swappable(self, swaps: Seq<(int, int)>) -> bool
        decreases swaps.len(),
    {
        swaps.len() == 0 || (self.all_swappable(swaps.drop_last()) && self.rearranged(
            swaps.drop_last(),
        ).swappable(swaps.last().0, swaps.last().1))
    }

    /// Whether `other` is reached from this schedule by a chain of exchanges,
    /// each between two slots that may exchange their contents.
    pub open spec fn shuffles_to(self, other: Self) -> bool {
        exists|swaps: Seq<(int, int)>| self.all_swappable(swaps) && self.rearranged(swaps) == other
    }

    /// Whether the exchanges are those of one round: every slot starts at most
    /// one of them, and the slots take their turns in time order.
    pub open spec fn one_round(swaps: Seq<(int, int)>) -> bool {
        forall|a: int, b: int| 0 <= a < b < swaps.len() ==> swaps[a].0 < swaps[b].0
    }

    /// Whether `other` is reached from this schedule by one round of
    /// exchanges, each between two slots that may exchange their contents.
    pub open spec fn shuffles_once_to(self, other: Self) -> bool {
        exists|swaps: Seq<(int, int)>|
            Self::one_round(swaps) && self.all_swappable(swaps) && self.rearranged(swaps) == other
    }

    /// The IDs of the unsatisfied tasks among the first `n` of the table, in
    /// the order of the table.
    pub open spec fn unsatisfied_among(self, n: int) -> Seq<Seq<char>>
        decreases n,
    {
        if n <= 0 {
            Seq::empty()
        } else if self.lacking(n - 1) {
            self.unsatisfied_among(n - 1).push(self.tasks[n - 1].0)
        } else {
            self.unsatisfied_among(n - 1)
        }
    }

    /// The IDs of the unsatisfied tasks, in the order of the table.
    pub open spec fn unsatisfied(self) -> Seq<Seq<char>> {
        self.unsatisfied_among(self.tasks.len() as int)
    }
}

/// Tasks are organized first by claiming the first slots in their working
/// period, in ascending order of the length of that period. Next, each task in
/// turn takes slots from tasks of lower priority.
pub struct Schedule<T: Task> {
    /// The tasks by ID, which even includes tasks that haven't reserved any
    /// slots.
    tasks: Vec<(String, T)>,
    /// Timeslots in which tasks can be scheduled, in time order.
    slots: Vec<Slot>,
    /// The length of each timeslice, in seconds.
    timeslice_length: u64,
}

impl<T: Task> View for Schedule<T> {
    type V = ScheduleView<T>;

    closed spec fn view(&self) -> ScheduleView<T> {
        ScheduleView {
            tasks: Seq::new(self.tasks.len() as nat, |k: int| (self.tasks[k].0@, self.tasks[k].1)),
            slots: slot_views(self.slots@),
            timeslice_length: self.timeslice_length,
        }
    }
}

impl<T: Task> Schedule<T> {
    #[verifier::type_invariant]
    spec fn inv(&self) -> bool {
        self@.wf()
    }

    /// A schedule without tasks or slots.
    pub fn new(timeslice_length: u64) -> (s: Self)
        requires
            timeslice_length > 0,
        ensures
            s@.wf(),
            s@.tasks.len() == 0,
            s@.slots.len() == 0,
            s@.timeslice_length == timeslice_length,
    {
        Schedule { tasks: Vec::new(), slots: Vec::new(), timeslice_length }
    }

    /// The length of each timeslice, in seconds.
    pub fn timeslice_length(&self) -> (d: u64)
        ensures
            d == self@.timeslice_length,
            d > 0,
    {
        proof {
            use_type_invariant(self);
        }
        self.timeslice_length
    }

    /// The position in the task table of the task with this ID.
    pub fn position_of(&self, id: &String) -> (r: Option<usize>)
        ensures
            self@.wf(),
            match r {
                Some(k) => k < self@.tasks.len() && self@.tasks[k as int].0 == id@,
                None => !self@.has_task(id@),
            },
    {
        proof {
            use_type_invariant(self);
        }
        let mut k: usize = 0;
        while k < self.tasks.len()
            invariant
                k <= self.tasks.len(),
                self@.wf(),
                self.tasks.len() == self@.tasks.len(),
                forall|q: int| 0 <= q < k ==> (#[trigger] self@.tasks[q]).0 != id@,
            decreases self.tasks.len() - k,
        {
            assert(self@.tasks[k as int].0 == self.tasks[k as int].0@);
            if self.tasks[k].0 == *id {
                return Some(k);
            }
            k = k + 1;
        }
        None
    }
}

impl<T: Task> Schedule<T> {
    /// The task that holds slot `i`, as a copy of its ID.
    pub fn slot_task(&self, i: usize) -> (task: Option<String>)
        requires
            i < self@.slots.len(),
        ensures
            task.deep_view() == self@.slots[i as int].task,
    {
        assert(self@.slots[i as int] == self.slots[i as int]@);
        match &self.slots[i].task {
            Some(id) => Some(id.clone()),
            None => None,
        }
    }

    /// The instant at which slot `i` starts.
    pub fn slot_time(&self, i: usize) -> (time: Time)
        requires
            i < self@.slots.len(),
        ensures
            time == self@.slots[i as int].time,
    {
        assert(self@.slots[i as int] == self.slots[i as int]@);
        self.slots[i].time
    }

    /// Whether slot `i` is empty.
    pub fn slot_is_free(&self, i: usize) -> (free: bool)
        requires
            i < self@.slots.len(),
        ensures
            free == (self@.slots[i as int].task is None),
    {
        assert(self@.slots[i as int] == self.slots[i as int]@);
        self.slots[i].task.is_none()
    }

    /// Whether the task with this ID holds slot `i`.
    pub fn slot_held_by(&self, i: usize, id: &String) -> (held: bool)
        requires
            i < self@.slots.len(),
        ensures
            held == (self@.slots[i as int].task == Some(id@)),
    {
        assert(self@.slots[i as int] == self.slots[i as int]@);
        match &self.slots[i].task {
            Some(holder) => *holder == *id,
            None => false,
        }
    }

    /// Whether slots `i` and `j` are held by the same task, or both empty.
    pub fn same_holder(&self, i: usize, j: usize) -> (same: bool)
        requires
            i < self@.slots.len(),
            j < self@.slots.len(),
        ensures
            same == (self@.slots[i as int].task == self@.slots[j as int].task),
    {
        assert(self@.slots[i as int] == self.slots[i as int]@);
        assert(self@.slots[j as int] == self.slots[j as int]@);
        match (&self.slots[i].task, &self.slots[j].task) {
            (Some(a), Some(b)) => *a == *b,
            (None, None) => true,
            _ => false,
        }
    }

    /// The number of slots.
    pub fn slot_count(&self) -> (n: usize)
        ensures
            n == self@.slots.len(),
    {
        self.slots.len()
    }

    /// Places `task` on slot `i`.
    fn put(&mut self, i: usize, task: Option<String>)
        requires
            i < old(self)@.slots.len(),
        ensures
            final(self)@ == old(self)@.with_holder(i as int, task.deep_view()),
            final(self)@.wf(),
    {
        proof {
            use_type_invariant(&*self);
        }
        let ghost before = self@;
        let ghost after = before.with_holder(i as int, task.deep_view());
        assert(before.slots[i as int] == self.slots[i as int]@);
        let time = self.slots[i].time;
        let ghost given = self.slots@;
        let mut slots = Vec::new();
        std::mem::swap(&mut slots, &mut self.slots);
        slots.set(i, Slot { time, task });
        proof {
            assert forall|a: int, b: int| 0 <= a < b < slots.len() implies (#[trigger] slots[a]).time
                < (#[trigger] slots[b]).time by {
                assert(before.slots[a] == given[a]@);
                assert(before.slots[b] == given[b]@);
                assert(before.slots[a].time < before.slots[b].time);
            }
            assert forall|a: int, b: int| 0 <= a < b < self.tasks.len() implies (
            #[trigger] self.tasks[a]).0@ != (#[trigger] self.tasks[b]).0@ by {
                assert(before.tasks[a].0 != before.tasks[b].0);
            }
        }
        self.slots = slots;
        proof {
            assert(self@.slots =~= after.slots);
            assert(self@.tasks =~= after.tasks);
        }
    }

    /// The working period of the holder of slot `i`, if a task of the table
    /// holds it.
    fn reach(&self, i: usize) -> (r: Option<Range<Time>>)
        requires
            i < self@.slots.len(),
        ensures
            forall|t: Time|
                #[trigger] self@.accepts(i as int, t) <==> (r matches Some(w) ==> w.start <= t
                    < w.end),
    {
        proof {
            use_type_invariant(self);
        }
        assert(self@.slots[i as int] == self.slots[i as int]@);
        match &self.slots[i].task {
            Some(id) => match self.position_of(id) {
                Some(k) => {
                    assert(self@.tasks[k as int].1 == self.tasks[k as int].1);
                    let w = self.tasks[k].1.working_period();
                    proof {
                        assert(self@.holds(i as int, k as int));
                        assert forall|t: Time| (w.start <= t < w.end) implies #[trigger] self@.accepts(
                            i as int,
                            t,
                        ) by {
                            assert forall|q: int|
                                0 <= q < self@.tasks.len() && #[trigger] self@.holds(
                                    i as int,
                                    q,
                                ) implies q == k by {
                                assert(self@.tasks[q].0 == self@.tasks[k as int].0);
                            }
                        }
                    }
                    Some(w)
                },
                None => {
                    proof {
                        assert forall|t: Time| #[trigger] self@.accepts(i as int, t) by {
                            assert forall|q: int|
                                0 <= q < self@.tasks.len() implies !#[trigger] self@.holds(
                                i as int,
                                q,
                            ) by {
                                if self@.holds(i as int, q) {
                                    assert(self@.has_task(id@));
                                }
                            }
                        }
                    }
                    None
                },
            },
            None => None,
        }
    }
}

impl<T: Task> Schedule<T> {
    /// Takes the slots out, to put them back changed.
    fn take_slots(&mut self) -> (slots: Vec<Slot>)
        ensures
            slot_views(slots@) == old(self)@.slots,
            final(self)@.tasks == old(self)@.tasks,
            final(self)@.timeslice_length == old(self)@.timeslice_length,
            final(self)@.slots.len() == 0,
            forall|i: int, j: int|
                0 <= i < j < slots.len() ==> (#[trigger] slots[i]).time < (#[trigger] slots[j]).time,
    {
        proof {
            use_type_invariant(&*self);
        }
        let ghost before = self@;
        let mut slots = Vec::new();
        proof {
            assert forall|a: int, b: int| 0 <= a < b < self.tasks.len() implies (
            #[trigger] self.tasks[a]).0@ != (#[trigger] self.tasks[b]).0@ by {
                assert(before.tasks[a].0 != before.tasks[b].0);
            }
        }
        std::mem::swap(&mut slots, &mut self.slots);
        proof {
            assert(self@.tasks =~= before.tasks);
            assert forall|i: int, j: int| 0 <= i < j < slots.len() implies (#[trigger] slots[i]).time
                < (#[trigger] slots[j]).time by {
                assert(before.slots[i] == slots[i]@);
                assert(before.slots[j] == slots[j]@);
            }
        }
        slots
    }

    /// Puts slots in place of those that are there.
    fn set_slots(&mut self, slots: Vec<Slot>)
        requires
            forall|i: int, j: int|
                0 <= i < j < slots.len() ==> (#[trigger] slots[i]).time < (#[trigger] slots[j]).time,
        ensures
            final(self)@.slots == slot_views(slots@),
            final(self)@.tasks == old(self)@.tasks,
            final(self)@.timeslice_length == old(self)@.timeslice_length,
            final(self)@.wf(),
    {
        proof {
            use_type_invariant(&*self);
        }
        let ghost before = self@;
        proof {
            assert forall|a: int, b: int| 0 <= a < b < self.tasks.len() implies (
            #[trigger] self.tasks[a]).0@ != (#[trigger] self.tasks[b]).0@ by {
                assert(before.tasks[a].0 != before.tasks[b].0);
            }
        }
        self.slots = slots;
        proof {
            assert(self@.tasks =~= before.tasks);
        }
    }
}

impl<T: Task> Schedule<T> {
    /// The number of tasks.
    pub fn task_count(&self) -> (n: usize)
        ensures
            n == self@.tasks.len(),
    {
        self.tasks.len()
    }

    /// The ID of task `k` of the table.
    pub fn task_id(&self, k: usize) -> (id: &String)
        requires
            k < self@.tasks.len(),
        ensures
            id@ == self@.tasks[k as int].0,
    {
        &self.tasks[k].0
    }

    /// Task `k` of the table.
    pub fn task_at(&self, k: usize) -> (task: &T)
        requires
            k < self@.tasks.len(),
        ensures
            *task == self@.tasks[k as int].1,
    {
        &self.tasks[k].1
    }

    /// The task with this ID.
    pub fn task(&self, id: &String) -> (task: Option<&T>)
        ensures
            match task {
                Some(t) => exists|k: int|
                    0 <= k < self@.tasks.len() && #[trigger] self@.tasks[k] == (id@, *t),
                None => !self@.has_task(id@),
            },
    {
        match self.position_of(id) {
            Some(k) => {
                assert(self@.tasks[k as int] == (id@, self.tasks[k as int].1));
                Some(&self.tasks[k].1)
            },
            None => None,
        }
    }
}

} // verus!
