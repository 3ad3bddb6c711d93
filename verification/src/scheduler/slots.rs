//! Laying out and removing slots.

use crate::scheduler::{slot_views, Schedule, ScheduleView, Slot, SlotView, Task, Time};
use std::ops::Range;
use vstd::prelude::*;

verus! {

/// The instant `k` intervals after `start`.
pub open spec fn grid_point(start: Time, interval: u64, k: nat) -> int {
    start + k * interval
}

/// The instants from `range.start` on, `interval` apart, that lie before
/// `range.end`.
pub open spec fn grid(range: Range<Time>, interval: u64) -> Set<Time> {
    Set::new(
        |t: Time|
            t < range.end && exists|k: nat| t == #[trigger] grid_point(range.start, interval, k),
    )
}

/// The first `count` instants of the grid that starts at `start`.
pub open spec fn grid_prefix(start: Time, interval: u64, count: nat) -> Set<Time> {
    Set::new(|t: Time| exists|k: nat| k < count && t == #[trigger] grid_point(start, interval, k))
}

impl<T: Task> ScheduleView<T> {
    /// Where empty slots are laid out in two steps, they are laid out at the
    /// instants of both steps.
    pub proof fn lemma_seeded_twice(self, first: Set<Time>, middle: Self, second: Set<Time>, after: Self)
        requires
            self.seeded_with(first, middle),
            middle.seeded_with(second, after),
        ensures
            self.seeded_with(first.union(second), after),
    {
        assert forall|t: Time| first.union(second).contains(t) implies #[trigger] after.slots.contains(
            SlotView { time: t, task: None },
        ) by {
            let s = SlotView { time: t, task: None };
            if !second.contains(t) {
                assert(middle.slots.contains(s));
                assert(after.slots.contains(s) <==> middle.slots.contains(s));
            }
        }
        assert forall|s: SlotView| !first.union(second).contains(s.time) implies (after.slots.contains(s)
            <==> self.slots.contains(s)) by {
            assert(after.slots.contains(s) <==> middle.slots.contains(s));
            assert(middle.slots.contains(s) <==> self.slots.contains(s));
        }
        assert forall|s: SlotView|
            #[trigger] after.slots.contains(s) && first.union(second).contains(s.time) implies s.task is None by {
            if !second.contains(s.time) {
                assert(after.slots.contains(s) <==> middle.slots.contains(s));
            }
        }
    }
}

impl<T: Task> Schedule<T> {
    /// Opens an empty slot at `time`. A slot that is there already is emptied.
    pub fn open_slot(&mut self, time: Time)
        ensures
            final(self)@.wf(),
            old(self)@.seeded_with(set![time], final(self)@),
    {
        let ghost before = self@;
        proof {
            use_type_invariant(&*self);
        }
        let mut slots = self.take_slots();
        let ghost given = slots@;
        let mut p: usize = 0;
        while p < slots.len() && slots[p].time < time
            invariant
                p <= slots.len(),
                slots@ == given,
                forall|q: int| 0 <= q < p ==> (#[trigger] slots[q]).time < time,
            decreases slots.len() - p,
        {
            p = p + 1;
        }
        let fresh = Slot { time, task: None };
        let ghost empty = SlotView { time, task: None };
        assert(fresh@ == empty);
        if p < slots.len() && slots[p].time == time {
            slots.set(p, fresh);
            proof {
                assert(slot_views(slots@) =~= before.slots.update(p as int, empty));
            }
        } else {
            slots.insert(p, fresh);
            proof {
                assert(slot_views(slots@) =~= before.slots.insert(p as int, empty));
                assert forall|i: int, j: int| 0 <= i < j < slots.len() implies (#[trigger] slots[i]).time
                    < (#[trigger] slots[j]).time by {
                    let a = if i < p {
                        i
                    } else {
                        i - 1
                    };
                    let b = if j < p {
                        j
                    } else {
                        j - 1
                    };
                    if i != p && j != p {
                        assert(given[a].time < given[b].time);
                    } else if i == p {
                        assert(given[p as int].time >= time);
                        if b > p {
                            assert(given[p as int].time < given[b].time);
                        }
                    }
                }
            }
        }
        let ghost views = slot_views(slots@);
        self.set_slots(slots);
        proof {
            let after = self@;
            assert(views[p as int] == empty);
            assert(after.slots.contains(empty));
            assert forall|s: SlotView| s.time != time implies (after.slots.contains(s)
                <==> before.slots.contains(s)) by {
                if after.slots.contains(s) {
                    let i = choose|i: int| 0 <= i < after.slots.len() && after.slots[i] == s;
                    if before.slots.len() == after.slots.len() {
                        assert(before.slots[i] == s);
                    } else if i < p {
                        assert(before.slots[i] == s);
                    } else {
                        assert(before.slots[i - 1] == s);
                    }
                }
                if before.slots.contains(s) {
                    let i = choose|i: int| 0 <= i < before.slots.len() && before.slots[i] == s;
                    if before.slots.len() == after.slots.len() {
                        assert(after.slots[i] == s);
                    } else if i < p {
                        assert(after.slots[i] == s);
                    } else {
                        assert(after.slots[i + 1] == s);
                    }
                }
            }
            assert forall|s: SlotView|
                #[trigger] after.slots.contains(s) && s.time == time implies s.task is None by {
                let i = choose|i: int| 0 <= i < after.slots.len() && after.slots[i] == s;
                if i < p {
                    assert(after.slots[i].time < after.slots[p as int].time);
                } else if i > p {
                    assert(after.slots[p as int].time < after.slots[i].time);
                }
            }
        }
    }
}

impl<T: Task> Schedule<T> {
    /// Simple method for laying out slots over a period of time: an empty
    /// slot at `range.start` and every `interval` seconds after it, as long as
    /// `range.end` is not reached. A slot that is there already is emptied.
    pub fn layout_slots(&mut self, range: &Range<Time>, interval: u64)
        requires
            interval > 0,
        ensures
            final(self)@.wf(),
            old(self)@.seeded_with(grid(*range, interval), final(self)@),
    {
        proof {
            use_type_invariant(&*self);
        }
        let start = range.start;
        let end = range.end;
        let mut cursor = start;
        let mut open = cursor < end;
        let ghost mut count: nat = 0;
        proof {
            assert(grid_prefix(start, interval, 0) =~= Set::empty());
            assert(self@.slots.len() >= 0);
        }
        while open
            invariant
                interval > 0,
                self@.wf(),
                open ==> cursor == grid_point(start, interval, count) && cursor < end,
                !open ==> grid_point(start, interval, count) >= end,
                forall|k: nat| k < count ==> #[trigger] grid_point(start, interval, k) < end,
                old(self)@.seeded_with(grid_prefix(start, interval, count), self@),
            decreases
                if open {
                    end - grid_point(start, interval, count) + 1
                } else {
                    0
                },
        {
            let ghost before = self@;
            self.open_slot(cursor);
            proof {
                old(self)@.lemma_seeded_twice(
                    grid_prefix(start, interval, count),
                    before,
                    set![cursor],
                    self@,
                );
                assert(grid_prefix(start, interval, count + 1) =~= grid_prefix(
                    start,
                    interval,
                    count,
                ).union(set![cursor])) by {
                    assert forall|t: Time|
                        grid_prefix(start, interval, count + 1).contains(t) implies grid_prefix(
                        start,
                        interval,
                        count,
                    ).union(set![cursor]).contains(t) by {
                        let k = choose|k: nat|
                            k < count + 1 && t == #[trigger] grid_point(start, interval, k);
                        if k < count {
                            assert(grid_prefix(start, interval, count).contains(t));
                        }
                    }
                    assert forall|t: Time|
                        grid_prefix(start, interval, count).union(set![cursor]).contains(
                            t,
                        ) implies grid_prefix(start, interval, count + 1).contains(t) by {
                        if t == cursor {
                            assert(t == grid_point(start, interval, count));
                        } else {
                            let k = choose|k: nat|
                                k < count && t == #[trigger] grid_point(start, interval, k);
                            assert(k < count + 1);
                        }
                    }
                }
                assert(grid_point(start, interval, count + 1) == grid_point(start, interval, count)
                    + interval) by (nonlinear_arith);
                count = count + 1;
            }
            match cursor.checked_add_unsigned(interval) {
                Some(next) => {
                    if next < end {
                        cursor = next;
                    } else {
                        open = false;
                    }
                },
                None => {
                    open = false;
                },
            }
        }
        proof {
            assert(grid(*range, interval) =~= grid_prefix(start, interval, count)) by {
                assert forall|t: Time| grid(*range, interval).contains(t) implies grid_prefix(
                    start,
                    interval,
                    count,
                ).contains(t) by {
                    let k = choose|k: nat| t == #[trigger] grid_point(start, interval, k);
                    assert(k < count) by (nonlinear_arith)
                        requires
                            start + k * interval < end,
                            start + count * interval >= end,
                            interval > 0,
                    ;
                }
                assert forall|t: Time|
                    grid_prefix(start, interval, count).contains(t) implies grid(
                    *range,
                    interval,
                ).contains(t) by {
                    let k = choose|k: nat| k < count && t == #[trigger] grid_point(start, interval, k);
                }
            }
        }
    }
}

impl<T: Task> Schedule<T> {
    /// Remove all slots that end in the past: those that end before `before`.
    pub fn remove_old_slots(&mut self, before: Time)
        ensures
            final(self)@.wf(),
            old(self)@.pruned_to(before, final(self)@),
    {
        proof {
            use_type_invariant(&*self);
        }
        let ghost given = self@;
        let length = self.timeslice_length;
        let mut slots = self.take_slots();
        let mut cut: usize = 0;
        while cut < slots.len() && (slots[cut].time as i128) + (length as i128) < before as i128
            invariant
                cut <= slots.len(),
                forall|q: int|
                    0 <= q < cut ==> (#[trigger] slots[q]).time + length < before,
            decreases slots.len() - cut,
        {
            cut = cut + 1;
        }
        let kept = slots.split_off(cut);
        let ghost views = slot_views(kept@);
        proof {
            assert forall|i: int| 0 <= i < kept.len() implies (#[trigger] kept[i])
                == slots@.add(kept@)[cut + i] by {}
            assert forall|i: int| 0 <= i < kept.len() implies (#[trigger] views[i]) == given.slots[cut
                + i] by {}
            assert forall|i: int, j: int| 0 <= i < j < kept.len() implies (#[trigger] kept[i]).time
                < (#[trigger] kept[j]).time by {
                assert(given.slots[cut + i].time < given.slots[cut + j].time);
            }
        }
        self.set_slots(kept);
        proof {
            let after = self@;
            assert forall|s: SlotView|
                after.slots.contains(s) <==> given.slots.contains(s) && given.lasts_until(
                    s,
                    before,
                ) by {
                if after.slots.contains(s) {
                    let i = choose|i: int| 0 <= i < after.slots.len() && after.slots[i] == s;
                    assert(given.slots[cut + i] == s);
                    if cut + i > cut {
                        assert(given.slots[cut as int].time < given.slots[cut + i].time);
                    }
                }
                if given.slots.contains(s) && given.lasts_until(s, before) {
                    let i = choose|i: int| 0 <= i < given.slots.len() && given.slots[i] == s;
                    assert(i >= cut);
                    assert(after.slots[i - cut] == s);
                }
            }
        }
    }
}

impl<T: Task> Schedule<T> {
    /// Empties the slots that the task with this ID holds.
    pub fn release(&mut self, id: &String)
        ensures
            final(self)@.wf(),
            final(self)@ == old(self)@.released(id@),
            final(self)@.same_frame(old(self)@),
            forall|i: int|
                0 <= i < old(self)@.slots.len() ==> (#[trigger] final(self)@.slots[i]).task == if old(
                    self,
                )@.slots[i].task == Some(id@) {
                    None
                } else {
                    old(self)@.slots[i].task
                },
    {
        proof {
            use_type_invariant(&*self);
        }
        let m = self.slots.len();
        let mut i: usize = 0;
        while i < m
            invariant
                i <= m,
                m == self@.slots.len(),
                self@.wf(),
                self@.same_frame(old(self)@),
                forall|j: int| i <= j < m ==> (#[trigger] self@.slots[j]) == old(self)@.slots[j],
                forall|j: int|
                    0 <= j < i ==> (#[trigger] self@.slots[j]).task == if old(self)@.slots[j].task
                        == Some(id@) {
                        None
                    } else {
                        old(self)@.slots[j].task
                    },
            decreases m - i,
        {
            assert(self@.slots[i as int] == self.slots[i as int]@);
            let held = match &self.slots[i].task {
                Some(holder) => *holder == *id,
                None => false,
            };
            if held {
                self.put(i, None);
            }
            i = i + 1;
        }
        proof {
            let wanted = old(self)@.released(id@);
            assert forall|j: int| 0 <= j < m implies self@.slots[j] == wanted.slots[j] by {
                assert(self@.slots[j].time == old(self)@.slots[j].time);
            }
            assert(self@.slots =~= wanted.slots);
        }
    }

    /// Opens a slot at `time` and places `task` on it. A slot that is there
    /// already is given to `task`.
    pub fn place(&mut self, time: Time, task: Option<String>)
        ensures
            final(self)@.wf(),
            final(self)@.tasks == old(self)@.tasks,
            final(self)@.timeslice_length == old(self)@.timeslice_length,
            final(self)@.slots.contains(SlotView { time, task: task.deep_view() }),
            forall|s: SlotView|
                s.time != time ==> (final(self)@.slots.contains(s) <==> old(self)@.slots.contains(s)),
            forall|s: SlotView|
                #[trigger] final(self)@.slots.contains(s) && s.time == time ==> s.task
                    == task.deep_view(),
    {
        self.open_slot(time);
        let ghost opened = self@;
        proof {
            use_type_invariant(&*self);
            assert(opened.slots.contains(SlotView { time, task: None }));
        }
        let mut p: usize = 0;
        while p < self.slots.len() && self.slots[p].time != time
            invariant
                p <= self.slots.len(),
                self@ == opened,
                self.slots.len() == opened.slots.len(),
                forall|q: int| 0 <= q < p ==> (#[trigger] opened.slots[q]).time != time,
            decreases self.slots.len() - p,
        {
            assert(opened.slots[p as int] == self.slots[p as int]@);
            p = p + 1;
        }
        if p < self.slots.len() {
            assert(opened.slots[p as int] == self.slots[p as int]@);
            self.put(p, task);
            proof {
                let after = self@;
                let full = SlotView { time, task: task.deep_view() };
                assert(after.slots[p as int] == full);
                assert forall|s: SlotView| s.time != time implies (after.slots.contains(s)
                    <==> old(self)@.slots.contains(s)) by {
                    if after.slots.contains(s) {
                        let i = choose|i: int| 0 <= i < after.slots.len() && after.slots[i] == s;
                        assert(opened.slots[i] == s);
                        assert(opened.slots.contains(s));
                    }
                    if old(self)@.slots.contains(s) {
                        assert(opened.slots.contains(s));
                        let i = choose|i: int| 0 <= i < opened.slots.len() && opened.slots[i] == s;
                        assert(after.slots[i] == s);
                    }
                }
                assert forall|s: SlotView|
                    #[trigger] after.slots.contains(s) && s.time == time implies s.task
                    == task.deep_view() by {
                    let i = choose|i: int| 0 <= i < after.slots.len() && after.slots[i] == s;
                    if i < p {
                        assert(after.slots[i].time < after.slots[p as int].time);
                    } else if i > p {
                        assert(after.slots[p as int].time < after.slots[i].time);
                    }
                }
            }
        } else {
            proof {
                let i = choose|i: int|
                    0 <= i < opened.slots.len() && opened.slots[i] == (SlotView { time, task: None });
                assert(opened.slots[i].time == time);
            }
        }
    }

    /// Removes every slot.
    pub fn clear_slots(&mut self)
        ensures
            final(self)@.wf(),
            final(self)@.slots.len() == 0,
            final(self)@.tasks == old(self)@.tasks,
            final(self)@.timeslice_length == old(self)@.timeslice_length,
    {
        self.set_slots(Vec::new());
    }
}

} // verus!
