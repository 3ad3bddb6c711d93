//! Shuffling the tasks among the slots of their working periods.

use crate::chance::pick_below;
use crate::scheduler::{count_held, Schedule, ScheduleView, SlotView, Task, Time};
use vstd::prelude::*;

verus! {

impl<T: Task> ScheduleView<T> {
    /// Those of the slots after slot `i` and before slot `upto` that slot `i`
    /// may exchange its contents with, in time order.
    pub open spec fn neighbours_among(self, i: int, upto: int) -> Seq<int>
        decreases upto - i,
    {
        if upto <= i + 1 {
            Seq::empty()
        } else {
            let rest = self.neighbours_among(i, upto - 1);
            if self.swappable(i, upto - 1) {
                rest.push(upto - 1)
            } else {
                rest
            }
        }
    }

    /// The neighbourhood of slot `i`: the later slots that it may exchange
    /// its contents with, in time order.
    pub open spec fn neighbours(self, i: int) -> Seq<int> {
        self.neighbours_among(i, self.slots.len() as int)
    }

    /// Every slot of a neighbourhood is one that the slot may exchange its
    /// contents with.
    pub proof fn lemma_neighbours_swappable(self, i: int, upto: int)
        ensures
            forall|c: int|
                0 <= c < self.neighbours_among(i, upto).len() ==> self.swappable(
                    i,
                    #[trigger] self.neighbours_among(i, upto)[c],
                ),
        decreases upto - i,
    {
        if upto > i + 1 {
            self.lemma_neighbours_swappable(i, upto - 1);
            let rest = self.neighbours_among(i, upto - 1);
            let all = self.neighbours_among(i, upto);
            assert forall|c: int| 0 <= c < all.len() implies self.swappable(i, #[trigger] all[c]) by {
                if c < rest.len() {
                    assert(all[c] == rest[c]);
                }
            }
        }
    }

    /// Past a slot at which the holder of slot `i` may not work, slot `i` has
    /// no neighbour.
    pub proof fn lemma_neighbours_end(self, i: int, stop: int, upto: int)
        requires
            0 <= i < stop < self.slots.len(),
            !self.accepts(i, self.slots[stop].time),
            stop <= upto,
        ensures
            self.neighbours_among(i, upto) == self.neighbours_among(i, stop),
        decreases upto - stop,
    {
        if upto > stop {
            self.lemma_neighbours_end(i, stop, upto - 1);
            if self.swappable(i, upto - 1) {
                assert(self.accepts(i, self.slots[stop].time));
            }
        }
    }
}

impl<T: Task> ScheduleView<T> {
    /// Whether `path` leads from this schedule to `other`, each of its
    /// schedules being reached from the one before it by one round of
    /// exchanges.
    pub open spec fn traces(self, other: Self, path: Seq<Self>) -> bool {
        &&& path.len() > 0
        &&& path[0] == self
        &&& path.last() == other
        &&& forall|k: int|
            0 <= k < path.len() - 1 ==> (#[trigger] path[k]).shuffles_once_to(path[k + 1])
    }

    /// Whether `other` is reached from this schedule by shuffling `rounds`
    /// times at most.
    pub open spec fn rounds_to(self, other: Self, rounds: nat) -> bool {
        exists|path: Seq<Self>| #[trigger] self.traces(other, path) && path.len() <= rounds + 1
    }

    /// What is reached in some rounds, and then by one round more, is
    /// reached in one round more.
    pub proof fn lemma_rounds_to_step(self, middle: Self, other: Self, rounds: nat)
        requires
            self.rounds_to(middle, rounds),
            middle.shuffles_once_to(other),
        ensures
            self.rounds_to(other, rounds + 1),
    {
        let path = choose|path: Seq<Self>|
            #[trigger] self.traces(middle, path) && path.len() <= rounds + 1;
        let longer = path.push(other);
        assert forall|k: int| 0 <= k < longer.len() - 1 implies (#[trigger] longer[k]).shuffles_once_to(
            longer[k + 1],
        ) by {
            if k < path.len() - 1 {
                assert(path[k].shuffles_once_to(path[k + 1]));
            }
        }
        assert(self.traces(other, longer));
    }

    /// A schedule is reached from itself in no round.
    pub proof fn lemma_rounds_to_itself(self)
        ensures
            self.rounds_to(self, 0),
    {
        assert(self.traces(self, seq![self]));
    }

    /// What is reached in some rounds is reached when one more round may be
    /// made: in that round every slot picks itself.
    pub proof fn lemma_rounds_to_more(self, other: Self, rounds: nat)
        requires
            self.rounds_to(other, rounds),
        ensures
            self.rounds_to(other, rounds + 1),
    {
        let none = Seq::<(int, int)>::empty();
        assert(Self::one_round(none) && other.all_swappable(none) && other.rearranged(none) == other);
        assert(other.shuffles_once_to(other));
        self.lemma_rounds_to_step(other, other, rounds);
    }
}

impl<T: Task> Schedule<T> {
    /// The neighbourhood of slot `i`: the later slots that it may exchange
    /// its contents with, in time order. They are the slots after it, as far
    /// as its holder may work at each of them, whose own holder may work at
    /// slot `i`.
    pub fn neighbours_of(&self, i: usize) -> (c: Vec<usize>)
        requires
            i < self@.slots.len(),
        ensures
            c@.map_values(|j: usize| j as int) == self@.neighbours(i as int),
            c.len() < self@.slots.len(),
    {
        let m = self.slot_count();
        let here = self.slot_time(i);
        let reach = self.reach(i);
        let mut candidates: Vec<usize> = Vec::new();
        let mut j: usize = i + 1;
        let mut open = true;
        while open && j < m
            invariant
                i < j <= m,
                m == self@.slots.len(),
                here == self@.slots[i as int].time,
                candidates.len() <= j - i - 1,
                forall|t: Time|
                    #[trigger] self@.accepts(i as int, t) <==> (reach matches Some(w) ==> w.start
                        <= t < w.end),
                open ==> forall|q: int|
                    i < q < j ==> self@.accepts(i as int, (#[trigger] self@.slots[q]).time),
                open ==> candidates@.map_values(|j: usize| j as int) == self@.neighbours_among(
                    i as int,
                    j as int,
                ),
                !open ==> candidates@.map_values(|j: usize| j as int) == self@.neighbours(i as int),
            decreases m - j + if open { 1int } else { 0int },
        {
            let there = self.slot_time(j);
            let within = match &reach {
                Some(w) => w.start <= there && there < w.end,
                None => true,
            };
            if !within {
                proof {
                    self@.lemma_neighbours_end(i as int, j as int, m as int);
                }
                open = false;
            } else {
                let back = self.reach(j);
                let welcome = match &back {
                    Some(w) => w.start <= here && here < w.end,
                    None => true,
                };
                let ghost before = candidates@.map_values(|j: usize| j as int);
                if welcome {
                    candidates.push(j);
                    proof {
                        assert(self@.swappable(i as int, j as int));
                        assert(candidates@.map_values(|j: usize| j as int) =~= before.push(j as int));
                    }
                } else {
                    proof {
                        assert(!self@.swappable(i as int, j as int));
                    }
                }
                j = j + 1;
            }
        }
        candidates
    }

    /// Exchanges the contents of slot `i` with those of the neighbour that
    /// was picked: with none where the pick is 0, the slot having picked
    /// itself, and else with the neighbour at the place `pick - 1` of its
    /// neighbourhood.
    pub fn exchange_picked(&mut self, i: usize, pick: usize)
        requires
            i < old(self)@.slots.len(),
            pick <= old(self)@.neighbours(i as int).len(),
        ensures
            final(self)@.wf(),
            final(self)@ == if pick == 0 {
                old(self)@
            } else {
                old(self)@.swapped(i as int, old(self)@.neighbours(i as int)[pick - 1])
            },
    {
        proof {
            use_type_invariant(&*self);
        }
        if pick != 0 {
            let neighbours = self.neighbours_of(i);
            let ghost before = self@;
            proof {
                let mapped = neighbours@.map_values(|j: usize| j as int);
                assert(mapped[pick - 1] == neighbours@[pick - 1] as int);
                before.lemma_neighbours_swappable(i as int, before.slots.len() as int);
                assert(before.swappable(i as int, before.neighbours(i as int)[pick - 1]));
            }
            let j = neighbours[pick - 1];
            let left = self.slot_task(i);
            let right = self.slot_task(j);
            self.put(i, right);
            self.put(j, left);
        }
    }

    /// Shuffle tasks randomly, while still keeping every task in a slot within
    /// its working period.
    ///
    /// Every slot in time order picks, with equal chances, itself or one of
    /// its neighbours, and exchanges its contents with those of the neighbour
    /// unless it picked itself.
    pub fn shuffle(&mut self)
        ensures
            final(self)@.wf(),
            final(self)@.same_frame(old(self)@),
            old(self)@.shuffles_once_to(final(self)@),
            old(self)@.shuffles_to(final(self)@),
            old(self)@.contained() ==> final(self)@.contained(),
    {
        proof {
            use_type_invariant(&*self);
        }
        let mut rng = rand::thread_rng();
        let ghost mut swaps: Seq<(int, int)> = Seq::empty();
        let m = self.slots.len();
        let mut i: usize = 0;
        while i < m
            invariant
                i <= m,
                m == self@.slots.len(),
                self@.wf(),
                old(self)@.all_swappable(swaps),
                old(self)@.rearranged(swaps) == self@,
                forall|a: int| 0 <= a < swaps.len() ==> (#[trigger] swaps[a]).0 < i,
                ScheduleView::<T>::one_round(swaps),
            decreases m - i,
        {
            let neighbours = self.neighbours_of(i);
            if neighbours.len() >= 1 {
                let ghost before = self@;
                proof {
                    assert(neighbours@.map_values(|j: usize| j as int).len() == neighbours.len());
                    before.lemma_neighbours_swappable(i as int, m as int);
                }
                let pick = pick_below(&mut rng, neighbours.len() + 1);
                self.exchange_picked(i, pick);
                proof {
                    if pick != 0 {
                        let j = before.neighbours(i as int)[pick - 1];
                        assert(before.swappable(i as int, j));
                        let longer = swaps.push((i as int, j));
                        assert(longer.drop_last() =~= swaps);
                        swaps = longer;
                    }
                }
            }
            i = i + 1;
        }
        proof {
            assert(old(self)@.shuffles_once_to(self@));
            assert(old(self)@.shuffles_to(self@));
            old(self)@.lemma_shuffle_keeps(self@);
        }
    }
}

/// Giving slot `i` to another holder changes, for each ID, the number of
/// slots it holds by what slot `i` adds or takes away.
pub proof fn lemma_count_update(slots: Seq<SlotView>, i: int, slot: SlotView, id: Seq<char>)
    requires
        0 <= i < slots.len(),
    ensures
        count_held(slots.update(i, slot), id) + (if slots[i].task == Some(id) {
            1nat
        } else {
            0nat
        }) == count_held(slots, id) + (if slot.task == Some(id) {
            1nat
        } else {
            0nat
        }),
    decreases slots.len(),
{
    if i == slots.len() - 1 {
        assert(slots.update(i, slot).drop_last() =~= slots.drop_last());
    } else {
        assert(slots.update(i, slot).drop_last() =~= slots.drop_last().update(i, slot));
        lemma_count_update(slots.drop_last(), i, slot, id);
    }
}

impl<T: Task> ScheduleView<T> {
    /// An exchange between two slots that may exchange their contents keeps
    /// the task table, the instants of the slots and the number of slots that
    /// each task holds, and it keeps every task inside its working period.
    pub proof fn lemma_swap_keeps(self, i: int, j: int)
        requires
            self.wf(),
            self.swappable(i, j),
        ensures
            self.swapped(i, j).wf(),
            self.swapped(i, j).same_frame(self),
            forall|id: Seq<char>|
                count_held(self.swapped(i, j).slots, id) == #[trigger] count_held(self.slots, id),
            self.contained() ==> self.swapped(i, j).contained(),
            self.no_strangers() ==> self.swapped(i, j).no_strangers(),
    {
        let mid = self.with_holder(i, self.slots[j].task);
        let after = self.swapped(i, j);
        assert(after.slots.len() == self.slots.len());
        assert forall|a: int| 0 <= a < self.slots.len() implies (#[trigger] after.slots[a]).time
            == self.slots[a].time by {}
        assert forall|id: Seq<char>|
            count_held(after.slots, id) == #[trigger] count_held(self.slots, id) by {
            lemma_count_update(
                self.slots,
                i,
                SlotView { time: self.slots[i].time, task: self.slots[j].task },
                id,
            );
            lemma_count_update(
                mid.slots,
                j,
                SlotView { time: mid.slots[j].time, task: self.slots[i].task },
                id,
            );
        }
        if self.contained() {
            assert forall|a: int, k: int|
                0 <= a < after.slots.len() && 0 <= k < after.tasks.len() && #[trigger] after.holds(
                    a,
                    k,
                ) implies after.admits(k, a) by {
                if a == i {
                    assert(self.holds(j, k));
                } else if a == j {
                    assert(self.holds(i, k));
                    assert(self.accepts(i, self.slots[j].time));
                } else {
                    assert(self.holds(a, k));
                }
            }
        }
        if self.no_strangers() {
            assert forall|a: int|
                0 <= a < after.slots.len() && (#[trigger] after.slots[a]).task is Some implies exists|
                k: int,
            | 0 <= k < after.tasks.len() && after.holds(a, k) by {
                let b = if a == i {
                    j
                } else if a == j {
                    i
                } else {
                    a
                };
                assert(self.slots[b].task is Some);
                let k = choose|k: int| 0 <= k < self.tasks.len() && self.holds(b, k);
                assert(after.holds(a, k));
            }
        }
    }

    /// A chain of exchanges, each between two slots that may exchange their
    /// contents, keeps what one such exchange keeps.
    pub proof fn lemma_rearranged_keeps(self, swaps: Seq<(int, int)>)
        requires
            self.wf(),
            self.all_swappable(swaps),
        ensures
            self.rearranged(swaps).wf(),
            self.rearranged(swaps).same_frame(self),
            forall|id: Seq<char>|
                count_held(self.rearranged(swaps).slots, id) == #[trigger] count_held(self.slots, id),
            self.contained() ==> self.rearranged(swaps).contained(),
            self.no_strangers() ==> self.rearranged(swaps).no_strangers(),
        decreases swaps.len(),
    {
        if swaps.len() > 0 {
            let before = self.rearranged(swaps.drop_last());
            self.lemma_rearranged_keeps(swaps.drop_last());
            before.lemma_swap_keeps(swaps.last().0, swaps.last().1);
            let after = before.swapped(swaps.last().0, swaps.last().1);
            assert forall|id: Seq<char>|
                count_held(after.slots, id) == #[trigger] count_held(self.slots, id) by {
                assert(count_held(after.slots, id) == count_held(before.slots, id));
            }
            assert forall|a: int| 0 <= a < after.slots.len() implies (#[trigger] after.slots[a]).time
                == self.slots[a].time by {
                assert(before.slots[a].time == self.slots[a].time);
            }
        } else {
            assert(self.rearranged(swaps) == self);
        }
    }

    /// Shuffling moves no task out of its working period, and changes neither
    /// the task table, nor the instants of the slots, nor the number of slots
    /// that any task holds.
    pub proof fn lemma_shuffle_keeps(self, other: Self)
        requires
            self.wf(),
            self.shuffles_to(other),
        ensures
            other.wf(),
            other.same_frame(self),
            forall|k: int| 0 <= k < self.tasks.len() ==> #[trigger] other.have(k) == self.have(k),
            self.contained() ==> other.contained(),
            self.no_strangers() ==> other.no_strangers(),
            self.within_capacity() ==> other.within_capacity(),
    {
        let swaps = choose|swaps: Seq<(int, int)>|
            self.all_swappable(swaps) && self.rearranged(swaps) == other;
        self.lemma_rearranged_keeps(swaps);
        assert forall|k: int| 0 <= k < self.tasks.len() implies #[trigger] other.have(k)
            == self.have(k) by {
            assert(count_held(other.slots, self.tasks[k].0) == count_held(
                self.slots,
                self.tasks[k].0,
            ));
        }
        if self.within_capacity() {
            assert forall|k: int| 0 <= k < other.tasks.len() implies #[trigger] other.have(k)
                <= other.need(k) by {
                assert(self.have(k) <= self.need(k));
            }
        }
    }

    /// Making two chains of exchanges one after the other is making one chain.
    pub proof fn lemma_rearranged_twice(self, first: Seq<(int, int)>, second: Seq<(int, int)>)
        requires
            self.all_swappable(first),
            self.rearranged(first).all_swappable(second),
        ensures
            self.all_swappable(first + second),
            self.rearranged(first + second) == self.rearranged(first).rearranged(second),
        decreases second.len(),
    {
        if second.len() == 0 {
            assert(first + second =~= first);
        } else {
            self.lemma_rearranged_twice(first, second.drop_last());
            assert((first + second).drop_last() =~= first + second.drop_last());
            assert((first + second).last() == second.last());
        }
    }

    /// A schedule is reached from itself by shuffling: every slot may pick
    /// itself.
    pub proof fn lemma_shuffles_to_itself(self)
        ensures
            self.shuffles_to(self),
    {
        let none = Seq::<(int, int)>::empty();
        assert(self.all_swappable(none) && self.rearranged(none) == self);
    }

    /// What any number of shuffles reaches, one after the other, is reached
    /// by one chain of exchanges between slots that may exchange their
    /// contents.
    pub proof fn lemma_shuffles_chain(self, middle: Self, other: Self)
        requires
            self.shuffles_to(middle),
            middle.shuffles_to(other),
        ensures
            self.shuffles_to(other),
    {
        let first = choose|swaps: Seq<(int, int)>|
            self.all_swappable(swaps) && self.rearranged(swaps) == middle;
        let second = choose|swaps: Seq<(int, int)>|
            middle.all_swappable(swaps) && middle.rearranged(swaps) == other;
        self.lemma_rearranged_twice(first, second);
        assert(self.all_swappable(first + second) && self.rearranged(first + second) == other);
    }
}

} // verus!
