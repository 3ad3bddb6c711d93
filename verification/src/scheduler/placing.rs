//! Placing the tasks on the slots.

use crate::allocator::{
    balanced, exhausted, held, holders_fit, holders_known, only_preempted, outranked, preempt,
    reclaim_surplus, seed, unbeatable, wanting_for_cause, Demand, Holders,
};
use crate::scheduler::{
    count_held, lemma_slices_needed, Schedule, ScheduleView, Slot, SlotView, Task,
};
use vstd::prelude::*;

verus! {

/// Where the slots that hold `id` are the slots that `occ` gives to task `k`,
/// the two counts agree.
pub(crate) proof fn lemma_count_matches(slots: Seq<SlotView>, id: Seq<char>, occ: Holders, k: usize)
    requires
        slots.len() == occ.len(),
        forall|i: int|
            0 <= i < slots.len() ==> ((#[trigger] slots[i]).task == Some(id) <==> occ[i] == Some(k)),
    ensures
        count_held(slots, id) == held(occ, k),
    decreases slots.len(),
{
    if slots.len() > 0 {
        assert forall|i: int| 0 <= i < slots.len() - 1 implies ((#[trigger] slots.drop_last()[i]).task
            == Some(id) <==> occ.drop_last()[i] == Some(k)) by {
            assert(slots.drop_last()[i] == slots[i]);
        }
        lemma_count_matches(slots.drop_last(), id, occ.drop_last(), k);
        assert(slots.last() == slots[slots.len() - 1]);
    }
}

impl<T: Task> ScheduleView<T> {
    /// A schedule whose slots are held as the allocator left them is settled.
    pub(crate) proof fn lemma_settled(self, times: Seq<i64>, demands: Seq<Demand>, occ: Holders, want: Seq<u64>)
        requires
            self.wf(),
            self.held_as(occ),
            self.tasks.len() <= usize::MAX,
            times.len() == self.slots.len(),
            forall|i: int| 0 <= i < times.len() ==> times[i] == (#[trigger] self.slots[i]).time,
            demands.len() == self.tasks.len(),
            forall|k: int| 0 <= k < demands.len() ==> #[trigger] demands[k] == self.demand(k),
            holders_fit(times, demands, occ),
            balanced(demands, occ, want),
            wanting_for_cause(times, demands, occ, want),
            forall|q: int|
                0 <= q < demands.len() && #[trigger] want[q] > 0 ==> unbeatable(
                    times,
                    demands,
                    occ,
                    demands[q],
                ),
        ensures
            self.settled(),
            forall|k: int| 0 <= k < self.tasks.len() ==> (#[trigger] self.lacking(k) <==> want[k] > 0),
    {
        assert forall|i: int, k: int|
            0 <= i < self.slots.len() && 0 <= k < self.tasks.len() implies (#[trigger] self.holds(i, k)
            <==> occ[i] == Some(k as usize)) by {
            let row = self.slots[i];
            if self.holds(i, k) {
                let q = occ[i]->0;
                assert(self.tasks[q as int].0 == self.tasks[k].0);
            }
        }
        assert forall|k: int| 0 <= k < self.tasks.len() implies self.have(k) == held(
            occ,
            k as usize,
        ) by {
            assert forall|i: int| 0 <= i < self.slots.len() implies ((#[trigger] self.slots[i]).task
                == Some(self.tasks[k].0) <==> occ[i] == Some(k as usize)) by {
                assert(self.holds(i, k) <==> occ[i] == Some(k as usize));
            }
            lemma_count_matches(self.slots, self.tasks[k].0, occ, k as usize);
        }
        assert forall|k: int| 0 <= k < self.tasks.len() implies self.need(k)
            == demands[k].need by {
            lemma_slices_needed(self.tasks[k].1.length_of(), self.timeslice_length);
            assert(demands[k] == self.demand(k));
        }
        assert forall|k: int| 0 <= k < self.tasks.len() implies (#[trigger] self.lacking(k) <==> want[k]
            > 0) && self.have(k) <= self.need(k) by {
            assert(held(occ, k as usize) + want[k] == demands[k].need);
        }
        assert(self.within_capacity()) by {
            assert forall|k: int| 0 <= k < self.tasks.len() implies #[trigger] self.have(k)
                <= self.need(k) by {
                assert(held(occ, k as usize) + want[k] == demands[k].need);
            }
        }
        assert(self.no_strangers()) by {
            assert forall|i: int|
                0 <= i < self.slots.len() && (#[trigger] self.slots[i]).task is Some implies exists|
                k: int,
            | 0 <= k < self.tasks.len() && self.holds(i, k) by {
                let q = occ[i]->0;
                assert(self.holds(i, q as int));
            }
        }
        assert(self.contained()) by {
            assert forall|i: int, k: int|
                0 <= i < self.slots.len() && 0 <= k < self.tasks.len() && #[trigger] self.holds(
                    i,
                    k,
                ) implies self.admits(k, i) by {
                assert(occ[i] == Some(k as usize));
                assert(demands[k] == self.demand(k));
                assert(demands[k].fits(times[i]));
            }
        }
        assert(self.priority_respected()) by {
            assert forall|k: int, i: int, v: int|
                0 <= k < self.tasks.len() && 0 <= i < self.slots.len() && 0 <= v < self.tasks.len()
                    && self.lacking(k) && #[trigger] self.admits(k, i) && #[trigger] self.holds(
                    i,
                    v,
                ) implies self.priority(v) >= self.priority(k) by {
                assert(want[k] > 0);
                assert(unbeatable(times, demands, occ, demands[k]));
                assert(demands[k] == self.demand(k));
                assert(demands[v] == self.demand(v));
                assert(occ[i] == Some(v as usize));
                assert(demands[k].fits(times[i]));
            }
        }
        assert(self.lacking_for_cause()) by {
            assert forall|k: int| 0 <= k < self.tasks.len() && #[trigger] self.lacking(k) implies self.exhausted(
                k,
            ) || self.outranked(k) by {
                assert(want[k] > 0);
                assert(demands[k] == self.demand(k));
                if exhausted(times, occ, demands[k]) {
                    assert forall|i: int|
                        0 <= i < self.slots.len() && #[trigger] self.admits(k, i) implies self.slots[i].task is Some by {
                        assert(demands[k].fits(times[i]));
                        assert(occ[i] is Some);
                    }
                } else {
                    assert(outranked(times, demands, occ, demands[k]));
                    let i = choose|i: int|
                        0 <= i < occ.len() && demands[k].fits(times[i]) && (#[trigger] occ[i] matches Some(
                            v,
                        ) && demands[v as int].priority > demands[k].priority);
                    let v = occ[i]->0 as int;
                    assert(demands[v] == self.demand(v));
                    assert(self.holds(i, v));
                    assert(self.admits(k, i));
                }
            }
        }
    }
}

impl<T: Task> Schedule<T> {
    /// What the allocator reads of each task.
    fn demands(&self) -> (demands: Vec<Demand>)
        ensures
            demands.len() == self@.tasks.len(),
            forall|k: int| 0 <= k < demands.len() ==> #[trigger] demands[k] == self@.demand(k),
    {
        proof {
            use_type_invariant(self);
        }
        let mut demands: Vec<Demand> = Vec::new();
        let mut k: usize = 0;
        while k < self.tasks.len()
            invariant
                k <= self.tasks.len(),
                self.tasks.len() == self@.tasks.len(),
                self@.timeslice_length == self.timeslice_length,
                self.timeslice_length > 0,
                demands.len() == k,
                forall|q: int| 0 <= q < k ==> #[trigger] demands[q] == self@.demand(q),
            decreases self.tasks.len() - k,
        {
            let task = &self.tasks[k].1;
            let period = task.working_period();
            proof {
                assert(self@.tasks[k as int].1 == *task);
                lemma_slices_needed(task.length_of(), self.timeslice_length);
            }
            demands.push(
                Demand {
                    priority: task.priority(),
                    start: period.start,
                    end: period.end,
                    need: task.divided_into(self.timeslice_length),
                },
            );
            k = k + 1;
        }
        demands
    }

    /// The instants of the slots and, for each slot, the task of the table
    /// that holds it and may work at that time.
    fn holders(&self, demands: &Vec<Demand>) -> (r: (Vec<i64>, Vec<Option<usize>>))
        requires
            demands.len() == self@.tasks.len(),
            forall|k: int| 0 <= k < demands.len() ==> #[trigger] demands[k] == self@.demand(k),
        ensures
            r.0.len() == self@.slots.len(),
            r.1.len() == self@.slots.len(),
            forall|i: int| 0 <= i < r.0.len() ==> #[trigger] r.0[i] == self@.slots[i].time,
            holders_known(r.1@, self@.tasks.len()),
            holders_fit(r.0@, demands@, r.1@),
            forall|i: int, k: int|
                0 <= i < r.1.len() && 0 <= k < self@.tasks.len() ==> (#[trigger] r.1[i] == Some(
                    k as usize,
                ) <==> #[trigger] self@.holds(i, k) && self@.admits(k, i)),
    {
        proof {
            use_type_invariant(self);
        }
        let mut times: Vec<i64> = Vec::new();
        let mut occ: Vec<Option<usize>> = Vec::new();
        let mut i: usize = 0;
        while i < self.slots.len()
            invariant
                i <= self.slots.len(),
                self@.wf(),
                self.slots.len() == self@.slots.len(),
                demands.len() == self@.tasks.len(),
                forall|k: int| 0 <= k < demands.len() ==> #[trigger] demands[k] == self@.demand(k),
                times.len() == i,
                occ.len() == i,
                forall|j: int| 0 <= j < i ==> #[trigger] times[j] == self@.slots[j].time,
                holders_known(occ@, self@.tasks.len()),
                holders_fit(times@, demands@, occ@),
                forall|j: int, k: int|
                    0 <= j < i && 0 <= k < self@.tasks.len() ==> (#[trigger] occ[j] == Some(
                        k as usize,
                    ) <==> #[trigger] self@.holds(j, k) && self@.admits(k, j)),
            decreases self.slots.len() - i,
        {
            let slot = &self.slots[i];
            assert(self@.slots[i as int] == slot@);
            let holder = match &slot.task {
                Some(id) => match self.position_of(id) {
                    Some(k) => if demands[k].admits(slot.time) {
                        Some(k)
                    } else {
                        None
                    },
                    None => None,
                },
                None => None,
            };
            proof {
                assert forall|k: int| 0 <= k < self@.tasks.len() implies (holder == Some(
                    k as usize,
                ) <==> self@.holds(i as int, k) && self@.admits(k, i as int)) by {
                    assert(demands[k] == self@.demand(k));
                    if self@.holds(i as int, k) {
                        assert(self@.has_task(slot.task->0@));
                    }
                }
            }
            times.push(slot.time);
            occ.push(holder);
            i = i + 1;
        }
        (times, occ)
    }

    /// Gives each slot to the task that `occ` names for it.
    fn assign(&mut self, occ: &Vec<Option<usize>>)
        requires
            occ.len() == old(self)@.slots.len(),
            holders_known(occ@, old(self)@.tasks.len()),
        ensures
            final(self)@.same_frame(old(self)@),
            final(self)@.wf(),
            final(self)@.held_as(occ@),
    {
        proof {
            use_type_invariant(&*self);
        }
        let mut fresh: Vec<Slot> = Vec::new();
        let mut i: usize = 0;
        while i < self.slots.len()
            invariant
                i <= self.slots.len(),
                self@ == old(self)@,
                self.slots.len() == self@.slots.len(),
                self.tasks.len() == self@.tasks.len(),
                occ.len() == self.slots.len(),
                holders_known(occ@, self@.tasks.len()),
                fresh.len() == i,
                forall|j: int| 0 <= j < i ==> (#[trigger] fresh[j])@.time == self@.slots[j].time,
                forall|j: int|
                    0 <= j < i ==> (#[trigger] fresh[j])@.task == match occ[j] {
                        Some(k) => Some(self@.tasks[k as int].0),
                        None => None,
                    },
            decreases self.slots.len() - i,
        {
            let task = match occ[i] {
                Some(k) => {
                    assert(self@.tasks[k as int].0 == self.tasks[k as int].0@);
                    Some(self.tasks[k].0.clone())
                },
                None => None,
            };
            assert(self@.slots[i as int] == self.slots[i as int]@);
            fresh.push(Slot { time: self.slots[i].time, task });
            i = i + 1;
        }
        proof {
            let after = ScheduleView::<T> {
                tasks: self@.tasks,
                slots: Seq::new(fresh.len() as nat, |j: int| fresh[j]@),
                timeslice_length: self@.timeslice_length,
            };
            assert(after.wf()) by {
                assert forall|a: int, b: int| 0 <= a < b < after.slots.len() implies (
                #[trigger] after.slots[a]).time < (#[trigger] after.slots[b]).time by {
                    assert(self@.slots[a].time < self@.slots[b].time);
                }
            }
        }
        self.slots = fresh;
        proof {
            assert(self@.tasks =~= old(self)@.tasks);
        }
    }

    /// The IDs of the tasks that still want slots, in the order of the table.
    fn wanting(&self, want: &Vec<u64>) -> (failed: Vec<String>)
        requires
            want.len() == self@.tasks.len(),
            forall|k: int| 0 <= k < self@.tasks.len() ==> (#[trigger] self@.lacking(k) <==> want[k] > 0),
        ensures
            failed.deep_view() == self@.unsatisfied(),
    {
        let mut failed: Vec<String> = Vec::new();
        let mut k: usize = 0;
        while k < self.tasks.len()
            invariant
                k <= self.tasks.len(),
                self.tasks.len() == self@.tasks.len(),
                want.len() == self@.tasks.len(),
                forall|q: int|
                    0 <= q < self@.tasks.len() ==> (#[trigger] self@.lacking(q) <==> want[q] > 0),
                failed.deep_view() == self@.unsatisfied_among(k as int),
            decreases self.tasks.len() - k,
        {
            if want[k] > 0 {
                let ghost before = failed.deep_view();
                assert(self@.tasks[k as int].0 == self.tasks[k as int].0@);
                failed.push(self.tasks[k].0.clone());
                assert(failed.deep_view() =~= before.push(self@.tasks[k as int].0));
            }
            k = k + 1;
        }
        failed
    }

    /// Try to satisfy every task. Returns the IDs of the tasks that remain
    /// unsatisfied.
    ///
    /// Slots held by a task that is gone, that may not work at that time or
    /// that holds more than it requires (the earliest first) are freed. Then
    /// every task in turn, the one with the shortest working period first,
    /// takes empty slots of its working period in time order. Last, pass
    /// after pass in the order of the table, every unsatisfied task takes
    /// slots of its working period from tasks of strictly lower priority, the
    /// lowest first, until a pass takes none.
    pub fn schedule(&mut self) -> (failed: Vec<String>)
        ensures
            final(self)@ == old(self)@.scheduled(),
            final(self)@.same_frame(old(self)@),
            final(self)@.settled(),
            failed.deep_view() == final(self)@.unsatisfied(),
            old(self)@.contained() ==> old(self)@.kept_by(final(self)@),
    {
        proof {
            use_type_invariant(&*self);
        }
        let demands = self.demands();
        let (times, mut occ) = self.holders(&demands);
        let ghost given = occ@;
        proof {
            let before = old(self)@;
            assert(demands@ =~= before.demands());
            assert(times@ =~= before.times());
            assert forall|i: int| 0 <= i < given.len() implies given[i] == before.given()[i] by {
                if given[i] is Some {
                    let k = given[i]->0 as int;
                    assert(before.holds(i, k) && before.admits(k, i));
                    let q = choose|q: int|
                        0 <= q < before.tasks.len() && #[trigger] before.holds(i, q)
                            && before.admits(q, i);
                    assert(before.tasks[q].0 == before.tasks[k].0);
                } else {
                    if exists|q: int|
                        0 <= q < before.tasks.len() && #[trigger] before.holds(i, q)
                            && before.admits(q, i) {
                        let q = choose|q: int|
                            0 <= q < before.tasks.len() && #[trigger] before.holds(i, q)
                                && before.admits(q, i);
                        assert(given[i] == Some(q as usize));
                    }
                }
            }
            assert(given =~= before.given());
        }
        let mut want = reclaim_surplus(&demands, &mut occ);
        let ghost kept = occ@;
        assert(holders_known(occ@, demands.len() as nat));
        assert(holders_fit(times@, demands@, occ@));
        seed(&times, &demands, &mut occ, &mut want);
        let ghost seeded = occ@;
        assert(wanting_for_cause(times@, demands@, occ@, want@));
        preempt(&times, &demands, &mut occ, &mut want);
        self.assign(&occ);
        proof {
            let before = old(self)@;
            let after = self@;
            assert(occ@ == before.placed());
            assert(after.slots =~= before.scheduled().slots);
            after.lemma_settled(times@, demands@, occ@, want@);
            if before.contained() {
                assert forall|i: int, k: int|
                    0 <= i < before.slots.len() && 0 <= k < before.tasks.len() && #[trigger] before.holds(
                        i,
                        k,
                    ) && before.have(k) <= before.need(k) implies exists|w: int|
                    0 <= w < after.tasks.len() && #[trigger] after.holds(i, w) && (w == k
                        || after.priority(w) > after.priority(k)) by {
                    assert forall|j: int| 0 <= j < before.slots.len() implies ((
                    #[trigger] before.slots[j]).task == Some(before.tasks[k].0) <==> given[j] == Some(
                        k as usize,
                    )) by {
                        assert(before.holds(j, k) <==> given[j] == Some(k as usize));
                    }
                    lemma_count_matches(before.slots, before.tasks[k].0, given, k as usize);
                    lemma_slices_needed(before.tasks[k].1.length_of(), before.timeslice_length);
                    assert(demands[k] == before.demand(k));
                    assert(given[i] == Some(k as usize));
                    assert(kept[i] == Some(k as usize));
                    assert(seeded[i] == kept[i]);
                    assert(only_preempted(demands@, seeded, occ@));
                    let w = occ[i]->0 as int;
                    assert(demands[w] == before.demand(w));
                    assert(after.holds(i, w));
                }
            }
        }
        self.wanting(&want)
    }
}

impl<T: Task> ScheduleView<T> {
    /// The list of the unsatisfied tasks among the first `n` holds the IDs of
    /// exactly those of them that hold fewer slots than they require.
    pub proof fn lemma_unsatisfied_among(self, n: int)
        requires
            0 <= n <= self.tasks.len(),
        ensures
            forall|id: Seq<char>|
                #[trigger] self.unsatisfied_among(n).contains(id) <==> exists|k: int|
                    0 <= k < n && (#[trigger] self.tasks[k]).0 == id && self.lacking(k),
        decreases n,
    {
        if n > 0 {
            self.lemma_unsatisfied_among(n - 1);
            let shorter = self.unsatisfied_among(n - 1);
            let whole = self.unsatisfied_among(n);
            assert forall|id: Seq<char>| #[trigger] whole.contains(id) <==> exists|k: int|
                0 <= k < n && (#[trigger] self.tasks[k]).0 == id && self.lacking(k) by {
                if whole.contains(id) {
                    let i = choose|i: int| 0 <= i < whole.len() && whole[i] == id;
                    if self.lacking(n - 1) && i == whole.len() - 1 {
                        assert(self.tasks[n - 1].0 == id);
                    } else {
                        assert(shorter[i] == id);
                        assert(shorter.contains(id));
                    }
                }
                if exists|k: int| 0 <= k < n && (#[trigger] self.tasks[k]).0 == id && self.lacking(k) {
                    let k = choose|k: int|
                        0 <= k < n && (#[trigger] self.tasks[k]).0 == id && self.lacking(k);
                    if k == n - 1 {
                        assert(whole[whole.len() - 1] == id);
                    } else {
                        assert(shorter.contains(id));
                        let i = choose|i: int| 0 <= i < shorter.len() && shorter[i] == id;
                        assert(whole[i] == id);
                    }
                }
            }
        }
    }

    /// Once the tasks are placed, a task whose ID is in the list of the
    /// unsatisfied tasks holds fewer slots than it requires, a task whose ID
    /// is not in it holds exactly as many as it requires, and no task holds
    /// more.
    pub proof fn lemma_capacity(self, k: int)
        requires
            self.settled(),
            0 <= k < self.tasks.len(),
        ensures
            self.have(k) <= self.need(k),
            self.unsatisfied().contains(self.tasks[k].0) <==> self.have(k) < self.need(k),
            !self.unsatisfied().contains(self.tasks[k].0) <==> self.have(k) == self.need(k),
    {
        self.lemma_unsatisfied_among(self.tasks.len() as int);
        assert(self.have(k) <= self.need(k));
        if self.unsatisfied().contains(self.tasks[k].0) {
            let q = choose|q: int|
                0 <= q < self.tasks.len() && (#[trigger] self.tasks[q]).0 == self.tasks[k].0
                    && self.lacking(q);
            assert(q == k);
        }
    }
}

} // verus!
