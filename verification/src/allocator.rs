//! The allocator at the heart of the scheduler, on plain numbers: slots are
//! positions in a time-ordered list, tasks are positions in the task table.

use crate::order::{
    lemma_sorted_keeps_items, lemma_stable_sort, positions_rise, sorted_by_key, sorted_of, Keyed,
};
use vstd::prelude::*;

verus! {

/// What the allocator reads of one task.
#[derive(Clone, Copy, Debug)]
pub struct Demand {
    /// Higher is more important.
    pub priority: i64,
    /// Start of the working period.
    pub start: i64,
    /// End of the working period, which is not part of it.
    pub end: i64,
    /// The number of slots that the task requires.
    pub need: u64,
}

/// Who holds each slot: the position of a task, or nobody.
pub type Holders = Seq<Option<usize>>;

impl Demand {
    /// Whether the working period contains the instant `t`.
    pub open spec fn fits(self, t: i64) -> bool {
        self.start <= t < self.end
    }

    /// Whether the working period contains the instant `t`.
    pub fn admits(&self, t: i64) -> (r: bool)
        ensures
            r == self.fits(t),
    {
        self.start <= t && t < self.end
    }
}

/// The number of slots that task `k` holds.
pub open spec fn held(occ: Holders, k: usize) -> nat
    decreases occ.len(),
{
    if occ.len() == 0 {
        0
    } else {
        held(occ.drop_last(), k) + if occ.last() == Some(k) {
            1nat
        } else {
            0nat
        }
    }
}

/// Every holder is a task of a table of `n` tasks.
pub open spec fn holders_known(occ: Holders, n: nat) -> bool {
    forall|i: int| 0 <= i < occ.len() ==> (#[trigger] occ[i] matches Some(k) ==> k < n)
}

/// Every held slot lies in the working period of its holder.
pub open spec fn holders_fit(times: Seq<i64>, demands: Seq<Demand>, occ: Holders) -> bool {
    forall|i: int|
        0 <= i < occ.len() ==> (#[trigger] occ[i] matches Some(k) ==> demands[k as int].fits(
            times[i],
        ))
}

/// For every task, the slots it holds and the slots it still wants add up to
/// the slots it requires.
pub open spec fn balanced(demands: Seq<Demand>, occ: Holders, want: Seq<u64>) -> bool {
    &&& want.len() == demands.len()
    &&& forall|k: usize|
        k < demands.len() ==> held(occ, k) + #[trigger] want[k as int] == demands[k as int].need
}

/// No slot in the working period of `d` is empty.
pub open spec fn exhausted(times: Seq<i64>, occ: Holders, d: Demand) -> bool {
    forall|i: int| 0 <= i < occ.len() && d.fits(times[i]) ==> #[trigger] occ[i] is Some
}

/// Some slot in the working period of `d` is held by a task of strictly
/// higher priority.
pub open spec fn outranked(times: Seq<i64>, demands: Seq<Demand>, occ: Holders, d: Demand) -> bool {
    exists|i: int|
        0 <= i < occ.len() && d.fits(times[i]) && (#[trigger] occ[i] matches Some(v)
            && demands[v as int].priority > d.priority)
}

/// No slot in the working period of `d` is held by a task of strictly lower
/// priority.
pub open spec fn unbeatable(times: Seq<i64>, demands: Seq<Demand>, occ: Holders, d: Demand) -> bool {
    forall|i: int|
        0 <= i < occ.len() && d.fits(times[i]) ==> (#[trigger] occ[i] matches Some(v)
            ==> demands[v as int].priority >= d.priority)
}

/// Slot by slot, `after` keeps the holder of `before` or replaces it by a task
/// of strictly higher priority.
pub open spec fn only_preempted(demands: Seq<Demand>, before: Holders, after: Holders) -> bool {
    &&& after.len() == before.len()
    &&& forall|i: int|
        0 <= i < before.len() ==> (#[trigger] before[i] matches Some(v) ==> (after[i] matches Some(w)
            && (w == v || demands[w as int].priority > demands[v as int].priority)))
}

/// How far slot holder `o` is below the highest priority there is.
pub open spec fn slack(demands: Seq<Demand>, o: Option<usize>) -> nat {
    match o {
        Some(k) => if k < demands.len() {
            (i64::MAX - demands[k as int].priority) as nat
        } else {
            0
        },
        None => 0,
    }
}

/// The slack of all slots together. A preemption lowers it.
pub open spec fn total_slack(demands: Seq<Demand>, occ: Holders) -> nat
    decreases occ.len(),
{
    if occ.len() == 0 {
        0
    } else {
        total_slack(demands, occ.drop_last()) + slack(demands, occ.last())
    }
}

/// A task holds no more slots than there are.
pub proof fn lemma_held_bound(occ: Holders, k: usize)
    ensures
        held(occ, k) <= occ.len(),
    decreases occ.len(),
{
    if occ.len() > 0 {
        lemma_held_bound(occ.drop_last(), k);
    }
}

/// One more slot adds one to the count of its holder.
pub proof fn lemma_held_push(occ: Holders, o: Option<usize>, k: usize)
    ensures
        held(occ.push(o), k) == held(occ, k) + if o == Some(k) {
            1nat
        } else {
            0nat
        },
{
    assert(occ.push(o).drop_last() =~= occ);
}

/// Giving slot `i` to another holder takes one from the count of the old
/// holder and adds one to the count of the new.
pub proof fn lemma_held_update(occ: Holders, i: int, o: Option<usize>, k: usize)
    requires
        0 <= i < occ.len(),
    ensures
        held(occ.update(i, o), k) + (if occ[i] == Some(k) {
            1nat
        } else {
            0nat
        }) == held(occ, k) + (if o == Some(k) {
            1nat
        } else {
            0nat
        }),
    decreases occ.len(),
{
    if i == occ.len() - 1 {
        assert(occ.update(i, o).drop_last() =~= occ.drop_last());
    } else {
        assert(occ.update(i, o).drop_last() =~= occ.drop_last().update(i, o));
        lemma_held_update(occ.drop_last(), i, o, k);
    }
}

/// A task holds no slot exactly if no slot names it.
pub proof fn lemma_held_none(occ: Holders, k: usize)
    ensures
        held(occ, k) == 0 <==> (forall|i: int| 0 <= i < occ.len() ==> occ[i] != Some(k)),
    decreases occ.len(),
{
    if occ.len() > 0 {
        lemma_held_none(occ.drop_last(), k);
        if held(occ, k) == 0 {
            assert forall|i: int| 0 <= i < occ.len() implies occ[i] != Some(k) by {
                if i < occ.len() - 1 {
                    assert(occ.drop_last()[i] == occ[i]);
                }
            }
        } else if occ.last() != Some(k) {
            let j = choose|j: int| 0 <= j < occ.len() - 1 && occ.drop_last()[j] == Some(k);
            assert(occ[j] == Some(k));
        }
    }
}

/// A task that a slot names holds a slot.
pub proof fn lemma_held_some(occ: Holders, i: int, k: usize)
    requires
        0 <= i < occ.len(),
        occ[i] == Some(k),
    ensures
        held(occ, k) >= 1,
{
    lemma_held_none(occ, k);
}

/// Giving slot `i` to another holder changes the slack by the slack of the
/// two holders.
pub proof fn lemma_total_slack_update(demands: Seq<Demand>, occ: Holders, i: int, o: Option<usize>)
    requires
        0 <= i < occ.len(),
    ensures
        total_slack(demands, occ.update(i, o)) + slack(demands, occ[i]) == total_slack(
            demands,
            occ,
        ) + slack(demands, o),
    decreases occ.len(),
{
    if i == occ.len() - 1 {
        assert(occ.update(i, o).drop_last() =~= occ.drop_last());
    } else {
        assert(occ.update(i, o).drop_last() =~= occ.drop_last().update(i, o));
        lemma_total_slack_update(demands, occ.drop_last(), i, o);
    }
}

/// Counts the slots that each of `n` tasks holds.
fn count_held(occ: &Vec<Option<usize>>, n: usize) -> (have: Vec<usize>)
    requires
        holders_known(occ@, n as nat),
    ensures
        have.len() == n,
        forall|k: usize| k < n ==> #[trigger] have[k as int] == held(occ@, k),
{
    let mut have: Vec<usize> = Vec::new();
    let mut k: usize = 0;
    while k < n
        invariant
            k <= n,
            have.len() == k,
            forall|j: int| 0 <= j < k ==> have[j] == 0,
        decreases n - k,
    {
        have.push(0);
        k = k + 1;
    }
    let mut i: usize = 0;
    while i < occ.len()
        invariant
            i <= occ.len(),
            have.len() == n,
            holders_known(occ@, n as nat),
            forall|k: usize| k < n ==> #[trigger] have[k as int] == held(occ@.take(i as int), k),
        decreases occ.len() - i,
    {
        proof {
            assert(occ@.take(i as int + 1) =~= occ@.take(i as int).push(occ@[i as int]));
            assert forall|k: usize| k < n implies held(occ@.take(i as int + 1), k) == held(
                occ@.take(i as int),
                k,
            ) + if occ@[i as int] == Some(k) {
                1nat
            } else {
                0nat
            } by {
                lemma_held_push(occ@.take(i as int), occ@[i as int], k);
            }
        }
        match occ[i] {
            Some(k) => {
                proof {
                    lemma_held_bound(occ@.take(i as int), k);
                }
                let h = have[k];
                have.set(k, h + 1);
            },
            None => {},
        }
        i = i + 1;
    }
    proof {
        assert(occ@.take(occ.len() as int) =~= occ@);
    }
    have
}

/// The number of slots that task `k` holds beyond those it requires.
pub open spec fn surplus(demands: Seq<Demand>, occ: Holders, k: usize) -> int {
    if held(occ, k) > demands[k as int].need {
        held(occ, k) - demands[k as int].need
    } else {
        0
    }
}

/// The holders once every task that holds more slots than it requires has
/// given up the earliest of them.
pub open spec fn reclaimed(demands: Seq<Demand>, occ: Holders) -> Holders {
    Seq::new(
        occ.len(),
        |i: int|
            match occ[i] {
                Some(k) => if held(occ.take(i), k) < surplus(demands, occ, k) {
                    None
                } else {
                    Some(k)
                },
                None => None,
            },
    )
}

/// Frees slots of tasks that hold more than they require, the earliest slots
/// first, and returns how many slots each task still wants.
pub(crate) fn reclaim_surplus(demands: &Vec<Demand>, occ: &mut Vec<Option<usize>>) -> (want: Vec<u64>)
    requires
        holders_known(old(occ)@, demands.len() as nat),
    ensures
        final(occ).len() == old(occ).len(),
        final(occ)@ == reclaimed(demands@, old(occ)@),
        balanced(demands@, final(occ)@, want@),
        forall|i: int|
            0 <= i < old(occ).len() ==> #[trigger] final(occ)[i] is None || final(occ)[i] == old(
                occ,
            )[i],
        forall|i: int|
            0 <= i < old(occ).len() ==> (#[trigger] old(occ)[i] matches Some(k) ==> held(
                old(occ)@,
                k,
            ) <= demands[k as int].need ==> final(occ)[i] == Some(k)),
        forall|i: int, j: int|
            #![trigger final(occ)[i], final(occ)[j]]
            0 <= i < j < old(occ).len() && old(occ)[j] is Some && old(occ)[i] == old(occ)[j]
                && final(occ)[j] is None ==> final(occ)[i] is None,
{
    let n = demands.len();
    let m = occ.len();
    let mut have = count_held(occ, n);
    let mut i: usize = 0;
    while i < m
        invariant
            i <= m,
            m == occ.len(),
            m == old(occ).len(),
            n == demands.len(),
            have.len() == n,
            holders_known(occ@, n as nat),
            holders_known(old(occ)@, n as nat),
            forall|k: usize| k < n ==> #[trigger] have[k as int] == held(occ@, k),
            forall|k: usize|
                k < n ==> #[trigger] have[k as int] + (if held(old(occ)@.take(i as int), k) < surplus(
                    demands@,
                    old(occ)@,
                    k,
                ) {
                    held(old(occ)@.take(i as int), k) as int
                } else {
                    surplus(demands@, old(occ)@, k)
                }) == held(old(occ)@, k),
            forall|j: int| 0 <= j < i ==> #[trigger] occ[j] == reclaimed(demands@, old(occ)@)[j],
            forall|k: usize|
                k < n && #[trigger] have[k as int] > demands[k as int].need ==> held(
                    occ@.take(i as int),
                    k,
                ) == 0,
            forall|k: usize|
                k < n && held(old(occ)@, k) <= demands[k as int].need ==> #[trigger] have[k as int]
                    <= demands[k as int].need,
            forall|j: int| 0 <= j < m ==> #[trigger] occ[j] is None || occ[j] == old(occ)[j],
            forall|j: int| i <= j < m ==> #[trigger] occ[j] == old(occ)[j],
            forall|j: int|
                0 <= j < i ==> (#[trigger] old(occ)[j] matches Some(k) ==> held(old(occ)@, k)
                    <= demands[k as int].need ==> occ[j] == Some(k)),
            forall|j: int, l: int|
                #![trigger occ[j], occ[l]]
                0 <= j < l < i && old(occ)[l] is Some && old(occ)[j] == old(occ)[l]
                    && occ[l] is None ==> occ[j] is None,
        decreases m - i,
    {
        let ghost before = occ@;
        proof {
            assert(before.take(i as int + 1) =~= before.take(i as int).push(before[i as int]));
            assert(old(occ)@.take(i as int + 1) =~= old(occ)@.take(i as int).push(
                old(occ)@[i as int],
            ));
            assert forall|q: usize| q < n implies held(old(occ)@.take(i as int + 1), q) == held(
                old(occ)@.take(i as int),
                q,
            ) + if old(occ)@[i as int] == Some(q) {
                1nat
            } else {
                0nat
            } by {
                lemma_held_push(old(occ)@.take(i as int), old(occ)@[i as int], q);
            }
        }
        match occ[i] {
            Some(k) => {
                if have[k] as u64 > demands[k].need {
                    proof {
                        lemma_held_some(before, i as int, k);
                        lemma_held_none(before.take(i as int), k);
                        assert forall|j: int|
                            0 <= j < i && old(occ)[j] == old(occ)[i as int] implies before[j] is None by {
                            assert(before.take(i as int)[j] == before[j]);
                        }
                    }
                    occ.set(i, None);
                    let h = have[k];
                    have.set(k, h - 1);
                    proof {
                        assert(occ@ == before.update(i as int, None));
                        assert forall|q: usize| q < n implies #[trigger] have[q as int] == held(
                            occ@,
                            q,
                        ) by {
                            lemma_held_update(before, i as int, None, q);
                        }
                        assert(occ@.take(i as int + 1) =~= before.take(i as int).push(None));
                        assert forall|q: usize|
                            q < n && #[trigger] have[q as int] > demands[q as int].need implies held(
                            occ@.take(i as int + 1),
                            q,
                        ) == 0 by {
                            lemma_held_push(before.take(i as int), None, q);
                        }
                    }
                } else {
                    proof {
                        assert forall|q: usize|
                            q < n && #[trigger] have[q as int] > demands[q as int].need implies held(
                            occ@.take(i as int + 1),
                            q,
                        ) == 0 by {
                            lemma_held_push(before.take(i as int), before[i as int], q);
                        }
                    }
                }
            },
            None => {
                proof {
                    assert forall|q: usize|
                        q < n && #[trigger] have[q as int] > demands[q as int].need implies held(
                        occ@.take(i as int + 1),
                        q,
                    ) == 0 by {
                        lemma_held_push(before.take(i as int), before[i as int], q);
                    }
                }
            },
        }
        i = i + 1;
    }
    proof {
        assert(occ@.take(m as int) =~= occ@);
        assert(occ@ =~= reclaimed(demands@, old(occ)@));
    }
    let mut want: Vec<u64> = Vec::new();
    let mut k: usize = 0;
    while k < n
        invariant
            k <= n,
            n == demands.len(),
            have.len() == n,
            want.len() == k,
            forall|q: usize| q < n ==> #[trigger] have[q as int] == held(occ@, q),
            forall|q: usize| q < n ==> #[trigger] have[q as int] <= demands[q as int].need,
            forall|q: usize|
                q < k ==> held(occ@, q) + #[trigger] want[q as int] == demands[q as int].need,
        decreases n - k,
    {
        want.push(demands[k].need - have[k] as u64);
        k = k + 1;
    }
    want
}

/// The number of slots that task `k` lacks.
pub open spec fn lack(demands: Seq<Demand>, occ: Holders, k: usize) -> int {
    demands[k as int].need - held(occ, k)
}

/// The number of empty slots in the working period of `d` among the first
/// `i` slots.
pub open spec fn free_before(times: Seq<i64>, d: Demand, occ: Holders, i: int) -> nat
    decreases i,
{
    if i <= 0 {
        0
    } else {
        free_before(times, d, occ, i - 1) + if occ[i - 1] is None && d.fits(times[i - 1]) {
            1nat
        } else {
            0nat
        }
    }
}

/// The holders once task `k` has taken the empty slots of its working period,
/// in time order, as far as it lacks slots.
pub open spec fn claimed(times: Seq<i64>, demands: Seq<Demand>, occ: Holders, k: usize) -> Holders {
    Seq::new(
        occ.len(),
        |i: int|
            if occ[i] is None && demands[k as int].fits(times[i]) && free_before(
                times,
                demands[k as int],
                occ,
                i,
            ) < lack(demands, occ, k) {
                Some(k)
            } else {
                occ[i]
            },
    )
}

/// Among more slots there are no fewer empty ones.
pub proof fn lemma_free_before_grows(times: Seq<i64>, d: Demand, occ: Holders, i: int, j: int)
    requires
        i <= j,
    ensures
        free_before(times, d, occ, i) <= free_before(times, d, occ, j),
    decreases j - i,
{
    if i < j {
        lemma_free_before_grows(times, d, occ, i, j - 1);
    }
}

/// Lets task `k` take empty slots of its working period, in time order, until
/// it wants no more or has passed every slot.
fn claim(
    times: &Vec<i64>,
    demands: &Vec<Demand>,
    occ: &mut Vec<Option<usize>>,
    want: &mut Vec<u64>,
    k: usize,
)
    requires
        k < demands.len(),
        old(occ).len() == times.len(),
        holders_known(old(occ)@, demands.len() as nat),
        holders_fit(times@, demands@, old(occ)@),
        balanced(demands@, old(occ)@, old(want)@),
    ensures
        final(occ).len() == times.len(),
        final(occ)@ == claimed(times@, demands@, old(occ)@, k),
        holders_known(final(occ)@, demands.len() as nat),
        holders_fit(times@, demands@, final(occ)@),
        balanced(demands@, final(occ)@, final(want)@),
        forall|i: int|
            0 <= i < times.len() && old(occ)[i] is Some ==> #[trigger] final(occ)[i] == old(occ)[i],
        forall|q: int| 0 <= q < demands.len() ==> #[trigger] final(want)[q] <= old(want)[q],
        final(want)[k as int] > 0 ==> exhausted(times@, final(occ)@, demands[k as int]),
{
    let m = times.len();
    let d = demands[k];
    let ghost given = occ@;
    let ghost lacking = want[k as int] as int;
    proof {
        assert(held(given, k) + want[k as int] == demands[k as int].need);
    }
    let mut i: usize = 0;
    while i < m && want[k] > 0
        invariant
            i <= m,
            m == times.len(),
            m == occ.len(),
            m == given.len(),
            given == old(occ)@,
            k < demands.len(),
            d == demands[k as int],
            lacking == lack(demands@, given, k),
            holders_known(occ@, demands.len() as nat),
            holders_fit(times@, demands@, occ@),
            balanced(demands@, occ@, want@),
            forall|j: int| 0 <= j < m && old(occ)[j] is Some ==> #[trigger] occ[j] == old(occ)[j],
            forall|q: int| 0 <= q < demands.len() ==> #[trigger] want[q] <= old(want)[q],
            forall|j: int| 0 <= j < i && d.fits(times[j]) ==> #[trigger] occ[j] is Some,
            forall|j: int| i <= j < m ==> #[trigger] occ[j] == given[j],
            forall|j: int| 0 <= j < i ==> #[trigger] occ[j] == claimed(times@, demands@, given, k)[j],
            free_before(times@, d, given, i as int) < lacking ==> want[k as int] + free_before(
                times@,
                d,
                given,
                i as int,
            ) == lacking,
            free_before(times@, d, given, i as int) >= lacking ==> want[k as int] == 0,
        decreases m - i,
    {
        if occ[i].is_none() && d.admits(times[i]) {
            let ghost before = occ@;
            let ghost wanted = want@;
            occ.set(i, Some(k));
            let w = want[k];
            want.set(k, w - 1);
            proof {
                assert forall|q: usize| q < demands.len() implies held(occ@, q) + #[trigger] want[q as int]
                    == demands[q as int].need by {
                    lemma_held_update(before, i as int, Some(k), q);
                    assert(held(before, q) + wanted[q as int] == demands[q as int].need);
                }
            }
        }
        i = i + 1;
    }
    proof {
        let wanted = claimed(times@, demands@, given, k);
        assert forall|j: int| 0 <= j < m implies occ[j] == wanted[j] by {
            if j >= i {
                lemma_free_before_grows(times@, d, given, i as int, j);
            }
        }
        assert(occ@ =~= wanted);
    }
}

/// The length of the working period of every task, with the position of the
/// task.
pub open spec fn window_keys(demands: Seq<Demand>) -> Seq<Keyed> {
    Seq::new(demands.len(), |k: int| ((demands[k].end - demands[k].start) as i128, k as usize))
}

/// The holders once the tasks of the first `t` turns have taken their slots.
pub open spec fn seeded_by(
    times: Seq<i64>,
    demands: Seq<Demand>,
    occ: Holders,
    turns: Seq<Keyed>,
    t: int,
) -> Holders
    decreases t,
{
    if t <= 0 {
        occ
    } else {
        let before = seeded_by(times, demands, occ, turns, t - 1);
        let k = turns[t - 1].1;
        if k < demands.len() {
            claimed(times, demands, before, k)
        } else {
            before
        }
    }
}

/// The holders after the greedy seed: every task in turn, the one with the
/// shortest working period first, has taken empty slots of its working
/// period in time order.
pub open spec fn seeded(times: Seq<i64>, demands: Seq<Demand>, occ: Holders) -> Holders {
    let turns = sorted_of(window_keys(demands));
    seeded_by(times, demands, occ, turns, turns.len() as int)
}

/// The greedy seed: every task in turn, the one with the shortest working
/// period first, takes empty slots of its working period in time order.
pub(crate) fn seed(
    times: &Vec<i64>,
    demands: &Vec<Demand>,
    occ: &mut Vec<Option<usize>>,
    want: &mut Vec<u64>,
)
    requires
        old(occ).len() == times.len(),
        holders_known(old(occ)@, demands.len() as nat),
        holders_fit(times@, demands@, old(occ)@),
        balanced(demands@, old(occ)@, old(want)@),
    ensures
        final(occ).len() == times.len(),
        final(occ)@ == seeded(times@, demands@, old(occ)@),
        holders_known(final(occ)@, demands.len() as nat),
        holders_fit(times@, demands@, final(occ)@),
        balanced(demands@, final(occ)@, final(want)@),
        forall|i: int|
            0 <= i < times.len() && old(occ)[i] is Some ==> #[trigger] final(occ)[i] == old(occ)[i],
        forall|k: int|
            0 <= k < demands.len() && #[trigger] final(want)[k] > 0 ==> exhausted(
                times@,
                final(occ)@,
                demands[k],
            ),
{
    let n = demands.len();
    let mut keys: Vec<Keyed> = Vec::new();
    let mut k: usize = 0;
    while k < n
        invariant
            k <= n,
            n == demands.len(),
            keys.len() == k,
            forall|q: int| 0 <= q < k ==> (#[trigger] keys[q]).1 == q,
            forall|q: int| 0 <= q < k ==> #[trigger] keys[q] == window_keys(demands@)[q],
        decreases n - k,
    {
        let d = demands[k];
        keys.push((d.end as i128 - d.start as i128, k));
        k = k + 1;
    }
    let ghost unsorted = keys@;
    let turns = sorted_by_key(keys);
    proof {
        lemma_sorted_keeps_items(unsorted, turns@);
        assert(unsorted =~= window_keys(demands@));
        lemma_stable_sort(unsorted, turns@);
    }
    let mut t: usize = 0;
    while t < turns.len()
        invariant
            t <= turns.len(),
            n == demands.len(),
            occ.len() == times.len(),
            holders_known(occ@, n as nat),
            holders_fit(times@, demands@, occ@),
            balanced(demands@, occ@, want@),
            old(occ).len() == times.len(),
            unsorted.len() == n,
            occ@ == seeded_by(times@, demands@, old(occ)@, turns@, t as int),
            turns@ == sorted_of(window_keys(demands@)),
            forall|q: int| 0 <= q < n ==> (#[trigger] unsorted[q]).1 == q,
            forall|x: Keyed| unsorted.contains(x) <==> turns@.contains(x),
            forall|i: int| 0 <= i < times.len() && old(occ)[i] is Some ==> #[trigger] occ[i] == old(occ)[i],
            forall|u: int|
                0 <= u < t && (#[trigger] turns[u]).1 < n && want[turns[u].1 as int] > 0 ==> exhausted(
                    times@,
                    occ@,
                    demands[turns[u].1 as int],
                ),
        decreases turns.len() - t,
    {
        let k = turns[t].1;
        proof {
            assert(turns@.contains(turns@[t as int]));
            assert(unsorted.contains(turns@[t as int]));
            let a = choose|a: int| 0 <= a < unsorted.len() && unsorted[a] == turns@[t as int];
            assert(unsorted[a].1 == a);
        }
        let ghost before = occ@;
        let ghost wanted = want@;
        claim(times, demands, occ, want, k);
        proof {
            assert forall|u: int|
                0 <= u < t + 1 && (#[trigger] turns[u]).1 < n && want[turns[u].1 as int]
                    > 0 implies exhausted(times@, occ@, demands[turns[u].1 as int]) by {
                if u < t {
                    let q = turns[u].1 as int;
                    assert(want[q] <= wanted[q]);
                    assert(exhausted(times@, before, demands[q]));
                    assert forall|i: int| 0 <= i < occ.len() && demands[q].fits(times[i]) implies #[trigger] occ[i] is Some by {
                        assert(before[i] is Some);
                    }
                }
            }
        }
        t = t + 1;
    }
    proof {
        assert forall|q: int| 0 <= q < n && #[trigger] want[q] > 0 implies exhausted(
            times@,
            occ@,
            demands[q],
        ) by {
            assert(unsorted[q].1 == q);
            assert(unsorted.contains(unsorted[q]));
            let u = choose|u: int| 0 <= u < turns.len() && turns@[u] == unsorted[q];
            assert(turns[u].1 == q);
        }
    }
}

/// Every task that still wants slots has no empty slot left in its working
/// period, or has been preempted there.
pub open spec fn wanting_for_cause(
    times: Seq<i64>,
    demands: Seq<Demand>,
    occ: Holders,
    want: Seq<u64>,
) -> bool {
    forall|q: int|
        0 <= q < demands.len() && #[trigger] want[q] > 0 ==> exhausted(times, occ, demands[q])
            || outranked(times, demands, occ, demands[q])
}

/// Preemptions after preemptions are preemptions.
pub proof fn lemma_only_preempted_chain(demands: Seq<Demand>, a: Holders, b: Holders, c: Holders)
    requires
        only_preempted(demands, a, b),
        only_preempted(demands, b, c),
    ensures
        only_preempted(demands, a, c),
{
    assert forall|i: int| 0 <= i < a.len() implies (#[trigger] a[i] matches Some(v) ==> (c[i] matches Some(w)
        && (w == v || demands[w as int].priority > demands[v as int].priority))) by {
        if a[i] is Some {
            assert(b[i] is Some);
        }
    }
}

/// After preemptions, a working period without an empty slot still has none,
/// and a task that was outranked in its working period still is.
pub proof fn lemma_preemption_keeps_cause(
    times: Seq<i64>,
    demands: Seq<Demand>,
    before: Holders,
    after: Holders,
    d: Demand,
)
    requires
        only_preempted(demands, before, after),
    ensures
        exhausted(times, before, d) ==> exhausted(times, after, d),
        outranked(times, demands, before, d) ==> outranked(times, demands, after, d),
{
    if exhausted(times, before, d) {
        assert forall|i: int| 0 <= i < after.len() && d.fits(times[i]) implies #[trigger] after[i] is Some by {
            assert(before[i] is Some);
        }
    }
    if outranked(times, demands, before, d) {
        let i = choose|i: int|
            0 <= i < before.len() && d.fits(times[i]) && (#[trigger] before[i] matches Some(v)
                && demands[v as int].priority > d.priority);
        assert(after[i] is Some);
    }
}

/// Whether task `k` may take slot `i`: the slot lies in its working period and
/// is held by a task of strictly lower priority.
pub open spec fn may_take(times: Seq<i64>, demands: Seq<Demand>, occ: Holders, k: usize, i: usize) -> bool {
    &&& i < occ.len()
    &&& demands[k as int].fits(times[i as int])
    &&& occ[i as int] matches Some(v) && demands[v as int].priority < demands[k as int].priority
}

/// Those of the first `i` slots that task `k` may take, each with the
/// priority of its holder.
pub open spec fn victims_among(
    times: Seq<i64>,
    demands: Seq<Demand>,
    occ: Holders,
    k: usize,
    i: int,
) -> Seq<Keyed>
    decreases i,
{
    if i <= 0 {
        Seq::empty()
    } else {
        let rest = victims_among(times, demands, occ, k, i - 1);
        if may_take(times, demands, occ, k, (i - 1) as usize) {
            rest.push((demands[occ[i - 1]->0 as int].priority as i128, (i - 1) as usize))
        } else {
            rest
        }
    }
}

/// The slots that a task may take are listed in time order.
pub proof fn lemma_victims_rise(times: Seq<i64>, demands: Seq<Demand>, occ: Holders, k: usize, i: int)
    requires
        i <= occ.len() <= usize::MAX,
    ensures
        positions_rise(victims_among(times, demands, occ, k, i)),
        forall|c: int|
            0 <= c < victims_among(times, demands, occ, k, i).len() ==> (
            #[trigger] victims_among(times, demands, occ, k, i)[c]).1 < i,
    decreases i,
{
    if i > 0 {
        lemma_victims_rise(times, demands, occ, k, i - 1);
        let rest = victims_among(times, demands, occ, k, i - 1);
        let all = victims_among(times, demands, occ, k, i);
        assert forall|c: int| 0 <= c < all.len() implies (#[trigger] all[c]).1 < i by {
            if c < rest.len() {
                assert(all[c] == rest[c]);
            }
        }
        assert forall|a: int, b: int| 0 <= a < b < all.len() implies all[a].1 < all[b].1 by {
            assert(all[a] == rest[a]);
            if b < rest.len() {
                assert(all[b] == rest[b]);
                assert(rest[a].1 < rest[b].1);
            } else {
                assert(rest[a].1 < i - 1);
                assert(all[b].1 == i - 1);
            }
        }
    }
}

/// The holders once task `k` has gone through the first `c` of the slots in
/// `victims`, and has taken each that it may take while it lacks slots.
pub open spec fn taken_from(
    times: Seq<i64>,
    demands: Seq<Demand>,
    occ: Holders,
    k: usize,
    victims: Seq<Keyed>,
    c: int,
) -> Holders
    decreases c,
{
    if c <= 0 {
        occ
    } else {
        let before = taken_from(times, demands, occ, k, victims, c - 1);
        let i = victims[c - 1].1;
        if lack(demands, before, k) > 0 && may_take(times, demands, before, k, i) {
            before.update(i as int, Some(k))
        } else {
            before
        }
    }
}

/// The holders after the turn of task `k`: if it lacks slots, it has taken
/// slots of its working period from holders of strictly lower priority, the
/// weakest holder first, as far as it lacks slots.
pub open spec fn turn(times: Seq<i64>, demands: Seq<Demand>, occ: Holders, k: usize) -> Holders {
    if lack(demands, occ, k) > 0 {
        let victims = sorted_of(victims_among(times, demands, occ, k, occ.len() as int));
        taken_from(times, demands, occ, k, victims, victims.len() as int)
    } else {
        occ
    }
}

/// The holders after the turns of the first `j` tasks.
pub open spec fn pass_upto(times: Seq<i64>, demands: Seq<Demand>, occ: Holders, j: int) -> Holders
    decreases j,
{
    if j <= 0 {
        occ
    } else {
        turn(times, demands, pass_upto(times, demands, occ, j - 1), (j - 1) as usize)
    }
}

/// The holders after one pass: every task has had its turn, in the order of
/// the table.
pub open spec fn pass(times: Seq<i64>, demands: Seq<Demand>, occ: Holders) -> Holders {
    pass_upto(times, demands, occ, demands.len() as int)
}

/// The holders after passes are made until one changes nothing, `rounds`
/// passes at most.
pub open spec fn preempted_in(
    times: Seq<i64>,
    demands: Seq<Demand>,
    occ: Holders,
    rounds: nat,
) -> Holders
    decreases rounds,
{
    if rounds == 0 {
        occ
    } else {
        let next = pass(times, demands, occ);
        if next == occ {
            occ
        } else {
            preempted_in(times, demands, next, (rounds - 1) as nat)
        }
    }
}

/// The holders after priority preemption: passes are made until one changes
/// nothing. Every pass that changes anything lowers the slack, so there are
/// no more of them than the slack counts.
pub open spec fn preempted(times: Seq<i64>, demands: Seq<Demand>, occ: Holders) -> Holders {
    preempted_in(times, demands, occ, total_slack(demands, occ))
}

/// A task that lacks no slot takes none.
pub proof fn lemma_taken_from_sated(
    times: Seq<i64>,
    demands: Seq<Demand>,
    occ: Holders,
    k: usize,
    victims: Seq<Keyed>,
    c: int,
    e: int,
)
    requires
        0 <= c <= e,
        lack(demands, taken_from(times, demands, occ, k, victims, c), k) <= 0,
    ensures
        taken_from(times, demands, occ, k, victims, e) == taken_from(
            times,
            demands,
            occ,
            k,
            victims,
            c,
        ),
    decreases e - c,
{
    if c < e {
        lemma_taken_from_sated(times, demands, occ, k, victims, c, e - 1);
    }
}

/// The turn of task `k`, which wants slots: it takes slots of its working
/// period from holders of strictly lower priority, the weakest holder first,
/// until it wants no more. Returns whether it took any.
fn preempt_for(
    times: &Vec<i64>,
    demands: &Vec<Demand>,
    occ: &mut Vec<Option<usize>>,
    want: &mut Vec<u64>,
    k: usize,
) -> (taken: bool)
    requires
        k < demands.len(),
        old(want)[k as int] > 0,
        old(occ).len() == times.len(),
        holders_known(old(occ)@, demands.len() as nat),
        holders_fit(times@, demands@, old(occ)@),
        balanced(demands@, old(occ)@, old(want)@),
        wanting_for_cause(times@, demands@, old(occ)@, old(want)@),
    ensures
        final(occ).len() == times.len(),
        final(occ)@ == turn(times@, demands@, old(occ)@, k),
        holders_known(final(occ)@, demands.len() as nat),
        holders_fit(times@, demands@, final(occ)@),
        balanced(demands@, final(occ)@, final(want)@),
        wanting_for_cause(times@, demands@, final(occ)@, final(want)@),
        only_preempted(demands@, old(occ)@, final(occ)@),
        taken ==> total_slack(demands@, final(occ)@) < total_slack(demands@, old(occ)@),
        !taken ==> final(occ)@ == old(occ)@ && final(want)@ == old(want)@ && unbeatable(
            times@,
            demands@,
            old(occ)@,
            demands[k as int],
        ),
{
    let m = times.len();
    let n = demands.len();
    let d = demands[k];
    let mut found: Vec<Keyed> = Vec::new();
    let mut i: usize = 0;
    while i < m
        invariant
            i <= m,
            m == times.len(),
            m == occ.len(),
            n == demands.len(),
            k < n,
            d == demands[k as int],
            holders_known(occ@, n as nat),
            found@ == victims_among(times@, demands@, occ@, k, i as int),
            forall|c: int|
                0 <= c < found.len() ==> (#[trigger] found[c]).1 < m && d.fits(
                    times[found[c].1 as int],
                ) && (occ[found[c].1 as int] matches Some(v) && demands[v as int].priority
                    < d.priority),
            found.len() == 0 ==> forall|j: int|
                0 <= j < i && d.fits(times[j]) ==> (#[trigger] occ[j] matches Some(v)
                    ==> demands[v as int].priority >= d.priority),
        decreases m - i,
    {
        match occ[i] {
            Some(v) => {
                if d.admits(times[i]) && demands[v].priority < d.priority {
                    found.push((demands[v].priority as i128, i));
                }
            },
            None => {},
        }
        i = i + 1;
    }
    let ghost unsorted = found@;
    let victims = sorted_by_key(found);
    proof {
        lemma_sorted_keeps_items(unsorted, victims@);
        lemma_victims_rise(times@, demands@, occ@, k, m as int);
        lemma_stable_sort(unsorted, victims@);
        if victims.len() > 0 {
            assert(victims@.contains(victims@[0]));
            assert(unsorted.contains(victims@[0]));
        }
    }
    let mut taken = false;
    let mut c: usize = 0;
    while c < victims.len() && want[k] > 0
        invariant
            c <= victims.len(),
            m == times.len(),
            m == occ.len(),
            n == demands.len(),
            k < n,
            d == demands[k as int],
            holders_known(occ@, n as nat),
            holders_fit(times@, demands@, occ@),
            balanced(demands@, occ@, want@),
            wanting_for_cause(times@, demands@, occ@, want@),
            only_preempted(demands@, old(occ)@, occ@),
            occ@ == taken_from(times@, demands@, old(occ)@, k, victims@, c as int),
            c > 0 ==> taken,
            taken ==> total_slack(demands@, occ@) < total_slack(demands@, old(occ)@),
            !taken ==> occ@ == old(occ)@ && want@ == old(want)@,
            victims.len() > 0 ==> (victims[0].1 < m && d.fits(times[victims[0].1 as int]) && (old(
                occ,
            )[victims[0].1 as int] matches Some(v) && demands[v as int].priority < d.priority)),
        decreases victims.len() - c,
    {
        let i = victims[c].1;
        proof {
            assert(held(occ@, k) + want[k as int] == demands[k as int].need);
        }
        if i < m && d.admits(times[i]) {
            match occ[i] {
                Some(v) => {
                    if demands[v].priority < d.priority {
                        let ghost before = occ@;
                        let ghost wanted = want@;
                        proof {
                            lemma_held_some(before, i as int, v);
                        }
                        occ.set(i, Some(k));
                        let wv = want[v];
                        want.set(v, wv + 1);
                        let wk = want[k];
                        want.set(k, wk - 1);
                        taken = true;
                        proof {
                            assert(occ@ == before.update(i as int, Some(k)));
                            assert forall|q: usize| q < n implies held(occ@, q) + #[trigger] want[q as int]
                                == demands[q as int].need by {
                                lemma_held_update(before, i as int, Some(k), q);
                                assert(held(before, q) + wanted[q as int] == demands[q as int].need);
                            }
                            lemma_total_slack_update(demands@, before, i as int, Some(k));
                            assert(only_preempted(demands@, before, occ@));
                            lemma_only_preempted_chain(demands@, old(occ)@, before, occ@);
                            assert forall|q: int| 0 <= q < n && #[trigger] want[q] > 0 implies exhausted(
                                times@,
                                occ@,
                                demands[q],
                            ) || outranked(times@, demands@, occ@, demands[q]) by {
                                lemma_preemption_keeps_cause(
                                    times@,
                                    demands@,
                                    before,
                                    occ@,
                                    demands[q],
                                );
                                if q == v {
                                    assert(demands[q].fits(times[i as int]));
                                    assert(occ[i as int] == Some(k));
                                } else {
                                    assert(wanted[q] > 0);
                                }
                            }
                        }
                    }
                },
                None => {},
            }
        }
        c = c + 1;
    }
    proof {
        if !taken {
            assert(victims.len() == 0);
            assert(unsorted.len() == 0);
        }
        assert(held(old(occ)@, k) + old(want)[k as int] == demands[k as int].need);
        assert(held(occ@, k) + want[k as int] == demands[k as int].need);
        if c < victims.len() {
            lemma_taken_from_sated(
                times@,
                demands@,
                old(occ)@,
                k,
                victims@,
                c as int,
                victims.len() as int,
            );
        }
    }
    taken
}

/// Priority preemption: pass after pass, every task that still wants slots
/// takes them from holders of strictly lower priority, until a pass takes
/// none.
pub(crate) fn preempt(
    times: &Vec<i64>,
    demands: &Vec<Demand>,
    occ: &mut Vec<Option<usize>>,
    want: &mut Vec<u64>,
)
    requires
        old(occ).len() == times.len(),
        holders_known(old(occ)@, demands.len() as nat),
        holders_fit(times@, demands@, old(occ)@),
        balanced(demands@, old(occ)@, old(want)@),
        wanting_for_cause(times@, demands@, old(occ)@, old(want)@),
    ensures
        final(occ).len() == times.len(),
        holders_known(final(occ)@, demands.len() as nat),
        holders_fit(times@, demands@, final(occ)@),
        balanced(demands@, final(occ)@, final(want)@),
        wanting_for_cause(times@, demands@, final(occ)@, final(want)@),
        only_preempted(demands@, old(occ)@, final(occ)@),
        final(occ)@ == preempted(times@, demands@, old(occ)@),
        forall|q: int|
            0 <= q < demands.len() && #[trigger] final(want)[q] > 0 ==> unbeatable(
                times@,
                demands@,
                final(occ)@,
                demands[q],
            ),
{
    let n = demands.len();
    let mut settled = false;
    let ghost mut rounds: nat = total_slack(demands@, occ@);
    while !settled
        invariant
            n == demands.len(),
            occ.len() == times.len(),
            rounds >= total_slack(demands@, occ@),
            !settled ==> preempted(times@, demands@, old(occ)@) == preempted_in(
                times@,
                demands@,
                occ@,
                rounds,
            ),
            settled ==> preempted(times@, demands@, old(occ)@) == occ@,
            holders_known(occ@, n as nat),
            holders_fit(times@, demands@, occ@),
            balanced(demands@, occ@, want@),
            wanting_for_cause(times@, demands@, occ@, want@),
            only_preempted(demands@, old(occ)@, occ@),
            settled ==> forall|q: int|
                0 <= q < n && #[trigger] want[q] > 0 ==> unbeatable(times@, demands@, occ@, demands[q]),
        decreases
            total_slack(demands@, occ@) + if settled {
                0nat
            } else {
                1nat
            },
    {
        let ghost start = occ@;
        let ghost wanted = want@;
        let mut moved = false;
        let mut k: usize = 0;
        while k < n
            invariant
                k <= n,
                n == demands.len(),
                occ.len() == times.len(),
                holders_known(occ@, n as nat),
                holders_fit(times@, demands@, occ@),
                balanced(demands@, occ@, want@),
                wanting_for_cause(times@, demands@, occ@, want@),
                only_preempted(demands@, old(occ)@, occ@),
                occ@ == pass_upto(times@, demands@, start, k as int),
                moved ==> total_slack(demands@, occ@) < total_slack(demands@, start),
                !moved ==> occ@ == start && want@ == wanted,
                !moved ==> forall|q: int|
                    0 <= q < k && #[trigger] want[q] > 0 ==> unbeatable(
                        times@,
                        demands@,
                        occ@,
                        demands[q],
                    ),
            decreases n - k,
        {
            proof {
                assert(held(occ@, k) + want[k as int] == demands[k as int].need);
            }
            if want[k] > 0 {
                let ghost before = occ@;
                let taken = preempt_for(times, demands, occ, want, k);
                proof {
                    lemma_only_preempted_chain(demands@, old(occ)@, before, occ@);
                }
                if taken {
                    moved = true;
                }
            }
            k = k + 1;
        }
        proof {
            assert(occ@ == pass(times@, demands@, start));
            if moved {
                assert(rounds > 0);
                rounds = (rounds - 1) as nat;
            }
        }
        if !moved {
            settled = true;
        }
    }
}

} // verus!
