//! The search for a better arrangement: shuffle, score, and keep what scores
//! higher, for as long as the time limit allows.

use crate::clock::elapsed_millis;
use crate::db::{CTask, Db};
use crate::scheduler::Schedule;
use std::time::Instant;
use vstd::prelude::*;

verus! {

/// Whether a score is an improvement on the best one so far. A score that is
/// missing, because the scores could not be compared, is never an
/// improvement, and nothing improves on it.
pub open spec fn improves(score: Option<i64>, best: Option<i64>) -> bool {
    score matches Some(s) && best matches Some(b) && s > b
}

/// Whether a score is an improvement on the best one so far.
pub fn is_improvement(score: Option<i64>, best: Option<i64>) -> (r: bool)
    ensures
        r == improves(score, best),
{
    match (score, best) {
        (Some(s), Some(b)) => s > b,
        _ => false,
    }
}

impl Db {
    /// Shuffle the schedule as many times as we can in the specified time
    /// limit, in milliseconds, committing the permutation that got the
    /// highest score under the goal. Returns the score of the schedule that
    /// is committed, and the number of shuffles that were tried.
    ///
    /// Each trial shuffles a copy of the committed schedule, and commits the
    /// copy where its score improves on the best score so far. Trials are
    /// made while less time than the limit has passed.
    pub fn shuffle_maximizing<F: Fn(&Schedule<CTask>) -> Option<i64>>(
        &mut self,
        goal: F,
        time_limit: u64,
    ) -> (r: (Option<i64>, usize))
        requires
            forall|s: &Schedule<CTask>| s@.wf() ==> #[trigger] call_requires(goal, (s,)),
        ensures
            final(self)@.wf(),
            old(self)@.same_layout(final(self)@),
            old(self)@.schedule.shuffles_to(final(self)@.schedule),
            old(self)@.schedule.rounds_to(final(self)@.schedule, r.1 as nat),
            time_limit == 0 ==> r.1 == 0,
            r.1 == 0 ==> final(self).committed() == old(self).committed(),
            call_ensures(goal, (&final(self).committed(),), r.0),
            exists|first: Option<i64>|
                #[trigger] call_ensures(goal, (&old(self).committed(),), first) && (r.0 == first
                    || improves(r.0, first)) && (r.0 == first ==> final(self).committed() == old(
                    self,
                ).committed()),
            (forall|a: Option<i64>, b: Option<i64>|
                call_ensures(goal, (&old(self).committed(),), a) && call_ensures(
                    goal,
                    (&old(self).committed(),),
                    b,
                ) ==> a == b) ==> forall|first: Option<i64>|
                call_ensures(goal, (&old(self).committed(),), first) ==> (r.0 == first || improves(
                    r.0,
                    first,
                )) && (r.0 == first ==> final(self).committed() == old(self).committed()),
    {
        proof {
            use_type_invariant(&*self);
        }
        let ghost base = self@;
        let started_at = Instant::now();
        let mut schedule = self.take_schedule();
        let first = goal(&schedule);
        let mut score_to_beat = first;
        let mut iterations: usize = 0;
        proof {
            base.schedule.lemma_shuffles_to_itself();
            base.schedule.lemma_rounds_to_itself();
        }
        while iterations < usize::MAX && elapsed_millis(&started_at) < time_limit as u128
            invariant
                base.schedule.wf(),
                schedule@.wf(),
                schedule@.same_frame(base.schedule),
                base.schedule.shuffles_to(schedule@),
                base.schedule.rounds_to(schedule@, iterations as nat),
                time_limit == 0 ==> iterations == 0,
                forall|s: &Schedule<CTask>| s@.wf() ==> #[trigger] call_requires(goal, (s,)),
                call_ensures(goal, (&schedule,), score_to_beat),
                score_to_beat == first || improves(score_to_beat, first),
                score_to_beat == first ==> schedule == old(self).committed(),
                iterations == 0 ==> schedule == old(self).committed(),
            decreases usize::MAX - iterations,
        {
            let mut copy = schedule.clone();
            proof {
                assert(copy@.tasks =~= schedule@.tasks);
                assert(copy@ == schedule@);
            }
            copy.shuffle();
            let score = goal(&copy);
            if is_improvement(score, score_to_beat) {
                proof {
                    base.schedule.lemma_shuffles_chain(schedule@, copy@);
                    base.schedule.lemma_rounds_to_step(schedule@, copy@, iterations as nat);
                }
                schedule = copy;
                score_to_beat = score;
            } else {
                proof {
                    base.schedule.lemma_rounds_to_more(schedule@, iterations as nat);
                }
            }
            iterations = iterations + 1;
        }
        self.set_schedule(schedule);
        (score_to_beat, iterations)
    }
}

} // verus!
