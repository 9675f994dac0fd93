//! The order of a sequential run: in each iteration the traversers take their
//! turns, from the first seat to the last, and then the iteration counts.
use vstd::prelude::*;

use crate::batch::{BatchError, MultiwayHoldemBatchSolver};
use crate::cards::Combo;
use crate::multiway::MultiwayMccfrSolver;
use crate::solver::{CfrPlusSolver, MccfrSolver};

verus! {

/// What a run does next.
#[derive(Debug, Clone, Copy, PartialEq, Eq, Structural)]
pub enum ScheduleStep {
    Traverse(usize),
    EndIteration,
    Finished,
}

/// A run of so many more iterations, in which `next` traversers have had their
/// turn in the present one.
#[derive(Debug, Clone, Copy, PartialEq, Eq, Structural)]
pub struct Schedule {
    pub remaining: u64,
    pub next: usize,
    pub traversers: usize,
}

impl Schedule {
    pub open spec fn wf(self) -> bool {
        &&& self.traversers > 0
        &&& self.next <= self.traversers
        &&& self.remaining == 0 ==> self.next == 0
    }

    pub open spec fn step(self) -> ScheduleStep {
        if self.remaining == 0 {
            ScheduleStep::Finished
        } else if self.next < self.traversers {
            ScheduleStep::Traverse(self.next)
        } else {
            ScheduleStep::EndIteration
        }
    }

    /// The turns that are still to come.
    pub open spec fn turns_left(self) -> int {
        self.remaining * self.traversers - self.next
    }

    /// After a turn.
    pub open spec fn turned(self) -> Self {
        Schedule { next: (self.next + 1) as usize, ..self }
    }

    /// After the last turn of an iteration.
    pub open spec fn ended(self) -> Self {
        Schedule { remaining: (self.remaining - 1) as u64, next: 0, ..self }
    }

    pub fn start(iterations: u64, traversers: usize) -> (schedule: Self)
        requires
            traversers > 0,
        ensures
            schedule.wf(),
            schedule == (Schedule { remaining: iterations, next: 0, traversers }),
            schedule.turns_left() == iterations * traversers,
    {
        Schedule { remaining: iterations, next: 0, traversers }
    }

    pub fn next_step(&self) -> (step: ScheduleStep)
        ensures
            step == self.step(),
    {
        if self.remaining == 0 {
            ScheduleStep::Finished
        } else if self.next < self.traversers {
            ScheduleStep::Traverse(self.next)
        } else {
            ScheduleStep::EndIteration
        }
    }

    /// A traverser has had its turn.
    pub fn turn(&mut self)
        requires
            old(self).wf(),
            old(self).step() is Traverse,
        ensures
            final(self).wf(),
            *final(self) == old(self).turned(),
            final(self).turns_left() == old(self).turns_left() - 1,
    {
        self.next = self.next + 1;
    }

    /// All traversers have had their turn.
    pub fn end_iteration(&mut self)
        requires
            old(self).wf(),
            old(self).step() == ScheduleStep::EndIteration,
        ensures
            final(self).wf(),
            *final(self) == old(self).ended(),
            final(self).turns_left() == old(self).turns_left(),
    {
        proof {
            let left = self.remaining as int;
            let count = self.traversers as int;
            assert((left - 1) * count == left * count - count) by (nonlinear_arith);
        }
        self.remaining = self.remaining - 1;
        self.next = 0;
    }
}

/// The steps of a schedule from where it stands.
pub open spec fn steps_of(schedule: Schedule) -> Seq<ScheduleStep>
    recommends
        schedule.wf(),
    decreases schedule.remaining, schedule.traversers - schedule.next,
{
    match schedule.step() {
        ScheduleStep::Finished => Seq::empty(),
        ScheduleStep::Traverse(traverser) => seq![ScheduleStep::Traverse(traverser)] + steps_of(
            schedule.turned(),
        ),
        ScheduleStep::EndIteration => seq![ScheduleStep::EndIteration] + steps_of(schedule.ended()),
    }
}

/// Of the steps of a run, the one at each place: after the turns of all
/// traversers in order comes the end of the iteration, and so on.
pub proof fn lemma_traversers_take_their_turns(schedule: Schedule, iteration: int, turn: int)
    requires
        schedule.traversers > 0,
        schedule.next == 0,
        0 <= iteration < schedule.remaining,
        0 <= turn <= schedule.traversers,
    ensures
        ({
            let width = schedule.traversers + 1;
            let steps = steps_of(schedule);
            &&& steps.len() == schedule.remaining * width
            &&& steps[iteration * width + turn] == if turn < schedule.traversers {
                ScheduleStep::Traverse(turn as usize)
            } else {
                ScheduleStep::EndIteration
            }
        }),
    decreases iteration,
{
    let width = schedule.traversers + 1;
    let rest = Schedule { remaining: (schedule.remaining - 1) as u64, ..schedule };
    lemma_one_iteration(schedule);
    lemma_steps_length(rest);
    let steps = steps_of(schedule);
    let left = schedule.remaining as int;
    assert((left - 1) * width + width == left * width) by (nonlinear_arith);
    if iteration == 0 {
        assert(0 * width + turn == turn) by (nonlinear_arith);
    } else {
        lemma_traversers_take_their_turns(rest, iteration - 1, turn);
        assert((iteration - 1) * width + width == iteration * width) by (nonlinear_arith);
        assert(0 <= (iteration - 1) * width) by (nonlinear_arith)
            requires
                iteration >= 1,
                width > 0,
        ;
        assert((iteration - 1) * width + turn < (left - 1) * width) by (nonlinear_arith)
            requires
                iteration <= left - 1,
                turn < width,
                width > 0,
        ;
    }
}

proof fn lemma_one_iteration(schedule: Schedule)
    requires
        schedule.traversers > 0,
        schedule.next <= schedule.traversers,
        schedule.remaining > 0,
    ensures
        ({
            let turns = schedule.traversers - schedule.next;
            let rest = Schedule { remaining: (schedule.remaining - 1) as u64, next: 0, ..schedule };
            let steps = steps_of(schedule);
            &&& steps.len() == turns + 1 + steps_of(rest).len()
            &&& forall|k: int|
                0 <= k < turns ==> #[trigger] steps[k] == ScheduleStep::Traverse(
                    (schedule.next + k) as usize,
                )
            &&& steps[turns] == ScheduleStep::EndIteration
            &&& forall|k: int|
                0 <= k < steps_of(rest).len() ==> steps[turns + 1 + k] == #[trigger] steps_of(rest)[k]
        }),
    decreases schedule.traversers - schedule.next,
{
    let turns = schedule.traversers - schedule.next;
    let rest = Schedule { remaining: (schedule.remaining - 1) as u64, next: 0, ..schedule };
    let steps = steps_of(schedule);
    if schedule.next < schedule.traversers {
        let after = schedule.turned();
        lemma_one_iteration(after);
        let later = steps_of(after);
        assert(steps == seq![ScheduleStep::Traverse(schedule.next)] + later);
        assert forall|k: int| 0 <= k < turns implies #[trigger] steps[k] == ScheduleStep::Traverse(
            (schedule.next + k) as usize,
        ) by {
            if k > 0 {
                assert(steps[k] == later[k - 1]);
            }
        }
        assert(steps[turns] == later[turns - 1]);
        assert forall|k: int| 0 <= k < steps_of(rest).len() implies steps[turns + 1 + k]
            == #[trigger] steps_of(rest)[k] by {
            assert(steps[turns + 1 + k] == later[turns + k]);
        }
    } else {
        assert(schedule.ended() == rest);
        assert(steps == seq![ScheduleStep::EndIteration] + steps_of(rest));
    }
}

proof fn lemma_steps_length(schedule: Schedule)
    requires
        schedule.traversers > 0,
        schedule.next == 0,
    ensures
        steps_of(schedule).len() == schedule.remaining * (schedule.traversers + 1),
    decreases schedule.remaining,
{
    let width = schedule.traversers + 1;
    if schedule.remaining > 0 {
        let rest = Schedule { remaining: (schedule.remaining - 1) as u64, ..schedule };
        lemma_one_iteration(schedule);
        lemma_steps_length(rest);
        let left = schedule.remaining as int;
        assert((left - 1) * width + width == left * width) by (nonlinear_arith);
    } else {
        assert(0 * width == 0) by (nonlinear_arith);
    }
}

impl CfrPlusSolver {
    /// Ends the iteration that the schedule has come to.
    pub fn end_scheduled_iteration(&mut self, schedule: &mut Schedule)
        requires
            old(schedule).wf(),
            old(schedule).step() == ScheduleStep::EndIteration,
            old(self).iterations + old(schedule).remaining <= u64::MAX,
        ensures
            final(schedule).wf(),
            *final(schedule) == old(schedule).ended(),
            *final(self) == (CfrPlusSolver {
                iterations: (old(self).iterations + 1) as u64,
                ..*old(self)
            }),
            final(self).iterations + final(schedule).remaining == old(self).iterations + old(
                schedule,
            ).remaining,
    {
        schedule.end_iteration();
        self.finish_iteration();
    }
}

impl MccfrSolver {
    /// Ends the iteration that the schedule has come to.
    pub fn end_scheduled_iteration(&mut self, schedule: &mut Schedule)
        requires
            old(schedule).wf(),
            old(schedule).step() == ScheduleStep::EndIteration,
            old(self).iterations + old(schedule).remaining <= u64::MAX,
        ensures
            final(schedule).wf(),
            *final(schedule) == old(schedule).ended(),
            *final(self) == (MccfrSolver {
                iterations: (old(self).iterations + 1) as u64,
                ..*old(self)
            }),
            final(self).iterations + final(schedule).remaining == old(self).iterations + old(
                schedule,
            ).remaining,
    {
        schedule.end_iteration();
        self.finish_iteration();
    }
}

impl MultiwayMccfrSolver {
    /// Ends the turn of a traverser: the update counts.
    pub fn end_scheduled_turn(&mut self, schedule: &mut Schedule)
        requires
            old(schedule).wf(),
            old(schedule).step() is Traverse,
            old(self).metrics.traverser_updates < u64::MAX,
        ensures
            final(schedule).wf(),
            *final(schedule) == old(schedule).turned(),
            *final(self) == (MultiwayMccfrSolver {
                metrics: final(self).metrics,
                ..*old(self)
            }),
            final(self).metrics == (crate::multiway::MultiwaySamplingMetrics {
                traverser_updates: (old(self).metrics.traverser_updates + 1) as u64,
                ..old(self).metrics
            }),
            final(self).metrics.traverser_updates + final(schedule).turns_left() == old(
                self,
            ).metrics.traverser_updates + old(schedule).turns_left(),
    {
        schedule.turn();
        self.finish_traverser();
    }

    /// Ends the iteration that the schedule has come to.
    pub fn end_scheduled_iteration(&mut self, schedule: &mut Schedule)
        requires
            old(schedule).wf(),
            old(schedule).step() == ScheduleStep::EndIteration,
            old(self).iterations + old(schedule).remaining <= u64::MAX,
        ensures
            final(schedule).wf(),
            *final(schedule) == old(schedule).ended(),
            *final(self) == (MultiwayMccfrSolver {
                iterations: (old(self).iterations + 1) as u64,
                ..*old(self)
            }),
            final(self).iterations + final(schedule).remaining == old(self).iterations + old(
                schedule,
            ).remaining,
            final(schedule).turns_left() == old(schedule).turns_left(),
    {
        schedule.end_iteration();
        self.finish_iteration();
    }
}

impl MultiwayHoldemBatchSolver {
    /// Draws the deal for the turn of the traverser that the schedule names, and
    /// counts the update. Where no deal can be drawn, the turn is not taken.
    pub fn begin_scheduled_turn(&mut self, schedule: &mut Schedule) -> (result: Result<
        Vec<Combo>,
        BatchError,
    >)
        requires
            old(self).wf(),
            old(schedule).wf(),
            old(schedule).traversers == old(self).players(),
            old(schedule).step() is Traverse,
            old(self).has_room(old(schedule).next),
        ensures
            final(self).wf(),
            final(schedule).wf(),
            old(self).updated(*final(self), old(schedule).next, result),
            match result {
                Ok(_) => {
                    &&& *final(schedule) == old(schedule).turned()
                    &&& final(self).metrics.traverser_updates + final(schedule).turns_left() == old(
                        self,
                    ).metrics.traverser_updates + old(schedule).turns_left()
                },
                Err(_) => *final(schedule) == *old(schedule),
            },
    {
        let traverser = schedule.next;
        let ghost before = self.metrics@;
        match self.begin_update(traverser) {
            Ok(hands) => {
                schedule.turn();
                proof {
                    let made = choose|attempts: u64|
                        self.metrics@ == #[trigger] crate::batch_metrics::deal_counted(
                            before,
                            traverser,
                            attempts,
                        );
                    assert(self.metrics@.traverser_updates == before.traverser_updates + 1);
                }
                Ok(hands)
            },
            Err(error) => Err(error),
        }
    }

    /// Ends the iteration that the schedule has come to.
    pub fn end_scheduled_iteration(&mut self, schedule: &mut Schedule)
        requires
            old(self).wf(),
            old(schedule).wf(),
            old(schedule).step() == ScheduleStep::EndIteration,
            old(self).iterations + old(schedule).remaining <= u64::MAX,
        ensures
            final(self).wf(),
            final(schedule).wf(),
            *final(schedule) == old(schedule).ended(),
            *final(self) == (MultiwayHoldemBatchSolver {
                iterations: (old(self).iterations + 1) as u64,
                ..*old(self)
            }),
            final(self).iterations + final(schedule).remaining == old(self).iterations + old(
                schedule,
            ).remaining,
            final(schedule).turns_left() == old(schedule).turns_left(),
    {
        schedule.end_iteration();
        self.finish_iteration();
    }
}

/// Where every turn and every iteration keeps its sum with what is left, as the
/// scheduled steps of the solvers do, a finished run has counted all iterations,
/// and one update of each traverser for each of them.
pub proof fn lemma_finished_run_counts(
    start: Schedule,
    iterations: int,
    updates: int,
    end: Schedule,
    end_iterations: int,
    end_updates: int,
)
    requires
        start.wf(),
        start.next == 0,
        end.wf(),
        end.step() == ScheduleStep::Finished,
        end_iterations + end.remaining == iterations + start.remaining,
        end_updates + end.turns_left() == updates + start.turns_left(),
    ensures
        end_iterations == iterations + start.remaining,
        end_updates == updates + start.remaining * start.traversers,
{
    let count = end.traversers as int;
    assert(0 * count == 0) by (nonlinear_arith);
}

} // verus!
