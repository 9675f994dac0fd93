//! Batches of updates that are worked on side by side.
//!
//! A batch fixes its tasks and their seeds before any of them runs, every task
//! reads the same snapshot, and results are taken in task order: the number of
//! workers has no influence on what comes out.
use vstd::prelude::*;

use crate::arena::{public_error, public_shape_of, ArenaError, MultiwayHoldemPublicProfile};
use crate::batch::{DecisionPoint, MultiwayHoldemBatchSolver};
use crate::batch_metrics::{deal_counted, BatchMetricsView, MultiwayBatchSamplingMetrics};
use crate::batch_store::{batch_keys, known_data, make_batch_key, open_entry, set_entry};
use crate::bits::{all_finite, finite, is_finite};
use crate::cards::Combo;
use crate::checkpoint::{zeros, InfoSetData};
use crate::compile::tree_in_order;
use crate::rng::{draw_of, lemma_state_never_zero, seeded_state, xorshift, XorShift64};
use crate::sampler::{
    attempts, lemma_same_attempts, MultiwayPrivateDealSampler, SamplerError,
};
use crate::stage::Stage;
use crate::sums::{add_all, describes, summed};
use crate::table::{lemma_entry, Place, Table};
use crate::tree::GameTree;
use crate::walk::{
    plan_sampled, planned, sampled_plan, samples, shape_targets, Plan, Shape, Walk, WalkCounters,
    WalkEvent, WalkStep,
};

verus! {

#[derive(Debug, Clone, Copy, PartialEq, Eq, Structural)]
pub enum ParallelError {
    ZeroWorkers,
    ZeroBatchSize,
    /// Compiled deals are cached, which tasks cannot share.
    CompiledDeals,
    TaskCountOverflow,
    AttemptCountOverflow,
    VisitCountOverflow,
    /// No worker handed in the result of a task.
    MissingResult { task: usize },
    NonFinite,
    /// A task came to changes that are not finite.
    NonFiniteUpdate,
    /// A node offers another number of actions than its information set has.
    ActionCountChange { player: usize, node: usize },
    /// A result has another number of actions than its information set.
    UpdateActionCount { player: usize, node: usize },
    Sampler(SamplerError),
    Arena(ArenaError),
}

/// One update of a batch.
#[derive(Debug, Clone, Copy, PartialEq, Eq, Structural)]
pub struct ParallelBatchTask {
    pub traverser: usize,
    pub private_seed: u64,
    pub traversal_seed: u64,
}

/// The state of a generator after `count` steps.
pub open spec fn after_steps(state: u64, count: nat) -> u64
    decreases count,
{
    if count == 0 {
        state
    } else {
        xorshift(after_steps(state, (count - 1) as nat))
    }
}

/// Task `index` of a batch: traversers take turns, and each task has the next
/// number of both streams as its seeds.
pub open spec fn task_at(
    players: usize,
    private_state: u64,
    traversal_state: u64,
    index: int,
) -> ParallelBatchTask {
    ParallelBatchTask {
        traverser: (index % players as int) as usize,
        private_seed: after_steps(private_state, (index + 1) as nat),
        traversal_seed: after_steps(traversal_state, (index + 1) as nat),
    }
}

pub open spec fn tasks_of(
    players: usize,
    private_state: u64,
    traversal_state: u64,
    count: nat,
) -> Seq<ParallelBatchTask> {
    Seq::new(count, |index: int| task_at(players, private_state, traversal_state, index))
}

/// The tasks of one batch and the states of the two streams after them.
#[derive(Debug)]
pub struct BatchPlan {
    pub iterations: u64,
    pub tasks: Vec<ParallelBatchTask>,
    pub private_state: u64,
    pub traversal_state: u64,
}

/// Checks how a batch is asked for.
pub fn check_parallel(solver: &MultiwayHoldemBatchSolver, worker_count: usize, batch_size: usize) -> (result:
    Result<(), ParallelError>)
    ensures
        if worker_count == 0 {
            result == Err::<(), ParallelError>(ParallelError::ZeroWorkers)
        } else if batch_size == 0 {
            result == Err::<(), ParallelError>(ParallelError::ZeroBatchSize)
        } else if solver.profile_cache is Some {
            result == Err::<(), ParallelError>(ParallelError::CompiledDeals)
        } else {
            result is Ok
        },
{
    if worker_count == 0 {
        return Err(ParallelError::ZeroWorkers);
    }
    if batch_size == 0 {
        return Err(ParallelError::ZeroBatchSize);
    }
    if solver.profile_cache.is_some() {
        return Err(ParallelError::CompiledDeals);
    }
    Ok(())
}

pub open spec fn smaller(left: u64, right: usize) -> u64 {
    if left < right {
        left
    } else {
        right as u64
    }
}

/// The next batch of a run: at most `batch_size` iterations, a task for each
/// seat in each of them, and both streams moved on by the number of tasks.
pub open spec fn is_plan(
    plan: BatchPlan,
    solver: MultiwayHoldemBatchSolver,
    remaining: u64,
    batch_size: usize,
) -> bool {
    let count = (smaller(remaining, batch_size) * solver.players()) as nat;
    &&& plan.iterations == smaller(remaining, batch_size)
    &&& plan.tasks@ == tasks_of(
        solver.players(),
        solver.private_sampler.rng.state,
        solver.traversal_rng.state,
        count,
    )
    &&& plan.private_state == after_steps(solver.private_sampler.rng.state, count)
    &&& plan.traversal_state == after_steps(solver.traversal_rng.state, count)
    &&& plan.private_state != 0
    &&& plan.traversal_state != 0
}

/// Plans the next batch of at most `batch_size` iterations.
pub fn plan_batch(solver: &MultiwayHoldemBatchSolver, remaining: u64, batch_size: usize) -> (result:
    Result<BatchPlan, ParallelError>)
    requires
        solver.wf(),
    ensures
        ({
            let count = smaller(remaining, batch_size) * solver.players();
            match result {
                Ok(plan) => count <= usize::MAX && is_plan(plan, *solver, remaining, batch_size),
                Err(error) => count > usize::MAX && error == ParallelError::TaskCountOverflow,
            }
        }),
{
    let iterations: u64 = if remaining < batch_size as u64 {
        remaining
    } else {
        batch_size as u64
    };
    let players = solver.public_arena.player_count();
    let count_u64 = match iterations.checked_mul(players as u64) {
        Some(count) => count,
        None => {
            return Err(ParallelError::TaskCountOverflow);
        },
    };
    if count_u64 > usize::MAX as u64 {
        return Err(ParallelError::TaskCountOverflow);
    }
    let count: usize = count_u64 as usize;
    let ghost private_start = solver.private_sampler.rng.state;
    let ghost traversal_start = solver.traversal_rng.state;
    let mut private_rng = XorShift64 { state: solver.private_sampler.rng_state() };
    let mut traversal_rng = XorShift64 { state: solver.traversal_rng.state };
    let mut tasks: Vec<ParallelBatchTask> = Vec::new();
    let mut traverser: usize = 0;
    assert(0int % (players as int) == 0) by (nonlinear_arith)
        requires
            players > 0,
    ;
    while tasks.len() < count
        invariant
            3 <= players <= 8,
            tasks@.len() <= count,
            traverser < players,
            traverser == tasks@.len() as int % players as int,
            private_rng.state == after_steps(private_start, tasks@.len()),
            traversal_rng.state == after_steps(traversal_start, tasks@.len()),
            private_rng.state != 0,
            traversal_rng.state != 0,
            tasks@ == tasks_of(players, private_start, traversal_start, tasks@.len()),
        decreases count - tasks.len(),
    {
        let ghost before = tasks@;
        let ghost index = tasks@.len() as int;
        proof {
            lemma_state_never_zero(private_rng.state);
            lemma_state_never_zero(traversal_rng.state);
        }
        let private_seed = private_rng.next_u64();
        let traversal_seed = traversal_rng.next_u64();
        tasks.push(ParallelBatchTask { traverser, private_seed, traversal_seed });
        let ghost turn = traverser as int;
        traverser = if traverser + 1 == players {
            0
        } else {
            traverser + 1
        };
        proof {
            lemma_next_turn(index, players as int);
            assert(after_steps(private_start, (index + 1) as nat) == private_rng.state);
            assert(after_steps(traversal_start, (index + 1) as nat) == traversal_rng.state);
            assert(tasks@ =~= tasks_of(players, private_start, traversal_start, tasks@.len()));
        }
    }
    Ok(
        BatchPlan {
            iterations,
            tasks,
            private_state: private_rng.state,
            traversal_state: traversal_rng.state,
        },
    )
}

proof fn lemma_next_turn(index: int, players: int)
    requires
        index >= 0,
        players > 0,
    ensures
        (index + 1) % players == if index % players + 1 == players {
            0
        } else {
            index % players + 1
        },
{
    vstd::arithmetic::div_mod::lemma_fundamental_div_mod(index, players);
    vstd::arithmetic::div_mod::lemma_mod_bound(index, players);
    let quotient = index / players;
    let turn = index % players;
    if turn + 1 == players {
        assert(index + 1 == (quotient + 1) * players) by (nonlinear_arith)
            requires
                index == players * quotient + turn,
                turn + 1 == players,
        ;
        vstd::arithmetic::div_mod::lemma_mod_multiples_basic(quotient + 1, players);
    } else {
        assert(index + 1 == quotient * players + (turn + 1)) by (nonlinear_arith)
            requires
                index == players * quotient + turn,
        ;
        vstd::arithmetic::div_mod::lemma_fundamental_div_mod_converse(
            index + 1,
            players,
            quotient,
            turn + 1,
        );
    }
}

/// In a batch every traverser has one task in each round of tasks.
pub proof fn lemma_traversers_take_turns(
    players: usize,
    private_state: u64,
    traversal_state: u64,
    round: int,
    traverser: usize,
)
    requires
        traverser < players,
        round >= 0,
    ensures
        task_at(players, private_state, traversal_state, round * players + traverser).traverser
            == traverser,
{
    vstd::arithmetic::div_mod::lemma_fundamental_div_mod_converse(
        round * players + traverser,
        players as int,
        round,
        traverser as int,
    );
}

/// No more workers than tasks, and at least one.
pub fn usable_workers(worker_count: usize, task_count: usize) -> (workers: usize)
    requires
        worker_count > 0,
    ensures
        workers > 0,
        workers <= worker_count,
        workers == if task_count == 0 {
            1
        } else if worker_count < task_count {
            worker_count
        } else {
            task_count
        },
{
    if task_count == 0 {
        1
    } else if worker_count < task_count {
        worker_count
    } else {
        task_count
    }
}

/// Every `worker_count`-th task from the number of the worker on.
pub open spec fn is_share(
    indices: Seq<usize>,
    worker: usize,
    worker_count: usize,
    task_count: usize,
) -> bool {
    &&& forall|k: int|
        0 <= k < indices.len() ==> (#[trigger] indices[k]) == worker + k * worker_count
            && indices[k] < task_count
    &&& worker + indices.len() * worker_count >= task_count
}

/// The tasks of one worker.
pub fn worker_tasks(worker: usize, worker_count: usize, task_count: usize) -> (indices: Vec<usize>)
    requires
        worker < worker_count,
    ensures
        is_share(indices@, worker, worker_count, task_count),
{
    let mut indices: Vec<usize> = Vec::new();
    let mut index: usize = worker;
    let mut more: bool = worker < task_count;
    assert(worker == worker + 0 * worker_count) by (nonlinear_arith);
    while more
        invariant
            worker < worker_count,
            more ==> index == worker + indices@.len() * worker_count && index < task_count,
            !more ==> worker + indices@.len() * worker_count >= task_count,
            forall|k: int|
                0 <= k < indices@.len() ==> (#[trigger] indices@[k]) == worker + k * worker_count
                    && indices@[k] < task_count,
        decreases (if more { task_count - index } else { 0 }), (if more { 1int } else { 0 }),
    {
        let ghost count = indices@.len() as int;
        indices.push(index);
        proof {
            assert((count + 1) * worker_count == count * worker_count + worker_count)
                by (nonlinear_arith);
        }
        if task_count - index > worker_count {
            index = index + worker_count;
        } else {
            more = false;
        }
    }
    indices
}

/// Every task has exactly one worker: the one whose number is the remainder of
/// the task's number by the number of workers.
pub proof fn lemma_workers_share_the_tasks(
    worker: usize,
    worker_count: usize,
    task_count: usize,
    indices: Seq<usize>,
    task: usize,
)
    requires
        worker < worker_count,
        task < task_count,
        is_share(indices, worker, worker_count, task_count),
    ensures
        indices.contains(task) <==> task as int % worker_count as int == worker,
{
    let count = worker_count as int;
    let quotient = task as int / count;
    let rest = task as int % count;
    vstd::arithmetic::div_mod::lemma_fundamental_div_mod(task as int, count);
    vstd::arithmetic::div_mod::lemma_mod_bound(task as int, count);
    if indices.contains(task) {
        let k = choose|k: int| 0 <= k < indices.len() && indices[k] == task;
        assert(indices[k] == worker + k * worker_count);
        vstd::arithmetic::div_mod::lemma_fundamental_div_mod_converse(
            task as int,
            count,
            k,
            worker as int,
        );
    }
    if rest == worker {
        assert(quotient >= 0) by (nonlinear_arith)
            requires
                task as int == count * quotient + rest,
                rest < count,
                count > 0,
                task >= 0,
        ;
        assert(quotient < indices.len()) by (nonlinear_arith)
            requires
                task as int == count * quotient + rest,
                rest == worker,
                task < task_count,
                worker + indices.len() * count >= task_count,
                count > 0,
        ;
        assert(quotient * count == count * quotient) by (nonlinear_arith);
        assert(indices[quotient] == task);
    }
}

/// What one task works on and has found out.
pub struct ParallelTaskRun {
    pub traverser: usize,
    pub private_sampling_attempts: u64,
    pub rng: XorShift64,
    pub counters: WalkCounters,
    pub visits_by_player: Vec<u64>,
    /// Sums of the changes, and the visits that they come from.
    pub deltas: Table<InfoSetData>,
}

impl ParallelTaskRun {
    pub open spec fn wf(self) -> bool {
        &&& self.rng.state != 0
        &&& self.deltas.wf()
        &&& batch_keys(self.deltas.entries@)
    }

    /// Draws the deal of a task from the stream that its seed starts.
    pub fn begin(
        sampler: &MultiwayPrivateDealSampler,
        player_count: usize,
        max_private_attempts: usize,
        task: ParallelBatchTask,
    ) -> (result: Result<(Self, Vec<Combo>), ParallelError>)
        requires
            sampler.wf(),
            max_private_attempts > 0,
        ensures
            ({
                let outcome = attempts(
                    sampler.candidates@,
                    sampler.thresholds@,
                    None,
                    sampler.dead_cards,
                    task.private_seed,
                    1,
                    max_private_attempts as int,
                );
                match result {
                    Ok((run, hands)) => {
                        &&& task.private_seed != 0
                        &&& run.wf()
                        &&& outcome.0 == Some((hands@, run.private_sampling_attempts as int))
                        &&& run.traverser == task.traverser
                        &&& run.rng.state == seeded_state(task.traversal_seed)
                        &&& run.counters == (WalkCounters {
                            sampled_chance_nodes: 0,
                            sampled_opponent_actions: 0,
                        })
                        &&& run.visits_by_player@ == Seq::new(player_count as nat, |i: int| 0u64)
                        &&& run.deltas.entries@.len() == 0
                    },
                    Err(error) => if task.private_seed == 0 {
                        error == ParallelError::Sampler(SamplerError::ZeroState)
                    } else {
                        &&& outcome.0 is None
                        &&& error == ParallelError::Sampler(
                            SamplerError::AttemptsExhausted { limit: max_private_attempts },
                        )
                    },
                }
            }),
    {
        let mut fork = match sampler.fork_with_state(task.private_seed, 0) {
            Ok(fork) => fork,
            Err(error) => {
                return Err(ParallelError::Sampler(error));
            },
        };
        proof {
            lemma_same_attempts(
                fork,
                *sampler,
                None,
                task.private_seed,
                1,
                max_private_attempts as int,
            );
            fork.lemma_attempts_within(None, max_private_attempts);
        }
        match fork.sample(max_private_attempts) {
            Ok(sample) => Ok(
                (
                    ParallelTaskRun {
                        traverser: task.traverser,
                        private_sampling_attempts: sample.attempts,
                        rng: XorShift64::new(task.traversal_seed),
                        counters: WalkCounters {
                            sampled_chance_nodes: 0,
                            sampled_opponent_actions: 0,
                        },
                        visits_by_player: zeros(player_count),
                        deltas: Table::new(),
                    },
                    sample.hands,
                ),
            ),
            Err(error) => Err(ParallelError::Sampler(error)),
        }
    }

    /// The information set of a decision in the snapshot, if it is there.
    pub fn snapshot_entry(snapshot: &Table<InfoSetData>, point: DecisionPoint) -> (result: Result<
        Option<usize>,
        ParallelError,
    >)
        requires
            snapshot.wf(),
        ensures
            if !snapshot@.dom().contains(point.key()) {
                result == Ok::<Option<usize>, ParallelError>(None)
            } else if snapshot@[point.key()].regret_sum@.len() != point.actions {
                result == Err::<Option<usize>, ParallelError>(
                    ParallelError::ActionCountChange {
                        player: point.player,
                        node: point.public_node,
                    },
                )
            } else {
                &&& result matches Ok(Some(index))
                &&& index < snapshot.entries@.len()
                &&& snapshot.entries@[index as int] == (point.key(), snapshot@[point.key()])
            },
    {
        let key = make_batch_key(point.player, point.public_node, point.hand);
        match snapshot.find(key) {
            Place::Missing(_) => Ok(None),
            Place::Found(index) => {
                if snapshot.entries[index].1.regret_sum.len() != point.actions {
                    Err(
                        ParallelError::ActionCountChange {
                            player: point.player,
                            node: point.public_node,
                        },
                    )
                } else {
                    Ok(Some(index))
                }
            },
        }
    }

    /// Enters the next node of the walk, which has `shape`.
    pub fn visit(
        &mut self,
        walk: &mut Walk,
        tree: &GameTree,
        profile: &MultiwayHoldemPublicProfile,
        thresholds: &[u64],
    ) -> (result: Result<Plan, ParallelError>)
        requires
            old(self).wf(),
            old(walk).wf(),
            old(walk).step() is Enter,
            tree_in_order(*tree),
            profile.wf(),
            Stage::Public(profile).thresholds_match(
                *tree,
                old(walk).step()->Enter_0,
                old(self).traverser,
                thresholds@,
            ),
            old(self).counters.sampled_chance_nodes < u64::MAX,
            old(self).counters.sampled_opponent_actions < u64::MAX,
        ensures
            final(self).wf(),
            final(self).traverser == old(self).traverser,
            final(self).private_sampling_attempts == old(self).private_sampling_attempts,
            final(self).visits_by_player == old(self).visits_by_player,
            final(self).deltas == old(self).deltas,
            final(walk).wf(),
            ({
                let node = old(walk).step()->Enter_0;
                match public_error(*tree, profile.hands@, node) {
                    Some(error) => {
                        &&& result == Err::<Plan, ParallelError>(ParallelError::Arena(error))
                        &&& *final(self) == *old(self)
                        &&& *final(walk) == *old(walk)
                    },
                    None => {
                        &&& result is Ok
                        &&& exists|shape: Shape| #[trigger]
                            public_shape_of(tree.nodes@[node as int], profile.hands@, shape) && {
                                let plan = result->Ok_0;
                                let drawn = samples(shape, old(self).traverser);
                                let next = xorshift(old(self).rng.state);
                                &&& plan == sampled_plan(
                                    shape,
                                    old(self).traverser,
                                    thresholds@,
                                    draw_of(next),
                                )
                                &&& final(self).rng.state == if drawn {
                                    next
                                } else {
                                    old(self).rng.state
                                }
                                &&& final(self).counters.sampled_chance_nodes
                                    == old(self).counters.sampled_chance_nodes + if drawn
                                    && shape is Chance {
                                    1int
                                } else {
                                    0
                                }
                                &&& final(self).counters.sampled_opponent_actions
                                    == old(self).counters.sampled_opponent_actions + if drawn
                                    && shape is Decision {
                                    1int
                                } else {
                                    0
                                }
                                &&& final(walk).events@ == old(walk).events@.push(
                                    WalkEvent::Enter(node, planned(shape_targets(shape), plan)),
                                )
                            }
                    },
                }
            }),
    {
        let node = match walk.next_step() {
            WalkStep::Enter(node) => node,
            _ => {
                return Ok(Plan::Nowhere);
            },
        };
        let shape = match profile.shape(tree, node) {
            Ok(shape) => shape,
            Err(error) => {
                return Err(ParallelError::Arena(error));
            },
        };
        proof {
            assert(Stage::Public(profile).has_shape(*tree, node, shape));
            lemma_state_never_zero(self.rng.state);
        }
        let plan = plan_sampled(
            &shape,
            self.traverser,
            thresholds,
            &mut self.rng,
            &mut self.counters,
        );
        walk.enter(&shape, plan);
        Ok(plan)
    }

    /// Adds the changes at a decision of the traverser to their sums, and counts the
    /// visit. Changes that are not finite are refused.
    pub fn record<F: Fn(u64, u64) -> u64>(
        &mut self,
        point: DecisionPoint,
        regret_deltas: &Vec<u64>,
        strategy_deltas: &Vec<u64>,
        plus: &F,
    ) -> (result: Result<(), ParallelError>)
        requires
            old(self).wf(),
            point.hand.valid(),
            point.player < old(self).visits_by_player@.len(),
            regret_deltas@.len() == point.actions,
            strategy_deltas@.len() == point.actions,
            old(self).deltas@.dom().contains(point.key()) ==> {
                &&& old(self).deltas@[point.key()].regret_sum@.len() == point.actions
                &&& old(self).deltas@[point.key()].strategy_sum@.len() == point.actions
            },
            known_data(old(self).deltas, point.key(), 0).visits < u64::MAX,
            old(self).visits_by_player@[point.player as int] < u64::MAX,
            forall|a: u64, b: u64| call_requires(*plus, (a, b)),
        ensures
            final(self).wf(),
            final(self).traverser == old(self).traverser,
            final(self).private_sampling_attempts == old(self).private_sampling_attempts,
            final(self).rng == old(self).rng,
            final(self).counters == old(self).counters,
            if !all_finite(regret_deltas@) || !all_finite(strategy_deltas@) {
                &&& result == Err::<(), ParallelError>(ParallelError::NonFiniteUpdate)
                &&& *final(self) == *old(self)
            } else {
                let key = point.key();
                let data = known_data(old(self).deltas, key, point.actions);
                let now = final(self).deltas@[key]@;
                &&& result is Ok
                &&& final(self).deltas@ == old(self).deltas@.insert(key, final(self).deltas@[key])
                &&& now.visits == data.visits + 1
                &&& now.regret_sum.len() == point.actions
                &&& now.strategy_sum.len() == point.actions
                &&& forall|sum_of: spec_fn(u64, u64) -> u64| #[trigger]
                    describes(*plus, sum_of) ==> {
                        &&& now.regret_sum == summed(data.regret_sum, regret_deltas@, sum_of)
                        &&& now.strategy_sum == summed(data.strategy_sum, strategy_deltas@, sum_of)
                    }
                &&& final(self).visits_by_player@ == old(self).visits_by_player@.update(
                    point.player as int,
                    (old(self).visits_by_player@[point.player as int] + 1) as u64,
                )
            },
    {
        if !values_finite(regret_deltas) || !values_finite(strategy_deltas) {
            return Err(ParallelError::NonFiniteUpdate);
        }
        let ghost before = self.deltas;
        let key = make_batch_key(point.player, point.public_node, point.hand);
        let index = match open_entry(&mut self.deltas, key, point.actions) {
            Ok(index) => index,
            Err(_) => {
                return Err(
                    ParallelError::ActionCountChange {
                        player: point.player,
                        node: point.public_node,
                    },
                );
            },
        };
        proof {
            lemma_entry(self.deltas, index as int);
        }
        let data = &self.deltas.entries[index].1;
        let regrets = add_all(&data.regret_sum, regret_deltas, plus);
        let strategies = add_all(&data.strategy_sum, strategy_deltas, plus);
        let visits = data.visits;
        set_entry(&mut self.deltas, index, regrets, strategies, visits + 1);
        let counted = self.visits_by_player[point.player];
        self.visits_by_player[point.player] = counted + 1;
        assert(self.deltas@ =~= before@.insert(key, self.deltas@[key]));
        Ok(())
    }
}

pub fn values_finite(values: &Vec<u64>) -> (yes: bool)
    ensures
        yes == all_finite(values@),
{
    let mut index: usize = 0;
    while index < values.len()
        invariant
            index <= values@.len(),
            forall|i: int| 0 <= i < index ==> finite(#[trigger] values@[i]),
        decreases values.len() - index,
    {
        if !is_finite(values[index]) {
            assert(!finite(values@[index as int]));
            return false;
        }
        index = index + 1;
    }
    true
}

/// The counters after the result of a task.
pub open spec fn result_counted(metrics: BatchMetricsView, run: ParallelTaskRun) -> BatchMetricsView {
    let dealt = deal_counted(metrics, run.traverser, run.private_sampling_attempts);
    BatchMetricsView {
        sampled_chance_nodes: (dealt.sampled_chance_nodes + run.counters.sampled_chance_nodes)
            as u64,
        sampled_opponent_actions: (dealt.sampled_opponent_actions
            + run.counters.sampled_opponent_actions) as u64,
        infoset_visits: (dealt.infoset_visits + total(run.visits_by_player@)) as u64,
        infoset_visits_by_player: Seq::new(
            dealt.infoset_visits_by_player.len(),
            |i: int|
                (dealt.infoset_visits_by_player[i] + run.visits_by_player@[i]) as u64,
        ),
        ..dealt
    }
}

pub open spec fn total(values: Seq<u64>) -> int
    decreases values.len(),
{
    if values.len() == 0 {
        0
    } else {
        total(values.drop_last()) + values.last()
    }
}

proof fn lemma_total_grows(values: Seq<u64>, count: int)
    requires
        0 <= count <= values.len(),
    ensures
        0 <= total(values.take(count)) <= total(values),
    decreases values.len(),
{
    if count == values.len() {
        assert(values.take(count) =~= values);
        if values.len() > 0 {
            lemma_total_grows(values.drop_last(), count - 1);
            assert(values.drop_last().take(count - 1) =~= values.drop_last());
        }
    } else {
        lemma_total_grows(values.drop_last(), count);
        assert(values.drop_last().take(count) =~= values.take(count));
    }
}

/// No counter would pass its limit.
pub open spec fn result_countable(metrics: BatchMetricsView, run: ParallelTaskRun) -> bool {
    &&& crate::batch_metrics::deal_countable(metrics, run.traverser, run.private_sampling_attempts)
    &&& metrics.sampled_chance_nodes + run.counters.sampled_chance_nodes <= u64::MAX
    &&& metrics.sampled_opponent_actions + run.counters.sampled_opponent_actions <= u64::MAX
    &&& metrics.infoset_visits + total(run.visits_by_player@) <= u64::MAX
    &&& forall|i: int|
        0 <= i < run.visits_by_player@.len() ==> metrics.infoset_visits_by_player[i]
            + (#[trigger] run.visits_by_player@[i]) <= u64::MAX
}

/// Counts the result of a task.
pub(crate) fn count_run(
    metrics: &mut MultiwayBatchSamplingMetrics,
    run: &ParallelTaskRun,
    Ghost(players): Ghost<usize>,
)
    requires
        old(metrics).sized(players),
        run.traverser < players,
        run.visits_by_player@.len() == players,
        result_countable(old(metrics)@, *run),
    ensures
        final(metrics).sized(players),
        final(metrics)@ == result_counted(old(metrics)@, *run),
{
    let ghost before = metrics@;
    metrics.count_deal(run.traverser, run.private_sampling_attempts);
    metrics.sampled_chance_nodes = metrics.sampled_chance_nodes
        + run.counters.sampled_chance_nodes;
    metrics.sampled_opponent_actions = metrics.sampled_opponent_actions
        + run.counters.sampled_opponent_actions;
    let ghost dealt = metrics@;
    let mut player: usize = 0;
    assert(run.visits_by_player@.take(0) =~= Seq::<u64>::empty());
    while player < run.visits_by_player.len()
        invariant
            player <= run.visits_by_player@.len(),
            run.visits_by_player@.len() == players,
            metrics.sized(players),
            dealt.infoset_visits + total(run.visits_by_player@) <= u64::MAX,
            dealt.infoset_visits_by_player.len() == players,
            forall|i: int|
                0 <= i < players ==> dealt.infoset_visits_by_player[i] + (
                #[trigger] run.visits_by_player@[i]) <= u64::MAX,
            metrics@.infoset_visits == dealt.infoset_visits + total(
                run.visits_by_player@.take(player as int),
            ),
            forall|i: int|
                0 <= i < player ==> (#[trigger] metrics@.infoset_visits_by_player[i])
                    == dealt.infoset_visits_by_player[i] + run.visits_by_player@[i],
            forall|i: int|
                player <= i < players ==> (#[trigger] metrics@.infoset_visits_by_player[i])
                    == dealt.infoset_visits_by_player[i],
            metrics@ == (BatchMetricsView {
                infoset_visits: metrics@.infoset_visits,
                infoset_visits_by_player: metrics@.infoset_visits_by_player,
                ..dealt
            }),
        decreases run.visits_by_player.len() - player,
    {
        let visits = run.visits_by_player[player];
        proof {
            let values = run.visits_by_player@;
            assert(values.take(player as int + 1).drop_last() =~= values.take(player as int));
            lemma_total_grows(values, player as int + 1);
            assert(dealt.infoset_visits_by_player[player as int] + values[player as int]
                <= u64::MAX);
        }
        metrics.count_visits(player, visits);
        player = player + 1;
    }
    proof {
        assert(run.visits_by_player@.take(player as int) =~= run.visits_by_player@);
        assert(metrics@ =~= result_counted(before, *run));
    }
}

/// Have the counters room for the result of a task?
pub(crate) fn is_countable(metrics: &MultiwayBatchSamplingMetrics, run: &ParallelTaskRun, Ghost(players): Ghost<usize>) -> (yes: bool)
    requires
        metrics.sized(players),
        run.traverser < players,
        run.visits_by_player@.len() == players,
    ensures
        yes == result_countable(metrics@, *run),
{
    let attempts = run.private_sampling_attempts;
    if metrics.traverser_updates == u64::MAX
        || metrics.traverser_updates_by_player[run.traverser] == u64::MAX
        || metrics.sampled_private_deals == u64::MAX
        || metrics.sampled_private_deals_by_player[run.traverser] == u64::MAX
        || metrics.private_sampling_attempts > u64::MAX - attempts
        || metrics.private_sampling_attempts_by_player[run.traverser] > u64::MAX - attempts
        || metrics.sampled_chance_nodes > u64::MAX - run.counters.sampled_chance_nodes
        || metrics.sampled_opponent_actions > u64::MAX - run.counters.sampled_opponent_actions {
        return false;
    }
    let mut room: u64 = u64::MAX - metrics.infoset_visits;
    let mut player: usize = 0;
    assert(run.visits_by_player@.take(0) =~= Seq::<u64>::empty());
    while player < run.visits_by_player.len()
        invariant
            metrics.sized(players),
            player <= run.visits_by_player@.len(),
            run.visits_by_player@.len() == players,
            metrics.infoset_visits + total(run.visits_by_player@.take(player as int)) + room
                == u64::MAX,
            forall|i: int|
                0 <= i < player ==> metrics.infoset_visits_by_player@[i] + (
                #[trigger] run.visits_by_player@[i]) <= u64::MAX,
        decreases run.visits_by_player.len() - player,
    {
        let visits = run.visits_by_player[player];
        proof {
            let values = run.visits_by_player@;
            assert(values.take(player as int + 1).drop_last() =~= values.take(player as int));
            lemma_total_grows(values, player as int + 1);
        }
        if visits > room || metrics.infoset_visits_by_player[player] > u64::MAX - visits {
            assert(metrics.infoset_visits_by_player@[player as int]
                + run.visits_by_player@[player as int] > u64::MAX || visits > room);
            return false;
        }
        room = room - visits;
        player = player + 1;
    }
    assert(run.visits_by_player@.take(player as int) =~= run.visits_by_player@);
    true
}

impl MultiwayHoldemBatchSolver {
    /// Counts the result of a task.
    pub fn count_result(&mut self, run: &ParallelTaskRun)
        requires
            old(self).wf(),
            run.traverser < old(self).players(),
            run.visits_by_player@.len() == old(self).players(),
            result_countable(old(self).metrics@, *run),
        ensures
            final(self).wf(),
            final(self).public_arena == old(self).public_arena,
            final(self).config_fingerprint == old(self).config_fingerprint,
            final(self).max_private_attempts == old(self).max_private_attempts,
            final(self).private_sampler == old(self).private_sampler,
            final(self).traversal_rng == old(self).traversal_rng,
            final(self).profile_cache == old(self).profile_cache,
            final(self).infosets == old(self).infosets,
            final(self).iterations == old(self).iterations,
            final(self).metrics@ == result_counted(old(self).metrics@, *run),
    {
        let ghost players = self.players();
        count_run(&mut self.metrics, run, Ghost(players));
    }

    /// Ends a batch: both streams stand after its tasks, and its iterations
    /// count.
    pub fn finish_batch(&mut self, plan: &BatchPlan, private_sampling_attempts: u64) -> (result: Result<
        (),
        ParallelError,
    >)
        requires
            old(self).wf(),
            plan.private_state != 0,
            plan.traversal_state != 0,
            old(self).iterations + plan.iterations <= u64::MAX,
        ensures
            final(self).wf(),
            if old(self).private_sampler.total_attempts + private_sampling_attempts > u64::MAX {
                &&& result == Err::<(), ParallelError>(ParallelError::AttemptCountOverflow)
                &&& *final(self) == *old(self)
            } else {
                &&& result is Ok
                &&& *final(self) == (MultiwayHoldemBatchSolver {
                    private_sampler: MultiwayPrivateDealSampler {
                        rng: XorShift64 { state: plan.private_state },
                        total_attempts: (old(self).private_sampler.total_attempts
                            + private_sampling_attempts) as u64,
                        ..old(self).private_sampler
                    },
                    traversal_rng: XorShift64 { state: plan.traversal_state },
                    iterations: (old(self).iterations + plan.iterations) as u64,
                    ..*old(self)
                })
            },
    {
        let made = self.private_sampler.total_attempts();
        let total_attempts = match made.checked_add(private_sampling_attempts) {
            Some(sum) => sum,
            None => {
                return Err(ParallelError::AttemptCountOverflow);
            },
        };
        self.private_sampler.rng = XorShift64 { state: plan.private_state };
        self.private_sampler.total_attempts = total_attempts;
        self.traversal_rng = XorShift64 { state: plan.traversal_state };
        self.iterations = self.iterations + plan.iterations;
        Ok(())
    }
}

} // verus!
