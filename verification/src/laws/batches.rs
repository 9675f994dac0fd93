//! What a batch of walks counts, adds and hands over.
use vstd::prelude::*;

use crate::batch::{
    compiled_point, decision_error, filled_metrics, same_context, setup_error, visit_counted,
    BatchError, MultiwayHoldemBatchSolver, SAMPLER_SEED_MIX,
};
use crate::batch_metrics::{
    deal_countable, deal_counted, dimension_error, filled, fresh_metrics, BatchMetricsView,
};
use crate::batch_report::{
    infosets_of, row_error, row_ok, unlabelled, visits_of, MultiwayBatchInfoSetReport,
};
use crate::batch_store::{
    batch_checkpoint_error, batch_entries_error, batch_entry_error, first_bad_hand,
    MultiwayBatchInfoSetCheckpoint, MultiwayHoldemBatchCheckpoint,
    MULTIWAY_BATCH_CHECKPOINT_FORMAT_VERSION,
};
use crate::bits::{above_zero, finite};
use crate::cards::Combo;
use crate::checkpoint::{usable, InfoSetData, InfoSetView};
use crate::hash::{fnv_words, FNV_OFFSET};
use crate::holdem::MultiwayCompiledHoldemGame;
use crate::multiway::MultiwayGameNode;
use crate::parallel::{
    after_steps, is_plan, result_countable, result_counted, smaller, tasks_of, total,
    BatchPlan, ParallelError, ParallelTaskRun,
};
use crate::ranges::Candidate;
use crate::reduction::{delta_applied, known, result_reduced, Reduced};
use crate::rng::xorshift;
use crate::sampler::sampler_words;
use crate::table::Key;
use crate::tree::{tree_error, GameTree, NodeFacts};
use crate::tree_fingerprint::tree_words;

verus! {

/// All entries but one are the same.
pub open spec fn same_but(before: Seq<u64>, after: Seq<u64>, at: int) -> bool {
    &&& after.len() == before.len()
    &&& forall|i: int| 0 <= i < before.len() && i != at ==> #[trigger] after[i] == before[i]
}

/// A deal counts one update and one deal, in all and for its traverser, and as many
/// attempts as it took; no other counter moves.
pub proof fn lemma_counted_deals(metrics: BatchMetricsView, traverser: usize, attempts: u64)
    requires
        deal_countable(metrics, traverser, attempts),
        traverser < metrics.traverser_updates_by_player.len(),
        traverser < metrics.sampled_private_deals_by_player.len(),
        traverser < metrics.private_sampling_attempts_by_player.len(),
    ensures
        ({
            let after = deal_counted(metrics, traverser, attempts);
            let t = traverser as int;
            &&& after.traverser_updates == metrics.traverser_updates + 1
            &&& after.traverser_updates_by_player[t] == metrics.traverser_updates_by_player[t] + 1
            &&& same_but(
                metrics.traverser_updates_by_player,
                after.traverser_updates_by_player,
                t,
            )
            &&& after.sampled_private_deals == metrics.sampled_private_deals + 1
            &&& after.sampled_private_deals_by_player[t]
                == metrics.sampled_private_deals_by_player[t] + 1
            &&& same_but(
                metrics.sampled_private_deals_by_player,
                after.sampled_private_deals_by_player,
                t,
            )
            &&& after.private_sampling_attempts == metrics.private_sampling_attempts + attempts
            &&& after.private_sampling_attempts_by_player[t]
                == metrics.private_sampling_attempts_by_player[t] + attempts
            &&& same_but(
                metrics.private_sampling_attempts_by_player,
                after.private_sampling_attempts_by_player,
                t,
            )
            &&& after.sampled_chance_nodes == metrics.sampled_chance_nodes
            &&& after.sampled_opponent_actions == metrics.sampled_opponent_actions
            &&& after.infoset_visits == metrics.infoset_visits
            &&& after.infoset_visits_by_player == metrics.infoset_visits_by_player
            &&& after.compiled_profile_cache_hits == metrics.compiled_profile_cache_hits
            &&& after.compiled_profile_cache_misses == metrics.compiled_profile_cache_misses
            &&& after.compiled_profile_cache_evictions == metrics.compiled_profile_cache_evictions
        }),
{
}

/// The result of a task counts its deal, what it drew, and the visits of each player.
pub proof fn lemma_counted_results(metrics: BatchMetricsView, run: ParallelTaskRun)
    requires
        result_countable(metrics, run),
        run.traverser < metrics.traverser_updates_by_player.len(),
        run.visits_by_player@.len() == metrics.infoset_visits_by_player.len(),
    ensures
        ({
            let after = result_counted(metrics, run);
            let dealt = deal_counted(metrics, run.traverser, run.private_sampling_attempts);
            &&& after.traverser_updates == dealt.traverser_updates
            &&& after.traverser_updates_by_player == dealt.traverser_updates_by_player
            &&& after.sampled_private_deals == dealt.sampled_private_deals
            &&& after.sampled_private_deals_by_player == dealt.sampled_private_deals_by_player
            &&& after.private_sampling_attempts == dealt.private_sampling_attempts
            &&& after.private_sampling_attempts_by_player
                == dealt.private_sampling_attempts_by_player
            &&& after.sampled_chance_nodes == metrics.sampled_chance_nodes
                + run.counters.sampled_chance_nodes
            &&& after.sampled_opponent_actions == metrics.sampled_opponent_actions
                + run.counters.sampled_opponent_actions
            &&& after.infoset_visits == metrics.infoset_visits + total(run.visits_by_player@)
            &&& after.infoset_visits_by_player.len() == metrics.infoset_visits_by_player.len()
            &&& forall|i: int|
                0 <= i < run.visits_by_player@.len()
                    ==> #[trigger] after.infoset_visits_by_player[i]
                    == metrics.infoset_visits_by_player[i] + run.visits_by_player@[i]
            &&& after.compiled_profile_cache_hits == metrics.compiled_profile_cache_hits
            &&& after.compiled_profile_cache_misses == metrics.compiled_profile_cache_misses
            &&& after.compiled_profile_cache_evictions == metrics.compiled_profile_cache_evictions
        }),
{
    assert(0 <= total(run.visits_by_player@)) by {
        lemma_total_bounds(run.visits_by_player@);
    }
}

proof fn lemma_total_bounds(values: Seq<u64>)
    ensures
        0 <= total(values),
    decreases values.len(),
{
    if values.len() > 0 {
        lemma_total_bounds(values.drop_last());
    }
}

/// Adding up the lists adds up the totals.
proof fn lemma_totals_add(left: Seq<u64>, right: Seq<u64>, sums: Seq<u64>)
    requires
        left.len() == right.len(),
        sums.len() == left.len(),
        forall|i: int| 0 <= i < left.len() ==> #[trigger] sums[i] == left[i] + right[i],
    ensures
        total(sums) == total(left) + total(right),
    decreases left.len(),
{
    if left.len() > 0 {
        let last = left.len() - 1;
        assert(sums[last] == left[last] + right[last]);
        assert forall|i: int| 0 <= i < last implies #[trigger] sums.drop_last()[i]
            == left.drop_last()[i] + right.drop_last()[i] by {
            assert(sums[i] == left[i] + right[i]);
        }
        lemma_totals_add(left.drop_last(), right.drop_last(), sums.drop_last());
    }
}

/// The visits of all players add up to the counter of visits, after a result as
/// before it.
pub proof fn lemma_visits_keep_adding_up(metrics: BatchMetricsView, run: ParallelTaskRun)
    requires
        result_countable(metrics, run),
        run.traverser < metrics.traverser_updates_by_player.len(),
        run.visits_by_player@.len() == metrics.infoset_visits_by_player.len(),
        metrics.infoset_visits == total(metrics.infoset_visits_by_player),
    ensures
        result_counted(metrics, run).infoset_visits == total(
            result_counted(metrics, run).infoset_visits_by_player,
        ),
{
    lemma_counted_results(metrics, run);
    lemma_totals_add(
        metrics.infoset_visits_by_player,
        run.visits_by_player@,
        result_counted(metrics, run).infoset_visits_by_player,
    );
}

/// A visit counts one, in all and for the player who acts.
pub proof fn lemma_counted_visits(metrics: BatchMetricsView, player: usize)
    requires
        player < metrics.infoset_visits_by_player.len(),
        metrics.infoset_visits < u64::MAX,
        metrics.infoset_visits_by_player[player as int] < u64::MAX,
    ensures
        visit_counted(metrics, player).infoset_visits == metrics.infoset_visits + 1,
        visit_counted(metrics, player).infoset_visits_by_player[player as int]
            == metrics.infoset_visits_by_player[player as int] + 1,
        same_but(
            metrics.infoset_visits_by_player,
            visit_counted(metrics, player).infoset_visits_by_player,
            player as int,
        ),
        visit_counted(metrics, player).traverser_updates == metrics.traverser_updates,
        visit_counted(metrics, player).sampled_private_deals == metrics.sampled_private_deals,
        visit_counted(metrics, player).private_sampling_attempts
            == metrics.private_sampling_attempts,
        visit_counted(metrics, player).sampled_chance_nodes == metrics.sampled_chance_nodes,
        visit_counted(metrics, player).sampled_opponent_actions
            == metrics.sampled_opponent_actions,
{
}

/// New counters are all zero, with a place for each player.
pub proof fn lemma_new_counters(players: usize, i: int)
    requires
        0 <= i < players,
    ensures
        ({
            let metrics = fresh_metrics(players);
            &&& metrics.traverser_updates == 0
            &&& metrics.sampled_private_deals == 0
            &&& metrics.private_sampling_attempts == 0
            &&& metrics.sampled_chance_nodes == 0
            &&& metrics.sampled_opponent_actions == 0
            &&& metrics.infoset_visits == 0
            &&& metrics.traverser_updates_by_player.len() == players
            &&& metrics.sampled_private_deals_by_player.len() == players
            &&& metrics.private_sampling_attempts_by_player.len() == players
            &&& metrics.infoset_visits_by_player.len() == players
            &&& metrics.traverser_updates_by_player[i] == 0
            &&& metrics.sampled_private_deals_by_player[i] == 0
            &&& metrics.private_sampling_attempts_by_player[i] == 0
            &&& metrics.infoset_visits_by_player[i] == 0
        }),
{
}

/// Counters of a checkpoint are in order exactly where every list by player is
/// missing or has a place for each player.
pub proof fn lemma_counters_in_order(metrics: BatchMetricsView, players: usize)
    ensures
        dimension_error(metrics, players) is None <==> {
            &&& metrics.traverser_updates_by_player.len() == 0
                || metrics.traverser_updates_by_player.len() == players
            &&& metrics.sampled_private_deals_by_player.len() == 0
                || metrics.sampled_private_deals_by_player.len() == players
            &&& metrics.private_sampling_attempts_by_player.len() == 0
                || metrics.private_sampling_attempts_by_player.len() == players
            &&& metrics.infoset_visits_by_player.len() == 0
                || metrics.infoset_visits_by_player.len() == players
        },
{
}

/// A missing list is taken up as zeros, any other as it is; so are the totals.
pub proof fn lemma_missing_lists(metrics: BatchMetricsView, players: usize, values: Seq<u64>)
    ensures
        values.len() > 0 ==> filled(values, players) == values,
        values.len() == 0 ==> filled(values, players).len() == players && forall|i: int|
            0 <= i < players ==> #[trigger] filled(values, players)[i] == 0,
        ({
            let after = filled_metrics(metrics, players);
            &&& after.traverser_updates_by_player == filled(
                metrics.traverser_updates_by_player,
                players,
            )
            &&& after.sampled_private_deals_by_player == filled(
                metrics.sampled_private_deals_by_player,
                players,
            )
            &&& after.private_sampling_attempts_by_player == filled(
                metrics.private_sampling_attempts_by_player,
                players,
            )
            &&& after.infoset_visits_by_player == filled(metrics.infoset_visits_by_player, players)
            &&& after.traverser_updates == metrics.traverser_updates
            &&& after.sampled_private_deals == metrics.sampled_private_deals
            &&& after.private_sampling_attempts == metrics.private_sampling_attempts
            &&& after.sampled_chance_nodes == metrics.sampled_chance_nodes
            &&& after.sampled_opponent_actions == metrics.sampled_opponent_actions
            &&& after.infoset_visits == metrics.infoset_visits
        }),
{
}

/// A regret takes a finite sum, or zero in place of one that is not above zero.
pub open spec fn takes_regret(regret: u64, sum: u64) -> bool {
    &&& finite(sum)
    &&& above_zero(sum) ==> regret == sum
    &&& !above_zero(sum) ==> regret == 0
}

/// An update of one information set: where it ends well, each change is added to its
/// own sum, no regret stays below zero and the visits are added; no other information
/// set changes, however it ends.
pub proof fn lemma_applied_updates(
    infosets: Map<Key, InfoSetView>,
    key: Key,
    delta: InfoSetView,
    sum_of: spec_fn(u64, u64) -> u64,
    other: Key,
)
    requires
        other != key,
    ensures
        ({
            let (after, error) = delta_applied(infosets, key, delta, sum_of);
            let old = known(infosets, key, delta.regret_sum.len());
            &&& after.dom().contains(key)
            &&& after.dom().contains(other) <==> infosets.dom().contains(other)
            &&& infosets.dom().contains(other) ==> after[other] == infosets[other]
            &&& error is None ==> {
                &&& after[key].visits == old.visits + delta.visits
                &&& after[key].regret_sum.len() == delta.regret_sum.len()
                &&& after[key].strategy_sum.len() == delta.regret_sum.len()
                &&& forall|a: int|
                    0 <= a < delta.regret_sum.len() ==> takes_regret(
                        #[trigger] after[key].regret_sum[a],
                        sum_of(old.regret_sum[a], delta.regret_sum[a]),
                    )
                &&& forall|a: int|
                    0 <= a < delta.regret_sum.len() ==> #[trigger] after[key].strategy_sum[a]
                        == sum_of(old.strategy_sum[a], delta.strategy_sum[a]) && finite(
                        after[key].strategy_sum[a],
                    )
            }
            &&& error == Some(ParallelError::VisitCountOverflow) ==> old.visits + delta.visits
                > u64::MAX
            &&& old.regret_sum.len() != delta.regret_sum.len() ==> error == Some(
                ParallelError::UpdateActionCount {
                    player: key.major as usize,
                    node: key.middle as usize,
                },
            )
        }),
{
    let (after, error) = delta_applied(infosets, key, delta, sum_of);
    if error is None {
        crate::reduction::lemma_finished_update_adds_all(infosets, key, delta, sum_of);
        let old = known(infosets, key, delta.regret_sum.len());
        let sums = crate::sums::summed(old.regret_sum, delta.regret_sum, sum_of);
        assert forall|a: int| 0 <= a < delta.regret_sum.len() implies takes_regret(
            #[trigger] after[key].regret_sum[a],
            sum_of(old.regret_sum[a], delta.regret_sum[a]),
        ) by {
            assert(finite(sums[a]));
        }
        let weights = crate::sums::summed(old.strategy_sum, delta.strategy_sum, sum_of);
        assert forall|a: int| 0 <= a < delta.regret_sum.len() implies {
            #[trigger] after[key].strategy_sum[a] == sum_of(
                old.strategy_sum[a],
                delta.strategy_sum[a],
            ) && finite(after[key].strategy_sum[a])
        } by {
            assert(after[key].strategy_sum == weights);
            assert(delta.strategy_sum.len() == delta.regret_sum.len());
            assert(weights[a] == sum_of(old.strategy_sum[a], delta.strategy_sum[a]));
        }
    }
}

/// A missing result stops a reduction and changes nothing; a result that ends well is
/// counted once, with its attempts.
pub proof fn lemma_reduced_results(
    state: Reduced,
    task: nat,
    result: Option<ParallelTaskRun>,
    sum_of: spec_fn(u64, u64) -> u64,
)
    ensures
        result is None ==> result_reduced(state, task, result, sum_of) == (
            state,
            Some(ParallelError::MissingResult { task: task as usize }),
        ),
        result matches Some(run) ==> {
            let (after, error) = result_reduced(state, task, result, sum_of);
            &&& error is None ==> {
                &&& after.attempts == state.attempts + run.private_sampling_attempts
                &&& after.attempts <= u64::MAX
                &&& after.metrics == result_counted(state.metrics, run)
            }
            &&& error is Some ==> after.metrics == state.metrics
            &&& state.attempts + run.private_sampling_attempts > u64::MAX ==> after == state
        },
{
}

/// Steps of a generator follow each other.
pub proof fn lemma_steps_add(state: u64, first: nat, second: nat)
    ensures
        after_steps(after_steps(state, first), second) == after_steps(state, first + second),
        after_steps(state, 0) == state,
        after_steps(state, 1) == xorshift(state),
    decreases second,
{
    reveal_with_fuel(after_steps, 2);
    if second > 0 {
        lemma_steps_add(state, first, (second - 1) as nat);
        assert(after_steps(state, first + second) == xorshift(
            after_steps(state, (first + second - 1) as nat),
        ));
    }
}

/// The seeds of a batch are the numbers that follow the solver's states, one after
/// the other, and players take turns.
pub proof fn lemma_task_seeds(players: usize, private_state: u64, traversal_state: u64, count: nat, k: int)
    requires
        0 <= k < count,
        players > 0,
    ensures
        ({
            let tasks = tasks_of(players, private_state, traversal_state, count);
            &&& tasks.len() == count
            &&& tasks[k].private_seed == xorshift(
                if k == 0 {
                    private_state
                } else {
                    tasks[k - 1].private_seed
                },
            )
            &&& tasks[k].traversal_seed == xorshift(
                if k == 0 {
                    traversal_state
                } else {
                    tasks[k - 1].traversal_seed
                },
            )
            &&& tasks[0].traverser == 0
            &&& k > 0 ==> tasks[k].traverser == (if tasks[k - 1].traverser + 1 == players {
                0
            } else {
                tasks[k - 1].traverser + 1
            })
        }),
{
    reveal_with_fuel(after_steps, 2);
    vstd::arithmetic::div_mod::lemma_mod_bound(k, players as int);
    vstd::arithmetic::div_mod::lemma_small_mod(0, players as nat);
    if k > 0 {
        vstd::arithmetic::div_mod::lemma_mod_bound(k - 1, players as int);
        let p = players as int;
        let q = (k - 1) / p;
        let r = (k - 1) % p;
        vstd::arithmetic::div_mod::lemma_fundamental_div_mod(k - 1, p);
        if r + 1 == p {
            assert(k == (q + 1) * p + 0) by (nonlinear_arith)
                requires
                    k - 1 == p * q + r,
                    r + 1 == p,
            ;
            vstd::arithmetic::div_mod::lemma_fundamental_div_mod_converse(k, p, q + 1, 0);
        } else {
            assert(k == q * p + (r + 1)) by (nonlinear_arith)
                requires
                    k - 1 == p * q + r,
            ;
            vstd::arithmetic::div_mod::lemma_fundamental_div_mod_converse(k, p, q, r + 1);
        }
    }
}

/// A batch makes at most the remaining iterations and at most its size, a task for
/// each seat in each; the solver's states go on where the last seeds stand.
pub proof fn lemma_plans(
    plan: BatchPlan,
    solver: MultiwayHoldemBatchSolver,
    remaining: u64,
    batch_size: usize,
)
    requires
        is_plan(plan, solver, remaining, batch_size),
        plan.tasks@.len() > 0,
    ensures
        plan.iterations <= remaining,
        plan.iterations <= batch_size,
        plan.iterations == remaining || plan.iterations == batch_size,
        plan.tasks@.len() == plan.iterations * solver.players(),
        plan.private_state == plan.tasks@.last().private_seed,
        plan.traversal_state == plan.tasks@.last().traversal_seed,
{
    assert(smaller(remaining, batch_size) * solver.players() >= 0) by (nonlinear_arith)
        requires
            smaller(remaining, batch_size) >= 0,
            solver.players() >= 0,
    ;
}

/// A solver can be set up exactly with a tree in order of three to eight seats, at
/// least one attempt, and a range for each seat that leaves a hand.
pub proof fn lemma_solvers_that_can_be_set_up(
    tree: GameTree,
    facts: Seq<NodeFacts>,
    candidates: Seq<Vec<Candidate>>,
    max_private_attempts: usize,
)
    ensures
        setup_error(tree, facts, candidates, max_private_attempts) is None <==> {
            let seats = tree.nodes@[tree.root as int].state.table_size;
            &&& tree_error(tree, facts) is None
            &&& 3 <= seats <= 8
            &&& max_private_attempts > 0
            &&& candidates.len() == seats
            &&& forall|p: int| 0 <= p < candidates.len() ==> (#[trigger] candidates[p])@.len() > 0
        },
        setup_error(tree, facts, candidates, max_private_attempts) == Some(BatchError::ZeroAttempts)
            ==> max_private_attempts == 0,
{
    crate::laws::ranges::lemma_first_without_candidates(candidates, 0);
}

/// A checkpoint belongs to a tree, ranges, dead cards, settings and a limit, and to no
/// others.
pub proof fn lemma_contexts(
    checkpoint: MultiwayHoldemBatchCheckpoint,
    tree: GameTree,
    candidates: Seq<Vec<Candidate>>,
    dead_cards: u64,
    config_fingerprint: u64,
    max_private_attempts: usize,
)
    requires
        same_context(
            checkpoint,
            tree,
            candidates,
            dead_cards,
            config_fingerprint,
            max_private_attempts,
        ),
    ensures
        checkpoint.player_count == tree.nodes@[tree.root as int].state.table_size,
        checkpoint.tree_fingerprint == fnv_words(FNV_OFFSET, tree_words(tree)),
        checkpoint.range_fingerprint == fnv_words(
            FNV_OFFSET,
            sampler_words(dead_cards, candidates),
        ),
        checkpoint.dead_cards == dead_cards,
        checkpoint.config_fingerprint == config_fingerprint,
        checkpoint.max_private_attempts == max_private_attempts,
{
}

/// What the checkpoint of a batch solver holds.
pub proof fn lemma_batch_checkpoint(
    solver: MultiwayHoldemBatchSolver,
    checkpoint: MultiwayHoldemBatchCheckpoint,
)
    requires
        solver.written(checkpoint),
    ensures
        checkpoint.format_version == MULTIWAY_BATCH_CHECKPOINT_FORMAT_VERSION,
        checkpoint.player_count == solver.public_arena.player_count,
        checkpoint.tree_fingerprint == solver.public_arena.tree_fingerprint,
        checkpoint.range_fingerprint == solver.private_sampler.range_fingerprint,
        checkpoint.dead_cards == solver.private_sampler.dead_cards,
        checkpoint.config_fingerprint == solver.config_fingerprint,
        checkpoint.max_private_attempts == solver.max_private_attempts,
        checkpoint.iterations == solver.iterations,
        checkpoint.traversal_rng_state == solver.traversal_rng.state,
        checkpoint.private_rng_state == solver.private_sampler.rng.state,
        checkpoint.private_sampling_attempts == solver.private_sampler.total_attempts,
        solver.profile_cache is None ==> checkpoint.profile_cache_capacity == 0,
        solver.profile_cache is Some ==> checkpoint.profile_cache_capacity
            == solver.profile_cache->Some_0.capacity,
        checkpoint.metrics.traverser_updates == solver.metrics.traverser_updates,
        checkpoint.metrics.sampled_private_deals == solver.metrics.sampled_private_deals,
        checkpoint.metrics.private_sampling_attempts == solver.metrics.private_sampling_attempts,
        checkpoint.metrics.sampled_chance_nodes == solver.metrics.sampled_chance_nodes,
        checkpoint.metrics.sampled_opponent_actions == solver.metrics.sampled_opponent_actions,
        checkpoint.metrics.infoset_visits == solver.metrics.infoset_visits,
        checkpoint.metrics.traverser_updates_by_player@
            == solver.metrics.traverser_updates_by_player@,
        checkpoint.metrics.infoset_visits_by_player@ == solver.metrics.infoset_visits_by_player@,
        solver.profile_cache is Some ==> {
            let cache = solver.profile_cache->Some_0;
            &&& checkpoint.metrics.compiled_profile_cache_hits == cache.metrics.hits
            &&& checkpoint.metrics.compiled_profile_cache_misses == cache.metrics.misses
            &&& checkpoint.metrics.compiled_profile_cache_evictions == cache.metrics.evictions
        },
        checkpoint.infosets@.len() == solver.infosets.entries@.len(),
        forall|i: int|
            0 <= i < checkpoint.infosets@.len() ==> {
                let entry = #[trigger] checkpoint.infosets@[i];
                let (key, data) = solver.infosets.entries@[i];
                &&& entry.player as u64 == key.major
                &&& entry.public_node as u64 == key.middle
                &&& (256 * entry.private_cards@[0] + entry.private_cards@[1]) as u64 == key.minor
                &&& entry.regret_sum@ == data.regret_sum@
                &&& entry.strategy_sum@ == data.strategy_sum@
                &&& entry.visits == data.visits
                &&& entry.action_count == entry.regret_sum@.len()
            },
{
    let left = crate::batch_store::batch_views(checkpoint.infosets@);
    let right = crate::checkpoint::entry_views(solver.infosets.entries@);
    assert(left.len() == checkpoint.infosets@.len());
    assert(right.len() == solver.infosets.entries@.len());
    let view = checkpoint.metrics@;
    assert(view.traverser_updates == solver.metrics@.traverser_updates);
    assert forall|i: int| 0 <= i < checkpoint.infosets@.len() implies {
        let entry = #[trigger] checkpoint.infosets@[i];
        let (key, data) = solver.infosets.entries@[i];
        &&& entry.player as u64 == key.major
        &&& entry.public_node as u64 == key.middle
        &&& (256 * entry.private_cards@[0] + entry.private_cards@[1]) as u64 == key.minor
        &&& entry.regret_sum@ == data.regret_sum@
        &&& entry.strategy_sum@ == data.strategy_sum@
        &&& entry.visits == data.visits
        &&& entry.action_count == entry.regret_sum@.len()
    } by {
        assert(left[i] == right[i]);
    }
}

/// An entry of a batch checkpoint that can be taken up.
pub open spec fn sound_entry(entry: MultiwayBatchInfoSetCheckpoint, players: usize) -> bool {
    &&& entry.player < players
    &&& entry.action_count > 0
    &&& entry.regret_sum@.len() == entry.action_count
    &&& entry.strategy_sum@.len() == entry.action_count
    &&& forall|a: int|
        0 <= a < entry.regret_sum@.len() ==> usable(#[trigger] entry.regret_sum@[a])
    &&& forall|a: int|
        0 <= a < entry.strategy_sum@.len() ==> usable(#[trigger] entry.strategy_sum@[a])
}

/// The same player acts at the same node with the same cards.
pub open spec fn same_infoset(
    left: MultiwayBatchInfoSetCheckpoint,
    right: MultiwayBatchInfoSetCheckpoint,
) -> bool {
    &&& left.player == right.player
    &&& left.public_node == right.public_node
    &&& left.private_cards@[0] == right.private_cards@[0]
    &&& left.private_cards@[1] == right.private_cards@[1]
}

pub open spec fn sound_entries(
    entries: Seq<MultiwayBatchInfoSetCheckpoint>,
    players: usize,
    from: int,
) -> bool {
    &&& forall|i: int| from <= i < entries.len() ==> sound_entry(#[trigger] entries[i], players)
    &&& forall|i: int, j: int|
        0 <= i < j < entries.len() && from <= j ==> !same_infoset(
            #[trigger] entries[i],
            #[trigger] entries[j],
        )
}

proof fn lemma_sound_entries(
    entries: Seq<MultiwayBatchInfoSetCheckpoint>,
    players: usize,
    from: int,
)
    requires
        0 <= from <= entries.len(),
    ensures
        batch_entries_error(entries, players, from) is None <==> sound_entries(
            entries,
            players,
            from,
        ),
    decreases entries.len() - from,
{
    if from < entries.len() {
        lemma_sound_entries(entries, players, from + 1);
        let entry = entries[from];
        assert forall|j: int| 0 <= j < from implies ((#[trigger] entries[j]).key() == entry.key()
            <==> same_infoset(entries[j], entry)) by {
            let left = entries[j].private_cards@;
            let right = entry.private_cards@;
            assert(256 * left[0] + left[1] == 256 * right[0] + right[1] <==> left[0] == right[0]
                && left[1] == right[1]);
        }
        if crate::batch_store::batch_repeats(entries, from) {
            let j = choose|j: int| 0 <= j < from && (#[trigger] entries[j]).key() == entry.key();
            assert(same_infoset(entries[j], entries[from]));
            assert(!sound_entries(entries, players, from));
        }
        if !sound_entry(entry, players) {
            assert(!sound_entries(entries, players, from));
            assert(batch_entry_error(entries, players, from) is Some);
        }
    }
}

/// A batch checkpoint is in order exactly in its version, for three to eight players,
/// with at least one attempt, counters of the table's size, generator states other
/// than zero and sound entries, none twice.
pub proof fn lemma_batch_checkpoints_in_order(checkpoint: MultiwayHoldemBatchCheckpoint)
    ensures
        batch_checkpoint_error(checkpoint) is None <==> {
            &&& checkpoint.format_version == MULTIWAY_BATCH_CHECKPOINT_FORMAT_VERSION
            &&& 3 <= checkpoint.player_count <= 8
            &&& checkpoint.max_private_attempts > 0
            &&& dimension_error(checkpoint.metrics@, checkpoint.player_count) is None
            &&& checkpoint.traversal_rng_state != 0
            &&& checkpoint.private_rng_state != 0
            &&& sound_entries(checkpoint.infosets@, checkpoint.player_count, 0)
        },
{
    lemma_sound_entries(checkpoint.infosets@, checkpoint.player_count, 0);
}

/// The entry named as without a hand is the first one.
pub proof fn lemma_entries_have_hands(entries: Seq<MultiwayBatchInfoSetCheckpoint>, from: int)
    requires
        0 <= from <= entries.len(),
    ensures
        match first_bad_hand(entries, from) {
            None => forall|i: int| from <= i < entries.len() ==> (#[trigger] entries[i]).hand().valid(),
            Some(at) => {
                &&& from <= at < entries.len()
                &&& !entries[at].hand().valid()
                &&& forall|i: int| from <= i < at ==> (#[trigger] entries[i]).hand().valid()
            },
        },
        forall|i: int|
            0 <= i < entries.len() ==> (#[trigger] entries[i]).hand() == (Combo {
                first: entries[i].private_cards@[0],
                second: entries[i].private_cards@[1],
            }),
    decreases entries.len() - from,
{
    if from < entries.len() && entries[from].hand().valid() {
        lemma_entries_have_hands(entries, from + 1);
    }
}

/// What a node of a compiled deal decides: its player, the public node that it is a
/// copy of, that player's own hand and its number of actions.
pub proof fn lemma_compiled_decisions(compiled: MultiwayCompiledHoldemGame, node: usize)
    ensures
        compiled_point(compiled, node) matches Ok(point) ==> {
            &&& node < compiled.game.nodes@.len()
            &&& compiled.game.nodes@[node as int] matches MultiwayGameNode::Decision {
                player,
                infoset,
                children,
            }
            &&& point.player == player
            &&& point.actions == children@.len() as usize
            &&& compiled.tree_node_ids@[node as int] == Some(point.public_node)
            &&& player < compiled.private_hands@[node as int]->Some_0@.len()
            &&& point.hand == compiled.private_hands@[node as int]->Some_0@[player as int]
        },
        compiled_point(compiled, node) == Err::<crate::batch::DecisionPoint, BatchError>(
            BatchError::NotADecision { node },
        ) <==> node < compiled.game.nodes@.len() && !(compiled.game.nodes@[node as int] is Decision),
{
}

/// Somebody acts at a public node exactly where the walk can enter it and it is
/// neither a leaf nor a chance node.
pub proof fn lemma_public_decisions(tree: GameTree, hands: Seq<Combo>, node: usize)
    ensures
        decision_error(tree, hands, node) is None <==> crate::arena::public_error(
            tree,
            hands,
            node,
        ) is None && tree.nodes@[node as int].leaf is None && tree.nodes@[node as int].chance is None,
{
}

/// Every child of the list is a node that an action leads to.
proof fn lemma_labelled(tree: GameTree, children: Seq<usize>, from: int)
    requires
        0 <= from <= children.len(),
    ensures
        !unlabelled(tree, children, from) <==> forall|k: int|
            from <= k < children.len() ==> (#[trigger] children[k]) < tree.nodes@.len()
                && tree.nodes@[children[k] as int].action_from_parent is Some,
    decreases children.len() - from,
{
    if from < children.len() {
        lemma_labelled(tree, children, from + 1);
        if children[from] >= tree.nodes@.len() || tree.nodes@[children[from] as int]
            .action_from_parent is None {
            assert(!(forall|k: int|
                from <= k < children.len() ==> (#[trigger] children[k]) < tree.nodes@.len()
                    && tree.nodes@[children[k] as int].action_from_parent is Some));
        }
    }
}

/// An information set is reported exactly where its node is in the tree, actions lead
/// to all its children, and it has a regret for each; the row then holds its player,
/// node, hand and visits, and for each action its own label and its own regret where
/// that is above zero.
pub proof fn lemma_reported_rows(
    tree: GameTree,
    entry: (Key, InfoSetData),
    row: MultiwayBatchInfoSetReport,
)
    requires
        entry.0.middle <= usize::MAX,
    ensures
        row_error(tree, entry) is None <==> {
            let node = entry.0.middle as int;
            &&& node < tree.nodes@.len()
            &&& forall|k: int|
                0 <= k < tree.nodes@[node].children@.len() ==> (
                #[trigger] tree.nodes@[node].children@[k]) < tree.nodes@.len()
                    && tree.nodes@[tree.nodes@[node].children@[k] as int].action_from_parent is Some
            &&& tree.nodes@[node].children@.len() == entry.1.regret_sum@.len()
        },
        row_ok(row, tree, entry) ==> {
            let children = tree.nodes@[entry.0.middle as int].children@;
            &&& row.player == entry.0.major
            &&& row.public_node == entry.0.middle
            &&& 256 * row.private_hand.first + row.private_hand.second == entry.0.minor
            &&& row.visits == entry.1.visits
            &&& row.actions@.len() == children.len()
            &&& forall|k: int|
                0 <= k < children.len() ==> #[trigger] row.actions@[k]
                    == tree.nodes@[children[k] as int].action_from_parent->Some_0
            &&& row.positive_regrets@.len() == entry.1.regret_sum@.len()
            &&& forall|k: int|
                0 <= k < entry.1.regret_sum@.len() ==> #[trigger] row.positive_regrets@[k]
                    == if above_zero(entry.1.regret_sum@[k]) {
                    entry.1.regret_sum@[k]
                } else {
                    0
                }
        },
{
    if entry.0.middle < tree.nodes@.len() {
        lemma_labelled(tree, tree.nodes@[entry.0.middle as int].children@, 0);
    }
}

/// The sum of a count over the players below `players`.
pub open spec fn over_players(count: spec_fn(int) -> int, players: int) -> int
    decreases players,
{
    if players <= 0 {
        0
    } else {
        over_players(count, players - 1) + count(players - 1)
    }
}

proof fn lemma_one_more_player(
    before: spec_fn(int) -> int,
    after: spec_fn(int) -> int,
    player: int,
    players: int,
)
    requires
        players >= 0,
        forall|p: int|
            0 <= p < players ==> #[trigger] after(p) == before(p) + if p == player {
                1int
            } else {
                0
            },
    ensures
        over_players(after, players) == over_players(before, players) + if 0 <= player < players {
            1int
        } else {
            0
        },
    decreases players,
{
    if players > 0 {
        lemma_one_more_player(before, after, player, players - 1);
        assert(after(players - 1) == before(players - 1) + if players - 1 == player {
            1int
        } else {
            0
        });
    }
}

/// Every information set belongs to one player: the counts of all players add up to
/// the number of information sets.
pub proof fn lemma_infosets_by_player(
    entries: Seq<(Key, InfoSetData)>,
    players: int,
    count: int,
)
    requires
        0 <= count <= entries.len() < u64::MAX,
        players >= 0,
        forall|i: int| 0 <= i < entries.len() ==> (#[trigger] entries[i]).0.major < players,
    ensures
        over_players(|p: int| infosets_of(entries, p, count) as int, players) == count,
        forall|p: int| 0 <= #[trigger] infosets_of(entries, p, count) <= count,
    decreases count,
{
    let after = |p: int| infosets_of(entries, p, count) as int;
    if count == 0 {
        lemma_nothing(after, players);
    } else {
        lemma_infosets_by_player(entries, players, count - 1);
        let before = |p: int| infosets_of(entries, p, count - 1) as int;
        let player = entries[count - 1].0.major as int;
        assert forall|p: int| 0 <= p < players implies #[trigger] after(p) == before(p) + if p
            == player {
            1int
        } else {
            0
        } by {}
        lemma_one_more_player(before, after, player, players);
        assert forall|p: int| 0 <= #[trigger] infosets_of(entries, p, count) <= count by {
            assert(infosets_of(entries, p, count - 1) <= count - 1);
        }
    }
}

proof fn lemma_nothing(count: spec_fn(int) -> int, players: int)
    requires
        forall|p: int| #[trigger] count(p) == 0,
    ensures
        over_players(count, players) == 0,
    decreases players,
{
    if players > 0 {
        lemma_nothing(count, players - 1);
    }
}

/// The visits of a player's information sets among the first `count`, added up.
pub open spec fn added_visits(entries: Seq<(Key, InfoSetData)>, player: int, count: int) -> int
    decreases count,
{
    if count <= 0 {
        0
    } else {
        added_visits(entries, player, count - 1) + if entries[count - 1].0.major == player {
            entries[count - 1].1.visits as int
        } else {
            0
        }
    }
}

/// The visits that are reported of a player are the sum of the visits of that player's
/// information sets, held at the largest number.
pub proof fn lemma_visits_by_player(entries: Seq<(Key, InfoSetData)>, player: int, count: int)
    requires
        0 <= count <= entries.len(),
    ensures
        added_visits(entries, player, count) >= 0,
        added_visits(entries, player, count) <= u64::MAX ==> visits_of(entries, player, count)
            == added_visits(entries, player, count),
        added_visits(entries, player, count) > u64::MAX ==> visits_of(entries, player, count)
            == u64::MAX,
    decreases count,
{
    if count > 0 {
        lemma_visits_by_player(entries, player, count - 1);
    }
}

/// A new solver has done nothing: no information set, no iteration, no attempt; its
/// walks start from the seed.
pub proof fn lemma_new_solvers(
    solver: MultiwayHoldemBatchSolver,
    tree: GameTree,
    candidates: Seq<Vec<Candidate>>,
    thresholds: Seq<Vec<u64>>,
    dead_cards: u64,
    seed: u64,
    config_fingerprint: u64,
    max_private_attempts: usize,
    capacity: usize,
)
    requires
        solver.fresh(
            tree,
            candidates,
            thresholds,
            dead_cards,
            seed,
            config_fingerprint,
            max_private_attempts,
            capacity,
        ),
    ensures
        solver.public_arena.tree == tree,
        solver.config_fingerprint == config_fingerprint,
        solver.max_private_attempts == max_private_attempts,
        solver.private_sampler.candidates@ == candidates,
        solver.private_sampler.thresholds@ == thresholds,
        solver.private_sampler.dead_cards == dead_cards,
        solver.private_sampler.total_attempts == 0,
        seed != 0 ==> solver.traversal_rng.state == seed,
        seed ^ SAMPLER_SEED_MIX != 0 ==> solver.private_sampler.rng.state == seed
            ^ SAMPLER_SEED_MIX,
        solver.profile_cache is None <==> capacity == 0,
        solver.profile_cache is Some ==> solver.profile_cache->Some_0.capacity == capacity
            && solver.profile_cache->Some_0.profiles@.len() == 0,
        solver.infosets.entries@.len() == 0,
        solver.iterations == 0,
        solver.metrics.traverser_updates == 0,
        solver.metrics.infoset_visits == 0,
        solver.metrics.sampled_private_deals == 0,
{
    assert(solver.metrics@.traverser_updates == 0);
    if solver.profile_cache is Some {
        let cache = solver.profile_cache->Some_0;
        assert(cache.profiles.len() == cache.profiles@.len());
    }
}

/// Beginning an update draws a deal of the sampler for every seat and counts it for the
/// traverser; what was learnt, the walks' generator and the iterations stay.
pub proof fn lemma_begun_updates(
    before: MultiwayHoldemBatchSolver,
    after: MultiwayHoldemBatchSolver,
    traverser: usize,
    result: Result<Vec<Combo>, BatchError>,
) -> (attempts: u64)
    requires
        before.updated(after, traverser, result),
    ensures
        after.infosets == before.infosets,
        after.traversal_rng == before.traversal_rng,
        after.iterations == before.iterations,
        after.public_arena == before.public_arena,
        after.private_sampler.candidates == before.private_sampler.candidates,
        after.private_sampler.dead_cards == before.private_sampler.dead_cards,
        result matches Ok(hands) ==> {
            &&& hands@.len() == before.public_arena.player_count
            &&& crate::sampler::attempts(
                before.private_sampler.candidates@,
                before.private_sampler.thresholds@,
                None,
                before.private_sampler.dead_cards,
                before.private_sampler.rng.state,
                1,
                before.max_private_attempts as int,
            ).0 == Some((hands@, attempts as int))
            &&& after.metrics@ == deal_counted(before.metrics@, traverser, attempts)
            &&& after.private_sampler.total_attempts == before.private_sampler.total_attempts
                + attempts
        },
        result is Err ==> {
            &&& after.metrics == before.metrics
            &&& after.private_sampler.total_attempts == before.private_sampler.total_attempts
                + before.max_private_attempts
        },
{
    if result is Ok {
        let hands = result->Ok_0@;
        choose|attempts: u64|
            crate::batch::sampled_hands(before, after, hands, attempts) && after.metrics@
                == #[trigger] deal_counted(before.metrics@, traverser, attempts)
    } else {
        0
    }
}

} // verus!
