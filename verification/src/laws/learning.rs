//! What a solver learns at a decision, where a walk goes, and what a checkpoint
//! keeps of it.
use vstd::prelude::*;

use crate::bits::{above_zero, below_zero};
use crate::checkpoint::{
    checkpoint_error, decisions_of, entries_error, entry_error, fresh_infoset, infoset_key,
    resume_error, rng_error, usable, DecisionKey, InfoSetCheckpoint, InfoSetData, InfoSetView,
    SolverAlgorithm, SolverCheckpoint, SolverError, CHECKPOINT_FORMAT_VERSION,
};
use crate::game::{game_error, GameNode, StaticGame};
use crate::learning::learnt;
use crate::multiway::{
    multiway_checkpoint_error, multiway_decisions, multiway_resume_error, MultiwayGameNode,
    MultiwayMccfrSolver, MultiwaySolverCheckpoint, MultiwayStaticGame,
    MULTIWAY_CHECKPOINT_FORMAT_VERSION,
};
use crate::multiway_runs::{moved, turn_counted, Move};
use crate::multiway_walk::multiway_shape_of;
use crate::rng::xorshift;
use crate::runs::MultiwayState;
use crate::solver::{
    floored, opened, recorded, shape_of, CfrPlusSolver, MccfrSolver,
};
use crate::table::{Key, Table};
use crate::walk::{planned, sampled_plan, shape_targets, Shape};

verus! {

/// A regret is kept where it is above zero and is zero otherwise.
pub proof fn lemma_regrets_are_floored(bits: u64)
    ensures
        above_zero(bits) ==> floored(bits) == bits,
        !above_zero(bits) ==> floored(bits) == 0,
        !below_zero(floored(bits)),
{
}

/// Different information sets have different keys, whoever's they are.
pub proof fn lemma_keys_differ(player: usize, infoset: u64, other: usize, other_infoset: u64)
    ensures
        infoset_key(player, infoset) == infoset_key(other, other_infoset) <==> player == other
            && infoset == other_infoset,
        infoset_key(player, infoset).below(infoset_key(other, other_infoset)) <==> player < other
            || player == other && infoset < other_infoset,
{
}

/// A new information set has a regret and a weight of zero for each action and no
/// visit.
pub proof fn lemma_fresh_infosets(actions: usize)
    ensures
        fresh_infoset(actions).regret_sum.len() == actions,
        fresh_infoset(actions).strategy_sum.len() == actions,
        forall|a: int| 0 <= a < actions ==> #[trigger] fresh_infoset(actions).regret_sum[a] == 0,
        forall|a: int| 0 <= a < actions ==> #[trigger] fresh_infoset(actions).strategy_sum[a] == 0,
        fresh_infoset(actions).visits == 0,
{
}

/// The data of an information set, or a new one.
pub open spec fn data_at(table: Table<InfoSetData>, key: Key, actions: usize) -> InfoSetView {
    if table@.dom().contains(key) {
        table@[key]@
    } else {
        fresh_infoset(actions)
    }
}

/// Only the information set of `key` may differ.
pub open spec fn others_kept(before: Table<InfoSetData>, after: Table<InfoSetData>, key: Key) -> bool {
    forall|other: Key|
        other != key ==> (#[trigger] after@.dom().contains(other) <==> before@.dom().contains(
            other,
        )) && (before@.dom().contains(other) ==> after@[other] == before@[other])
}

/// Opening an information set keeps what is known and adds what is new, with nothing
/// learnt; no other information set changes.
pub proof fn lemma_opening(
    nodes: Seq<Option<DecisionKey>>,
    node: usize,
    before: Table<InfoSetData>,
    after: Table<InfoSetData>,
    result: Result<usize, SolverError>,
)
    requires
        opened(nodes, node, before, after, result),
    ensures
        result is Ok ==> node < nodes.len() && nodes[node as int] is Some && {
            let decision = nodes[node as int]->Some_0;
            let key = infoset_key(decision.player, decision.infoset);
            &&& after@.dom().contains(key)
            &&& after@[key]@ == data_at(before, key, decision.actions)
            &&& after@[key]@.regret_sum.len() == decision.actions
            &&& others_kept(before, after, key)
        },
        result is Err ==> after == before,
        node >= nodes.len() ==> result == Err::<usize, SolverError>(
            SolverError::UnknownNode { node },
        ),
        node < nodes.len() && nodes[node as int] is None ==> result == Err::<usize, SolverError>(
            SolverError::NotADecision { node },
        ),
{
}

/// Recording replaces the sums of one information set, no regret below zero, and
/// counts one visit; no other information set changes.
pub proof fn lemma_recording(
    nodes: Seq<Option<DecisionKey>>,
    node: usize,
    before: Table<InfoSetData>,
    after: Table<InfoSetData>,
    regrets: Seq<u64>,
    strategies: Seq<u64>,
    result: Result<(), SolverError>,
)
    requires
        recorded(nodes, node, before, after, regrets, strategies, result),
    ensures
        result is Ok ==> node < nodes.len() && nodes[node as int] is Some && {
            let decision = nodes[node as int]->Some_0;
            let key = infoset_key(decision.player, decision.infoset);
            let old = data_at(before, key, decision.actions);
            let new = after@[key]@;
            &&& after@.dom().contains(key)
            &&& old.visits < u64::MAX ==> new.visits == old.visits + 1
            &&& new.strategy_sum == strategies
            &&& new.regret_sum.len() == regrets.len()
            &&& forall|a: int|
                0 <= a < regrets.len() ==> #[trigger] new.regret_sum[a] == if above_zero(
                    regrets[a],
                ) {
                    regrets[a]
                } else {
                    0
                }
            &&& others_kept(before, after, key)
        },
        result is Err ==> after == before,
{
}

/// Learning adds each change to its own sum: the regret of an action to that
/// action's regret, its weight to that action's weight.
pub proof fn lemma_learning(
    nodes: Seq<Option<DecisionKey>>,
    node: usize,
    before: Table<InfoSetData>,
    after: Table<InfoSetData>,
    regret_deltas: Seq<u64>,
    strategy_deltas: Seq<u64>,
    sum_of: spec_fn(u64, u64) -> u64,
    result: Result<(), SolverError>,
)
    requires
        learnt(nodes, node, before, after, regret_deltas, strategy_deltas, sum_of, result),
    ensures
        result is Ok ==> {
            let decision = nodes[node as int]->Some_0;
            let key = infoset_key(decision.player, decision.infoset);
            let old = data_at(before, key, decision.actions);
            let new = after@[key]@;
            &&& new.regret_sum.len() == regret_deltas.len()
            &&& new.strategy_sum.len() == strategy_deltas.len()
            &&& forall|a: int|
                0 <= a < regret_deltas.len() ==> {
                    let sum = sum_of(old.regret_sum[a], regret_deltas[a]);
                    #[trigger] new.regret_sum[a] == if above_zero(sum) {
                        sum
                    } else {
                        0
                    }
                }
            &&& forall|a: int|
                0 <= a < strategy_deltas.len() ==> #[trigger] new.strategy_sum[a] == sum_of(
                    old.strategy_sum[a],
                    strategy_deltas[a],
                )
            &&& old.visits < u64::MAX ==> new.visits == old.visits + 1
            &&& others_kept(before, after, key)
        },
{
    lemma_recording(
        nodes,
        node,
        before,
        after,
        crate::sums::summed(
            crate::learning::decision_data(nodes, node, before).regret_sum,
            regret_deltas,
            sum_of,
        ),
        crate::sums::summed(
            crate::learning::decision_data(nodes, node, before).strategy_sum,
            strategy_deltas,
            sum_of,
        ),
        result,
    );
}

/// A walk goes to the targets of a node in their order: the children of a decision,
/// the nodes that the outcomes lead to, and nowhere from a leaf.
pub proof fn lemma_targets(node: GameNode, shape: Shape)
    requires
        shape_of(node, shape),
    ensures
        node is Terminal <==> shape is Leaf,
        node is Chance <==> shape is Chance,
        node matches GameNode::Decision { player, infoset, children } ==> shape matches Shape::Decision(
            actor,
            _,
        ) && actor == player && shape_targets(shape) == children@,
        node matches GameNode::Chance { outcomes } ==> shape_targets(shape).len() == outcomes@.len()
            && forall|k: int|
            0 <= k < outcomes@.len() ==> #[trigger] shape_targets(shape)[k] == outcomes@[k].1,
        node is Terminal ==> shape_targets(shape).len() == 0,
{
}

/// The same of a game of several players.
pub proof fn lemma_multiway_targets(node: MultiwayGameNode, shape: Shape)
    requires
        multiway_shape_of(node, shape),
    ensures
        node is Terminal <==> shape is Leaf,
        node is Chance <==> shape is Chance,
        node matches MultiwayGameNode::Decision { player, infoset, children }
            ==> shape matches Shape::Decision(actor, _) && actor == player && shape_targets(shape)
            == children@,
        node matches MultiwayGameNode::Chance { outcomes } ==> shape_targets(shape).len()
            == outcomes@.len() && forall|k: int|
            0 <= k < outcomes@.len() ==> #[trigger] shape_targets(shape)[k] == outcomes@[k].1,
        node is Terminal ==> shape_targets(shape).len() == 0,
{
}

/// A sampling walk goes on to all children of the traverser's own decisions, and to
/// one target everywhere else: the first whose threshold lies above the draw, or the
/// last.
pub proof fn lemma_sampled_targets(
    shape: Shape,
    traverser: usize,
    thresholds: Seq<u64>,
    draw: u64,
)
    requires
        thresholds.len() == shape_targets(shape).len(),
        !(shape is Leaf) ==> thresholds.len() > 0,
        thresholds.len() <= usize::MAX,
    ensures
        ({
            let targets = shape_targets(shape);
            let visited = planned(targets, sampled_plan(shape, traverser, thresholds, draw));
            &&& shape is Leaf ==> visited.len() == 0
            &&& (shape matches Shape::Decision(player, _) && player == traverser) ==> visited
                == targets
            &&& (shape is Chance || (shape matches Shape::Decision(player, _) && player
                != traverser)) ==> {
                &&& visited.len() == 1
                &&& forall|k: int|
                    #![trigger thresholds[k]]
                    0 <= k < thresholds.len() && draw < thresholds[k] && (forall|j: int|
                        0 <= j < k ==> draw >= #[trigger] thresholds[j]) ==> visited[0]
                        == targets[k]
                &&& (forall|j: int| 0 <= j < thresholds.len() ==> draw >= #[trigger] thresholds[j])
                    ==> visited[0] == targets.last()
            }
        }),
{
    if thresholds.len() > 0 {
        lemma_chosen(thresholds, draw, 0);
    }
}

proof fn lemma_chosen(thresholds: Seq<u64>, draw: u64, from: int)
    requires
        0 <= from <= thresholds.len(),
        thresholds.len() > 0,
        forall|j: int| 0 <= j < from ==> draw >= #[trigger] thresholds[j],
    ensures
        0 <= crate::rng::first_above(thresholds, draw, from) < thresholds.len(),
        forall|k: int|
            #![trigger thresholds[k]]
            0 <= k < thresholds.len() && draw < thresholds[k] && (forall|j: int|
                0 <= j < k ==> draw >= #[trigger] thresholds[j]) ==> crate::rng::first_above(
                thresholds,
                draw,
                from,
            ) == k,
        (forall|j: int| 0 <= j < thresholds.len() ==> draw >= #[trigger] thresholds[j])
            ==> crate::rng::first_above(thresholds, draw, from) == thresholds.len() - 1,
    decreases thresholds.len() - from,
{
    if from < thresholds.len() && draw >= thresholds[from] {
        lemma_chosen(thresholds, draw, from + 1);
    } else if from < thresholds.len() {
        assert forall|k: int|
            #![trigger thresholds[k]]
            0 <= k < thresholds.len() && draw < thresholds[k] && (forall|j: int|
                0 <= j < k ==> draw >= #[trigger] thresholds[j]) implies k == from by {
            if k > from {
                assert(draw >= thresholds[from]);
            }
        }
    }
}

/// What a decision of the game is: its player, its information set and as many
/// actions as children; other nodes decide nothing.
pub proof fn lemma_decisions(nodes: Seq<GameNode>, i: int)
    requires
        0 <= i < nodes.len(),
    ensures
        decisions_of(nodes).len() == nodes.len(),
        decisions_of(nodes)[i] is Some <==> nodes[i] is Decision,
        nodes[i] matches GameNode::Decision { player, infoset, children } ==> {
            let decision = decisions_of(nodes)[i]->Some_0;
            &&& decision.player == player
            &&& decision.infoset == infoset
            &&& decision.actions == children@.len() as usize
        },
{
}

/// The same of a game of several players.
pub proof fn lemma_multiway_decisions(nodes: Seq<MultiwayGameNode>, i: int)
    requires
        0 <= i < nodes.len(),
    ensures
        multiway_decisions(nodes).len() == nodes.len(),
        multiway_decisions(nodes)[i] is Some <==> nodes[i] is Decision,
        nodes[i] matches MultiwayGameNode::Decision { player, infoset, children } ==> {
            let decision = multiway_decisions(nodes)[i]->Some_0;
            &&& decision.player == player
            &&& decision.infoset == infoset
            &&& decision.actions == children@.len() as usize
        },
{
}

/// A checkpoint holds what is known of each information set, in the order of the
/// solver's table.
pub open spec fn keeps_infosets(
    entries: Seq<InfoSetCheckpoint>,
    table: Seq<(Key, InfoSetData)>,
) -> bool {
    &&& entries.len() == table.len()
    &&& forall|i: int|
        0 <= i < entries.len() ==> {
            &&& infoset_key((#[trigger] entries[i]).player, entries[i].infoset) == table[i].0
            &&& entries[i].regret_sum@ == table[i].1.regret_sum@
            &&& entries[i].strategy_sum@ == table[i].1.strategy_sum@
            &&& entries[i].visits == table[i].1.visits
        }
}

proof fn lemma_kept_infosets(entries: Seq<InfoSetCheckpoint>, table: Seq<(Key, InfoSetData)>)
    requires
        crate::checkpoint::checkpoint_views(entries) == crate::checkpoint::entry_views(table),
    ensures
        keeps_infosets(entries, table),
{
    let left = crate::checkpoint::checkpoint_views(entries);
    let right = crate::checkpoint::entry_views(table);
    assert(left.len() == entries.len() && right.len() == table.len());
    assert forall|i: int| 0 <= i < entries.len() implies {
        &&& infoset_key((#[trigger] entries[i]).player, entries[i].infoset) == table[i].0
        &&& entries[i].regret_sum@ == table[i].1.regret_sum@
        &&& entries[i].strategy_sum@ == table[i].1.strategy_sum@
        &&& entries[i].visits == table[i].1.visits
    } by {
        assert(left[i] == right[i]);
    }
}

/// What the checkpoint of a solver without chance of its own holds.
pub proof fn lemma_cfr_plus_checkpoint(solver: CfrPlusSolver, checkpoint: SolverCheckpoint)
    requires
        solver.written(checkpoint),
    ensures
        checkpoint.format_version == CHECKPOINT_FORMAT_VERSION,
        checkpoint.algorithm is CfrPlus,
        checkpoint.game_fingerprint == solver.game.spec_fingerprint(),
        checkpoint.config_fingerprint == solver.config_fingerprint,
        checkpoint.iterations == solver.iterations,
        checkpoint.rng_state is None,
        keeps_infosets(checkpoint.infosets@, solver.infosets.entries@),
{
    lemma_kept_infosets(checkpoint.infosets@, solver.infosets.entries@);
}

/// What the checkpoint of a sampling solver holds: its generator too.
pub proof fn lemma_mccfr_checkpoint(
    solver: MccfrSolver,
    checkpoint: SolverCheckpoint,
)
    requires
        solver.written(checkpoint),
    ensures
        checkpoint.format_version == CHECKPOINT_FORMAT_VERSION,
        checkpoint.algorithm is ExternalSamplingMccfr,
        checkpoint.game_fingerprint == solver.game.spec_fingerprint(),
        checkpoint.config_fingerprint == solver.config_fingerprint,
        checkpoint.iterations == solver.iterations,
        checkpoint.rng_state == Some(solver.rng.state),
        keeps_infosets(checkpoint.infosets@, solver.infosets.entries@),
{
    lemma_kept_infosets(checkpoint.infosets@, solver.infosets.entries@);
}

/// What the checkpoint of a solver for several players holds: its counters too.
pub proof fn lemma_multiway_checkpoint(
    solver: MultiwayMccfrSolver,
    checkpoint: MultiwaySolverCheckpoint,
)
    requires
        solver.written(checkpoint),
    ensures
        checkpoint.format_version == MULTIWAY_CHECKPOINT_FORMAT_VERSION,
        checkpoint.player_count == solver.game.player_count,
        checkpoint.game_fingerprint == solver.game.spec_fingerprint(),
        checkpoint.config_fingerprint == solver.config_fingerprint,
        checkpoint.iterations == solver.iterations,
        checkpoint.rng_state == Some(solver.rng.state),
        checkpoint.metrics == solver.metrics,
        keeps_infosets(checkpoint.infosets@, solver.infosets.entries@),
{
    lemma_kept_infosets(checkpoint.infosets@, solver.infosets.entries@);
}

/// An entry that can be taken up: a player of the game, as many weights as regrets,
/// at least one of each, all of them finite and not below zero.
pub open spec fn sound_entry(entry: InfoSetCheckpoint, players: usize) -> bool {
    &&& entry.player < players
    &&& entry.regret_sum@.len() > 0
    &&& entry.regret_sum@.len() == entry.strategy_sum@.len()
    &&& forall|a: int|
        0 <= a < entry.regret_sum@.len() ==> usable(#[trigger] entry.regret_sum@[a])
    &&& forall|a: int|
        0 <= a < entry.strategy_sum@.len() ==> usable(#[trigger] entry.strategy_sum@[a])
}

/// The entries from `from` on are sound, and none repeats an information set.
pub open spec fn sound_entries(entries: Seq<InfoSetCheckpoint>, players: usize, from: int) -> bool {
    &&& forall|i: int| from <= i < entries.len() ==> sound_entry(#[trigger] entries[i], players)
    &&& forall|i: int, j: int|
        0 <= i < j < entries.len() && from <= j ==> {
            ||| (#[trigger] entries[i]).player != (#[trigger] entries[j]).player
            ||| entries[i].infoset != entries[j].infoset
        }
}

proof fn lemma_sound_entries(entries: Seq<InfoSetCheckpoint>, players: usize, from: int)
    requires
        0 <= from <= entries.len(),
    ensures
        entries_error(entries, players, from) is None <==> sound_entries(entries, players, from),
    decreases entries.len() - from,
{
    if from < entries.len() {
        lemma_sound_entries(entries, players, from + 1);
        let entry = entries[from];
        if crate::checkpoint::repeats(entries, from) {
            let j = choose|j: int| 0 <= j < from && (#[trigger] entries[j]).key() == entry.key();
            assert(entries[j].player == entry.player && entries[j].infoset == entry.infoset);
            assert(!sound_entries(entries, players, from));
        } else {
            assert forall|j: int| 0 <= j < from implies (#[trigger] entries[j]).player
                != entry.player || entries[j].infoset != entry.infoset by {
                assert(entries[j].key() != entry.key());
            }
        }
        if !sound_entry(entry, players) {
            assert(!sound_entries(entries, players, from));
            assert(entry_error(entries, players, from) is Some);
        }
    }
}

/// A checkpoint is in order exactly in its version, with sound entries and with a
/// generator state where the algorithm draws: none for the one that does not, one
/// other than zero for the one that does.
pub proof fn lemma_checkpoints_in_order(checkpoint: SolverCheckpoint)
    ensures
        checkpoint_error(checkpoint) is None <==> {
            &&& checkpoint.format_version == CHECKPOINT_FORMAT_VERSION
            &&& sound_entries(checkpoint.infosets@, 2, 0)
            &&& checkpoint.algorithm is CfrPlus ==> checkpoint.rng_state is None
            &&& checkpoint.algorithm is ExternalSamplingMccfr ==> checkpoint.rng_state is Some
                && checkpoint.rng_state != Some(0u64)
        },
        rng_error(checkpoint.algorithm, checkpoint.rng_state) == Some(
            SolverError::UnexpectedRngState,
        ) <==> checkpoint.algorithm is CfrPlus && checkpoint.rng_state is Some,
        rng_error(checkpoint.algorithm, checkpoint.rng_state) == Some(SolverError::MissingRngState)
            <==> checkpoint.algorithm is ExternalSamplingMccfr && checkpoint.rng_state is None,
{
    lemma_sound_entries(checkpoint.infosets@, 2, 0);
}

/// A checkpoint of a game of several players is in order exactly in its version, for
/// at least three players, with a generator state and sound entries.
pub proof fn lemma_multiway_checkpoints_in_order(checkpoint: MultiwaySolverCheckpoint)
    ensures
        multiway_checkpoint_error(checkpoint) is None <==> {
            &&& checkpoint.format_version == MULTIWAY_CHECKPOINT_FORMAT_VERSION
            &&& checkpoint.player_count >= 3
            &&& checkpoint.rng_state is Some
            &&& checkpoint.rng_state != Some(0u64)
            &&& sound_entries(checkpoint.infosets@, checkpoint.player_count, 0)
        },
{
    lemma_sound_entries(checkpoint.infosets@, checkpoint.player_count, 0);
}

/// Only a checkpoint of the same algorithm, game and settings is resumed.
pub proof fn lemma_only_own_checkpoints_resume(
    checkpoint: SolverCheckpoint,
    algorithm: SolverAlgorithm,
    game: StaticGame,
    sums_ok: Seq<bool>,
    config_fingerprint: u64,
)
    ensures
        resume_error(checkpoint, algorithm, game, sums_ok, config_fingerprint) is None ==> {
            &&& game_error(game, sums_ok) is None
            &&& checkpoint_error(checkpoint) is None
            &&& checkpoint.algorithm == algorithm
            &&& checkpoint.game_fingerprint == game.spec_fingerprint()
            &&& checkpoint.config_fingerprint == config_fingerprint
        },
        resume_error(checkpoint, algorithm, game, sums_ok, config_fingerprint) == Some(
            SolverError::GameMismatch,
        ) ==> checkpoint.game_fingerprint != game.spec_fingerprint(),
        resume_error(checkpoint, algorithm, game, sums_ok, config_fingerprint) == Some(
            SolverError::ConfigMismatch,
        ) ==> checkpoint.config_fingerprint != config_fingerprint,
{
    if resume_error(checkpoint, algorithm, game, sums_ok, config_fingerprint) is Some
        && game_error(game, sums_ok) is None {
        lemma_entry_errors(checkpoint.infosets@, 2, 0);
        lemma_count_errors(decisions_of(game.nodes@), 0);
        lemma_fit_errors(decisions_of(game.nodes@), checkpoint.infosets@, 0);
    }
}

proof fn lemma_entry_errors(entries: Seq<InfoSetCheckpoint>, players: usize, from: int)
    ensures
        entries_error(entries, players, from) != Some(SolverError::GameMismatch),
        entries_error(entries, players, from) != Some(SolverError::ConfigMismatch),
    decreases entries.len() - from,
{
    if from < entries.len() {
        lemma_entry_errors(entries, players, from + 1);
    }
}

proof fn lemma_count_errors(nodes: Seq<Option<DecisionKey>>, from: int)
    ensures
        crate::checkpoint::count_error(nodes, from) != Some(SolverError::GameMismatch),
        crate::checkpoint::count_error(nodes, from) != Some(SolverError::ConfigMismatch),
    decreases nodes.len() - from,
{
    if from < nodes.len() {
        lemma_count_errors(nodes, from + 1);
    }
}

proof fn lemma_fit_errors(
    nodes: Seq<Option<DecisionKey>>,
    entries: Seq<InfoSetCheckpoint>,
    from: int,
)
    ensures
        crate::checkpoint::fit_error(nodes, entries, from) != Some(SolverError::GameMismatch),
        crate::checkpoint::fit_error(nodes, entries, from) != Some(SolverError::ConfigMismatch),
    decreases entries.len() - from,
{
    if from < entries.len() {
        lemma_fit_errors(nodes, entries, from + 1);
    }
}

/// The same of a game of several players.
pub proof fn lemma_only_own_multiway_checkpoints_resume(
    game: MultiwayStaticGame,
    checkpoint: MultiwaySolverCheckpoint,
    config_fingerprint: u64,
)
    ensures
        multiway_resume_error(game, checkpoint, config_fingerprint) is None ==> {
            &&& checkpoint.player_count == game.player_count
            &&& checkpoint.game_fingerprint == game.spec_fingerprint()
            &&& checkpoint.config_fingerprint == config_fingerprint
        },
{
}

/// What the moves of a walk change: opening draws and counts nothing; a draw moves
/// the generator once and counts one chance node or one action; recording counts one
/// visit and draws nothing.
pub proof fn lemma_moves(nodes: Seq<Option<DecisionKey>>, state: MultiwayState, step: Move)
    ensures
        moved(nodes, state, step) matches Some(next) ==> {
            let before = state.metrics;
            let after = next.metrics;
            &&& next.iterations == state.iterations
            &&& after.traverser_updates == before.traverser_updates
            &&& step is Open || step is Record ==> next.rng_state == state.rng_state
            &&& step is DrawChance || step is DrawAction ==> next.rng_state == xorshift(
                state.rng_state,
            ) && next.infosets == state.infosets
            &&& after.sampled_chance_nodes == before.sampled_chance_nodes + if step is DrawChance {
                1int
            } else {
                0
            }
            &&& after.sampled_opponent_actions == before.sampled_opponent_actions + if step
                is DrawAction {
                1int
            } else {
                0
            }
            &&& after.infoset_visits == before.infoset_visits + if step is Record {
                1int
            } else {
                0
            }
        },
        turn_counted(state) matches Some(next) ==> {
            &&& next.infosets == state.infosets
            &&& next.rng_state == state.rng_state
            &&& next.iterations == state.iterations
            &&& next.metrics.traverser_updates == state.metrics.traverser_updates + 1
            &&& next.metrics.infoset_visits == state.metrics.infoset_visits
            &&& next.metrics.sampled_chance_nodes == state.metrics.sampled_chance_nodes
            &&& next.metrics.sampled_opponent_actions == state.metrics.sampled_opponent_actions
        },
{
}

} // verus!
