//! What is read off games, trees, solvers and samplers.
use vstd::prelude::*;

use crate::arena::{ArenaError, MultiwayHoldemPublicArena, MultiwayHoldemPublicProfile};
use crate::batch::MultiwayHoldemBatchSolver;
use crate::batch_metrics::{MultiwayBatchSamplingMetrics, MultiwayCompiledProfileCacheMetrics};
use crate::cards::Combo;
use crate::checkpoint::InfoSetData;
use crate::domain::{Action, GameState};
use crate::game::{GameNode, StaticGame};
use crate::holdem::{spec_deal_count, CompiledHoldemGame, MultiwayCompiledHoldemGame};
use crate::laws::chips::{contribution, folded_to, winnings};
use crate::multiway::{MultiwayGameNode, MultiwayStaticGame};
use crate::payoff::Settlement;
use crate::profile_cache::MultiwayCompiledProfileCache;
use crate::spot::{is_round_complete, MultiwayHoldemSpotConfig};
use crate::tree::{GameTree, TreeError, TreeNode};
use crate::tree_builder::{FullTreeBuildConfig, TreeBuildConfig, TreeBuilder};

verus! {

/// The actions at a node are those of the node, one by one; the public node and the
/// hands are those it was made for.
pub proof fn lemma_labels_of_a_game(
    compiled: CompiledHoldemGame,
    node: usize,
    index: usize,
    actions: Option<&[Action]>,
    action: Option<&Action>,
    public: Option<usize>,
    hands: Option<[Combo; 2]>,
)
    requires
        call_ensures(CompiledHoldemGame::actions_at, (&compiled, node), actions),
        call_ensures(CompiledHoldemGame::action, (&compiled, node, index), action),
        call_ensures(CompiledHoldemGame::tree_node_id, (&compiled, node), public),
        call_ensures(CompiledHoldemGame::private_hands_at, (&compiled, node), hands),
    ensures
        actions is Some <==> node < compiled.actions@.len(),
        actions is Some ==> actions->Some_0@ == compiled.actions@[node as int]@,
        action is Some <==> actions is Some && index < actions->Some_0@.len(),
        action is Some ==> *action->Some_0 == actions->Some_0@[index as int],
        node < compiled.tree_node_ids@.len() ==> public == compiled.tree_node_ids@[node as int],
        node >= compiled.tree_node_ids@.len() ==> public is None,
        node < compiled.private_hands@.len() ==> hands == compiled.private_hands@[node as int],
        node >= compiled.private_hands@.len() ==> hands is None,
{
}

/// The same of a game of several players.
pub proof fn lemma_labels_of_a_multiway_game(
    compiled: MultiwayCompiledHoldemGame,
    node: usize,
    index: usize,
    actions: Option<&[Action]>,
    action: Option<&Action>,
    public: Option<usize>,
    hands: Option<&[Combo]>,
)
    requires
        call_ensures(MultiwayCompiledHoldemGame::actions_at, (&compiled, node), actions),
        call_ensures(MultiwayCompiledHoldemGame::action, (&compiled, node, index), action),
        call_ensures(MultiwayCompiledHoldemGame::tree_node_id, (&compiled, node), public),
        call_ensures(MultiwayCompiledHoldemGame::private_hands_at, (&compiled, node), hands),
    ensures
        actions is Some <==> node < compiled.actions@.len(),
        actions is Some ==> actions->Some_0@ == compiled.actions@[node as int]@,
        action is Some <==> actions is Some && index < actions->Some_0@.len(),
        action is Some ==> *action->Some_0 == actions->Some_0@[index as int],
        node < compiled.tree_node_ids@.len() ==> public == compiled.tree_node_ids@[node as int],
        node >= compiled.tree_node_ids@.len() ==> public is None,
        hands is Some <==> node < compiled.private_hands@.len() && compiled.private_hands@[node
            as int] is Some,
        hands is Some ==> hands->Some_0@ == compiled.private_hands@[node as int]->Some_0@,
{
}

/// As many deals as outcomes at the root, none where the root deals nothing.
pub proof fn lemma_deals_at_the_root(compiled: CompiledHoldemGame, count: usize)
    requires
        call_ensures(CompiledHoldemGame::private_deal_count, (&compiled,), count),
        compiled.game.root < compiled.game.nodes@.len(),
    ensures
        compiled.game.nodes@[compiled.game.root as int] matches GameNode::Chance { outcomes }
            ==> count == outcomes@.len(),
        !(compiled.game.nodes@[compiled.game.root as int] is Chance) ==> count == 0,
        spec_deal_count(compiled.game) == count,
{
}

/// A node is found exactly where its number is one of the game's or the tree's.
pub proof fn lemma_found_nodes(
    game: StaticGame,
    many: MultiwayStaticGame,
    tree: GameTree,
    id: usize,
    node: Option<&GameNode>,
    multiway: Option<&MultiwayGameNode>,
    public: Option<&TreeNode>,
)
    requires
        call_ensures(StaticGame::node, (&game, id), node),
        call_ensures(MultiwayStaticGame::node, (&many, id), multiway),
        call_ensures(GameTree::node, (&tree, id), public),
    ensures
        node is Some <==> id < game.nodes@.len(),
        node is Some ==> *node->Some_0 == game.nodes@[id as int],
        multiway is Some <==> id < many.nodes@.len(),
        multiway is Some ==> *multiway->Some_0 == many.nodes@[id as int],
        public is Some <==> id < tree.nodes@.len(),
        public is Some ==> *public->Some_0 == tree.nodes@[id as int],
{
}

/// A profile has one hand for each seat and no card twice, or it is refused.
pub proof fn lemma_profiles(
    arena: MultiwayHoldemPublicArena,
    hands: Vec<Combo>,
    result: Result<MultiwayHoldemPublicProfile, ArenaError>,
)
    requires
        call_ensures(MultiwayHoldemPublicArena::profile, (&arena, hands), result),
        3 <= arena.player_count <= 8,
    ensures
        result matches Ok(profile) ==> profile.hands@ == hands@ && hands@.len()
            == arena.player_count,
        hands@.len() != arena.player_count ==> result == Err::<
            MultiwayHoldemPublicProfile,
            ArenaError,
        >(ArenaError::HandCount { hands: hands@.len() as usize, expected: arena.player_count }),
{
}

/// A leaf that everybody folded to pays the winner the pot, less what each seat put in.
pub proof fn lemma_settled_folds(
    profile: MultiwayHoldemPublicProfile,
    node: TreeNode,
    winner: usize,
    result: Result<Settlement, ArenaError>,
    seat: int,
)
    requires
        call_ensures(MultiwayHoldemPublicProfile::settlement, (&profile, &node), result),
        profile.wf(),
        folded_to(node, winner),
        node.state.table_size == profile.hands@.len(),
        node.state.players@.len() == profile.hands@.len(),
        winner < profile.hands@.len(),
        0 <= seat < profile.hands@.len(),
    ensures
        result matches Ok(Settlement::Fold(shares)) && {
            &&& shares@.len() == profile.hands@.len()
            &&& winnings(shares@[seat]) == (if seat == winner {
                node.state.pot as int
            } else {
                0
            }) - contribution(node.state, seat)
        },
{
    assert(seat as usize == seat);
}

/// What is known of a hand of a player at a node is what the table holds of it.
pub proof fn lemma_known_infosets(
    solver: MultiwayHoldemBatchSolver,
    player: usize,
    node: usize,
    hand: Combo,
    data: Option<&InfoSetData>,
    i: int,
)
    requires
        call_ensures(MultiwayHoldemBatchSolver::info, (&solver, player, node, hand), data),
        solver.wf(),
        0 <= i < solver.infosets.entries@.len(),
        solver.infosets.entries@[i].0.major == player,
        solver.infosets.entries@[i].0.middle == node,
        solver.infosets.entries@[i].0.minor == 256 * hand.first + hand.second,
    ensures
        data is Some,
        *data->Some_0 == solver.infosets.entries@[i].1,
{
    crate::table::lemma_entry(solver.infosets, i);
}

/// The metrics of a solver are its counters with those of its cache.
pub proof fn lemma_metrics_with_the_cache(
    solver: MultiwayHoldemBatchSolver,
    metrics: MultiwayBatchSamplingMetrics,
    cache: MultiwayCompiledProfileCacheMetrics,
)
    requires
        call_ensures(MultiwayHoldemBatchSolver::metrics, (&solver,), metrics),
        call_ensures(
            MultiwayHoldemBatchSolver::compiled_profile_cache_metrics,
            (&solver,),
            cache,
        ),
    ensures
        metrics.compiled_profile_cache_hits == cache.hits,
        metrics.compiled_profile_cache_misses == cache.misses,
        metrics.compiled_profile_cache_evictions == cache.evictions,
        metrics.traverser_updates == solver.metrics.traverser_updates,
        metrics.sampled_private_deals == solver.metrics.sampled_private_deals,
        metrics.private_sampling_attempts == solver.metrics.private_sampling_attempts,
        metrics.sampled_chance_nodes == solver.metrics.sampled_chance_nodes,
        metrics.sampled_opponent_actions == solver.metrics.sampled_opponent_actions,
        metrics.infoset_visits == solver.metrics.infoset_visits,
        metrics.infoset_visits_by_player@ == solver.metrics.infoset_visits_by_player@,
        metrics.traverser_updates_by_player@ == solver.metrics.traverser_updates_by_player@,
        solver.profile_cache is None ==> cache.hits == 0 && cache.misses == 0 && cache.evictions
            == 0 && cache.entries == 0,
        solver.profile_cache matches Some(found) ==> {
            &&& cache.hits == found.metrics.hits
            &&& cache.misses == found.metrics.misses
            &&& cache.evictions == found.metrics.evictions
            &&& cache.entries == found.profiles@.len() as usize
        },
{
    let view = metrics@;
    assert(view.traverser_updates == solver.metrics@.traverser_updates);
}

/// A leaf that only ends a round cannot be solved; every other node can.
pub proof fn lemma_leaves_that_cannot_be_solved(node: TreeNode)
    ensures
        is_round_complete(node) <==> node.leaf is Some && node.leaf->Some_0 is RoundComplete,
{
}

/// A spot without a fingerprint of its own takes the tree's.
pub proof fn lemma_fingerprints_of_a_spot(
    config: MultiwayHoldemSpotConfig,
    tree_fingerprint: u64,
    fingerprint: u64,
)
    requires
        call_ensures(
            MultiwayHoldemSpotConfig::solver_fingerprint,
            (&config, tree_fingerprint),
            fingerprint,
        ),
    ensures
        config.config_fingerprint != 0 ==> fingerprint == config.config_fingerprint,
        config.config_fingerprint == 0 ==> fingerprint == tree_fingerprint,
{
}

/// The tree of a round starts with the given state alone, and only with limits above
/// zero and a state in order.
pub proof fn lemma_round_trees_start(
    initial: GameState,
    initial_ok: bool,
    config: TreeBuildConfig,
    result: Result<TreeBuilder, TreeError>,
)
    requires
        call_ensures(TreeBuilder::build_round, (initial, initial_ok, &config), result),
    ensures
        result is Ok <==> config.max_nodes > 0 && config.max_depth > 0 && initial_ok,
        result matches Ok(builder) ==> {
            &&& !builder.full
            &&& builder.max_nodes == config.max_nodes
            &&& builder.max_depth == config.max_depth
            &&& builder.tree.nodes@.len() == 1
            &&& builder.tree.nodes@[0].state == initial
        },
        result == Err::<TreeBuilder, TreeError>(TreeError::ZeroMaxNodes) <==> config.max_nodes == 0,
{
}

/// The tree over all streets also needs an order after the flop.
pub proof fn lemma_full_trees_start(
    initial: GameState,
    initial_ok: bool,
    config: FullTreeBuildConfig,
    result: Result<TreeBuilder, TreeError>,
)
    requires
        call_ensures(TreeBuilder::build_full, (initial, initial_ok, &config), result),
    ensures
        result is Ok <==> config.round.max_nodes > 0 && config.round.max_depth > 0 && initial_ok
            && config.postflop_order@.len() > 0,
        result matches Ok(builder) ==> {
            &&& builder.full
            &&& builder.max_nodes == config.round.max_nodes
            &&& builder.max_depth == config.round.max_depth
            &&& builder.tree.nodes@.len() == 1
            &&& builder.tree.nodes@[0].state == initial
        },
        result == Err::<TreeBuilder, TreeError>(TreeError::ZeroMaxNodes) <==> config.round.max_nodes
            == 0,
{
}

/// A cache needs room for a game, and starts empty.
pub proof fn lemma_new_caches(capacity: usize, cache: Option<MultiwayCompiledProfileCache>)
    requires
        call_ensures(MultiwayCompiledProfileCache::new, (capacity,), cache),
    ensures
        cache is None <==> capacity == 0,
        cache matches Some(made) ==> {
            &&& made.capacity == capacity
            &&& made.profiles@.len() == 0
            &&& made.metrics.hits == 0
            &&& made.metrics.misses == 0
            &&& made.metrics.evictions == 0
        },
{
}

} // verus!
