//! What is handed out as it is.
use vstd::prelude::*;

use crate::arena::{MultiwayHoldemPublicArena, MultiwayHoldemPublicProfile};
use crate::batch::MultiwayHoldemBatchSolver;
use crate::card_abstraction::{CardAbstractionSpec, Granularity, StatsAccumulator};
use crate::cards::Combo;
use crate::game::{GameNode, StaticGame};
use crate::holdem::{CompiledHoldemGame, MultiwayCompiledHoldemGame};
use crate::multiway::{
    MultiwayGameNode, MultiwayMccfrSolver, MultiwaySamplingMetrics, MultiwayStaticGame,
};
use crate::payoff::{HoldemChipEvPayoff, MultiwayHoldemChipEvPayoff};
use crate::sampler::MultiwayPrivateDealSampler;
use crate::solver::{CfrPlusSolver, MccfrSolver};
use crate::tree::GameTree;

verus! {

/// A game has its own root, nodes and number of players.
pub proof fn lemma_parts_of_a_game(
    game: StaticGame,
    many: MultiwayStaticGame,
    root: usize,
    nodes: &[GameNode],
    many_root: usize,
    many_nodes: &[MultiwayGameNode],
    players: usize,
)
    requires
        call_ensures(StaticGame::root, (&game,), root),
        call_ensures(StaticGame::nodes, (&game,), nodes),
        call_ensures(MultiwayStaticGame::root, (&many,), many_root),
        call_ensures(MultiwayStaticGame::nodes, (&many,), many_nodes),
        call_ensures(MultiwayStaticGame::player_count, (&many,), players),
    ensures
        root == game.root,
        nodes@ == game.nodes@,
        many_root == many.root,
        many_nodes@ == many.nodes@,
        players == many.player_count,
{
}

/// A compiled game counts its own nodes.
pub proof fn lemma_counted_nodes(
    compiled: CompiledHoldemGame,
    many: MultiwayCompiledHoldemGame,
    count: usize,
    many_count: usize,
)
    requires
        call_ensures(CompiledHoldemGame::node_count, (&compiled,), count),
        call_ensures(MultiwayCompiledHoldemGame::node_count, (&many,), many_count),
    ensures
        count == compiled.game.nodes@.len(),
        many_count == many.game.nodes@.len(),
{
}

/// A payoff hands out its hands and seats in their order.
pub proof fn lemma_parts_of_a_payoff(
    pair: HoldemChipEvPayoff,
    many: MultiwayHoldemChipEvPayoff,
    hands: &[Combo],
    seats: [usize; 2],
    many_hands: &[Combo],
)
    requires
        call_ensures(HoldemChipEvPayoff::hands, (&pair,), hands),
        call_ensures(HoldemChipEvPayoff::solver_seats, (&pair,), seats),
        call_ensures(MultiwayHoldemChipEvPayoff::hands, (&many,), many_hands),
    ensures
        hands@ == pair.hands@,
        seats == pair.solver_seats,
        many_hands@ == many.hands@,
{
}

/// An arena and its profiles hand out the tree, its size, its hash and the hands.
pub proof fn lemma_parts_of_an_arena(
    arena: MultiwayHoldemPublicArena,
    profile: MultiwayHoldemPublicProfile,
    tree: &GameTree,
    players: usize,
    fingerprint: u64,
    hands: &[Combo],
)
    requires
        call_ensures(MultiwayHoldemPublicArena::tree, (&arena,), tree),
        call_ensures(MultiwayHoldemPublicArena::player_count, (&arena,), players),
        call_ensures(MultiwayHoldemPublicArena::tree_fingerprint, (&arena,), fingerprint),
        call_ensures(MultiwayHoldemPublicProfile::hands, (&profile,), hands),
    ensures
        *tree == arena.tree,
        players == arena.player_count,
        fingerprint == arena.tree_fingerprint,
        hands@ == profile.hands@,
{
}

/// Solvers tell how far they are and what they were set up with.
pub proof fn lemma_parts_of_a_solver(
    plain: CfrPlusSolver,
    sampling: MccfrSolver,
    many: MultiwayMccfrSolver,
    batch: MultiwayHoldemBatchSolver,
    iterations: (u64, u64, u64, u64),
    fingerprints: (u64, u64, u64),
    metrics: MultiwaySamplingMetrics,
    infosets: usize,
)
    requires
        call_ensures(CfrPlusSolver::iterations, (&plain,), iterations.0),
        call_ensures(MccfrSolver::iterations, (&sampling,), iterations.1),
        call_ensures(MultiwayMccfrSolver::iterations, (&many,), iterations.2),
        call_ensures(MultiwayHoldemBatchSolver::iterations, (&batch,), iterations.3),
        call_ensures(CfrPlusSolver::config_fingerprint, (&plain,), fingerprints.0),
        call_ensures(MccfrSolver::config_fingerprint, (&sampling,), fingerprints.1),
        call_ensures(MultiwayMccfrSolver::config_fingerprint, (&many,), fingerprints.2),
        call_ensures(MultiwayMccfrSolver::metrics, (&many,), metrics),
        call_ensures(MultiwayHoldemBatchSolver::infoset_count, (&batch,), infosets),
    ensures
        iterations == (plain.iterations, sampling.iterations, many.iterations, batch.iterations),
        fingerprints == (
            plain.config_fingerprint,
            sampling.config_fingerprint,
            many.config_fingerprint,
        ),
        metrics == many.metrics,
        infosets == batch.infosets.entries@.len(),
{
}

/// A sampler tells its attempts, its state, its dead cards and its hash.
pub proof fn lemma_parts_of_a_sampler(
    sampler: MultiwayPrivateDealSampler,
    attempts: u64,
    state: u64,
    dead_cards: u64,
    fingerprint: u64,
)
    requires
        call_ensures(MultiwayPrivateDealSampler::total_attempts, (&sampler,), attempts),
        call_ensures(MultiwayPrivateDealSampler::rng_state, (&sampler,), state),
        call_ensures(MultiwayPrivateDealSampler::dead_cards, (&sampler,), dead_cards),
        call_ensures(MultiwayPrivateDealSampler::range_fingerprint, (&sampler,), fingerprint),
    ensures
        attempts == sampler.total_attempts,
        state == sampler.rng.state,
        dead_cards == sampler.dead_cards,
        fingerprint == sampler.range_fingerprint,
{
}

/// The counts of all streets are the sums of the counts of each.
pub proof fn lemma_counts_of_all_streets(
    stats: StatsAccumulator,
    nodes: usize,
    before: u64,
    after: u64,
)
    requires
        call_ensures(StatsAccumulator::chance_nodes, (&stats,), nodes),
        call_ensures(StatsAccumulator::outcomes_before, (&stats,), before),
        call_ensures(StatsAccumulator::outcomes_after, (&stats,), after),
    ensures
        nodes == stats.flop.nodes + stats.turn.nodes + stats.river.nodes,
        before == stats.flop.outcomes_before + stats.turn.outcomes_before
            + stats.river.outcomes_before,
        after == stats.flop.outcomes_after + stats.turn.outcomes_after
            + stats.river.outcomes_after,
{
}

/// An abstraction by structure needs no groups by equity, one by equity takes those it
/// is given; both keep the granularity.
pub proof fn lemma_kinds_of_abstraction(
    granularity: Granularity,
    groups: usize,
    structural: CardAbstractionSpec,
    equity: CardAbstractionSpec,
)
    requires
        call_ensures(CardAbstractionSpec::structural, (granularity,), structural),
        call_ensures(CardAbstractionSpec::equity, (granularity, groups), equity),
    ensures
        structural.mode is Structure,
        structural.granularity == granularity,
        equity.mode is Equity,
        equity.granularity == granularity,
        equity.equity_groups == groups,
{
}

} // verus!
