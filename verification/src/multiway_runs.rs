//! Whole runs of the multiway solver, move by move.
//!
//! A turn of a traverser is a list of moves. Which moves they are is decided by
//! the arithmetic of the walk, a function of the state that the turn starts from;
//! what a move does to the state is said here, and is what the solver's own steps
//! do. So the counters of a run add up whatever the arithmetic decides.
use vstd::prelude::*;

use crate::checkpoint::{
    checkpoint_views, fresh_infoset, infoset_key, table_view, DecisionKey, InfoSetView, SolverError,
};
use crate::multiway::{
    multiway_decisions, MultiwayMccfrSolver, MultiwaySamplingMetrics, MultiwaySolverCheckpoint,
};
use crate::rng::{seeded_state, xorshift};
use crate::runs::{
    lemma_a_run_can_be_cut, lemma_multiway_runs_go_on_alike, run_of, same_multiway_checkpoint,
    MultiwayState,
};
use crate::solver::{opened, recordable, recorded, visited};
use crate::table::Key;
use crate::visits::{lemma_mapped_insert, lemma_table_visits, listed_visits, mapped_visits};

verus! {

/// What a walk does to the state of a solver.
pub enum Move {
    /// The information set of a decision is opened.
    Open { node: usize },
    /// A chance outcome is drawn.
    DrawChance,
    /// An action of another player is drawn.
    DrawAction,
    /// New sums are recorded for the information set of a decision.
    Record { node: usize, regrets: Seq<u64>, strategies: Seq<u64> },
}

/// The moves of a turn, as the arithmetic decides them from the state and the
/// traverser; none where it fails.
pub type Driver = spec_fn(MultiwayState, usize) -> Option<Seq<Move>>;

/// The data of an information set, fresh where it is not open yet.
pub open spec fn data_or_fresh(
    infosets: Map<Key, InfoSetView>,
    key: Key,
    actions: usize,
) -> InfoSetView {
    if infosets.dom().contains(key) {
        infosets[key]
    } else {
        fresh_infoset(actions)
    }
}

/// The state after a move; none where the move is refused or a counter is full.
pub open spec fn moved(
    nodes: Seq<Option<DecisionKey>>,
    state: MultiwayState,
    step: Move,
) -> Option<MultiwayState> {
    let metrics = state.metrics;
    match step {
        Move::Open { node } => if node < nodes.len() && nodes[node as int] is Some {
            let decision = nodes[node as int]->Some_0;
            let key = infoset_key(decision.player, decision.infoset);
            let data = data_or_fresh(state.infosets, key, decision.actions);
            if data.regret_sum.len() == decision.actions {
                Some(MultiwayState { infosets: state.infosets.insert(key, data), ..state })
            } else {
                None
            }
        } else {
            None
        },
        Move::DrawChance => if metrics.sampled_chance_nodes < u64::MAX {
            Some(
                MultiwayState {
                    rng_state: xorshift(state.rng_state),
                    metrics: MultiwaySamplingMetrics {
                        sampled_chance_nodes: (metrics.sampled_chance_nodes + 1) as u64,
                        ..metrics
                    },
                    ..state
                },
            )
        } else {
            None
        },
        Move::DrawAction => if metrics.sampled_opponent_actions < u64::MAX {
            Some(
                MultiwayState {
                    rng_state: xorshift(state.rng_state),
                    metrics: MultiwaySamplingMetrics {
                        sampled_opponent_actions: (metrics.sampled_opponent_actions + 1) as u64,
                        ..metrics
                    },
                    ..state
                },
            )
        } else {
            None
        },
        Move::Record { node, regrets, strategies } => if node < nodes.len()
            && nodes[node as int] is Some && metrics.infoset_visits < u64::MAX {
            let decision = nodes[node as int]->Some_0;
            let key = infoset_key(decision.player, decision.infoset);
            let data = data_or_fresh(state.infosets, key, decision.actions);
            if data.regret_sum.len() == decision.actions && data.visits < u64::MAX {
                Some(
                    MultiwayState {
                        infosets: state.infosets.insert(key, visited(data, regrets, strategies)),
                        metrics: MultiwaySamplingMetrics {
                            infoset_visits: (metrics.infoset_visits + 1) as u64,
                            ..metrics
                        },
                        ..state
                    },
                )
            } else {
                None
            }
        } else {
            None
        },
    }
}

/// The state after a list of moves.
pub open spec fn all_moved(
    nodes: Seq<Option<DecisionKey>>,
    state: MultiwayState,
    moves: Seq<Move>,
) -> Option<MultiwayState>
    decreases moves.len(),
{
    if moves.len() == 0 {
        Some(state)
    } else {
        match all_moved(nodes, state, moves.drop_last()) {
            Some(before) => moved(nodes, before, moves.last()),
            None => None,
        }
    }
}

/// The state after a turn was counted.
pub open spec fn turn_counted(state: MultiwayState) -> Option<MultiwayState> {
    if state.metrics.traverser_updates < u64::MAX {
        Some(
            MultiwayState {
                metrics: MultiwaySamplingMetrics {
                    traverser_updates: (state.metrics.traverser_updates + 1) as u64,
                    ..state.metrics
                },
                ..state
            },
        )
    } else {
        None
    }
}

/// The state after the turns of the traversers from `traverser` on.
pub open spec fn turns_taken(
    nodes: Seq<Option<DecisionKey>>,
    driver: Driver,
    state: MultiwayState,
    traverser: nat,
    players: usize,
) -> Option<MultiwayState>
    decreases players - traverser,
{
    if traverser >= players {
        Some(state)
    } else {
        match driver(state, traverser as usize) {
            Some(moves) => match all_moved(nodes, state, moves) {
                Some(walked) => match turn_counted(walked) {
                    Some(next) => turns_taken(nodes, driver, next, traverser + 1, players),
                    None => None,
                },
                None => None,
            },
            None => None,
        }
    }
}

/// The state after an iteration: a turn of each traverser, then the iteration
/// counts.
pub open spec fn iterated(
    nodes: Seq<Option<DecisionKey>>,
    driver: Driver,
    state: MultiwayState,
    players: usize,
) -> Option<MultiwayState> {
    match turns_taken(nodes, driver, state, 0, players) {
        Some(walked) => if walked.iterations < u64::MAX {
            Some(MultiwayState { iterations: (walked.iterations + 1) as u64, ..walked })
        } else {
            None
        },
        None => None,
    }
}

/// The iterations of a run.
pub open spec fn iteration_of(
    nodes: Seq<Option<DecisionKey>>,
    driver: Driver,
    players: usize,
) -> spec_fn(MultiwayState) -> Option<MultiwayState> {
    |state: MultiwayState| iterated(nodes, driver, state, players)
}

/// The state of a solver that has done nothing.
pub open spec fn first_state(seed: u64) -> MultiwayState {
    MultiwayState {
        infosets: Map::empty(),
        iterations: 0,
        rng_state: seeded_state(seed),
        metrics: MultiwaySamplingMetrics {
            traverser_updates: 0,
            sampled_chance_nodes: 0,
            sampled_opponent_actions: 0,
            infoset_visits: 0,
        },
    }
}

/// The counters of a state add up: an update of each player for each iteration,
/// and as many visits as the information sets have together.
pub open spec fn adds_up(state: MultiwayState, players: usize) -> bool {
    &&& state.infosets.dom().finite()
    &&& state.metrics.traverser_updates == state.iterations * players
    &&& state.metrics.infoset_visits == mapped_visits(state.infosets)
}

proof fn lemma_move_adds_up(nodes: Seq<Option<DecisionKey>>, state: MultiwayState, step: Move)
    requires
        state.infosets.dom().finite(),
        state.metrics.infoset_visits == mapped_visits(state.infosets),
    ensures
        moved(nodes, state, step) matches Some(next) ==> {
            &&& next.infosets.dom().finite()
            &&& next.metrics.infoset_visits == mapped_visits(next.infosets)
            &&& next.metrics.traverser_updates == state.metrics.traverser_updates
            &&& next.iterations == state.iterations
        },
{
    match step {
        Move::Open { node } => {
            if node < nodes.len() && nodes[node as int] is Some {
                let decision = nodes[node as int]->Some_0;
                let key = infoset_key(decision.player, decision.infoset);
                let data = data_or_fresh(state.infosets, key, decision.actions);
                lemma_mapped_insert(state.infosets, key, data);
            }
        },
        Move::Record { node, regrets, strategies } => {
            if node < nodes.len() && nodes[node as int] is Some {
                let decision = nodes[node as int]->Some_0;
                let key = infoset_key(decision.player, decision.infoset);
                let data = data_or_fresh(state.infosets, key, decision.actions);
                lemma_mapped_insert(state.infosets, key, visited(data, regrets, strategies));
            }
        },
        _ => {},
    }
}

proof fn lemma_moves_add_up(
    nodes: Seq<Option<DecisionKey>>,
    state: MultiwayState,
    moves: Seq<Move>,
)
    requires
        state.infosets.dom().finite(),
        state.metrics.infoset_visits == mapped_visits(state.infosets),
    ensures
        all_moved(nodes, state, moves) matches Some(next) ==> {
            &&& next.infosets.dom().finite()
            &&& next.metrics.infoset_visits == mapped_visits(next.infosets)
            &&& next.metrics.traverser_updates == state.metrics.traverser_updates
            &&& next.iterations == state.iterations
        },
    decreases moves.len(),
{
    if moves.len() > 0 {
        lemma_moves_add_up(nodes, state, moves.drop_last());
        if let Some(before) = all_moved(nodes, state, moves.drop_last()) {
            lemma_move_adds_up(nodes, before, moves.last());
        }
    }
}

proof fn lemma_turns_add_up(
    nodes: Seq<Option<DecisionKey>>,
    driver: Driver,
    state: MultiwayState,
    traverser: nat,
    players: usize,
)
    requires
        traverser <= players,
        state.infosets.dom().finite(),
        state.metrics.infoset_visits == mapped_visits(state.infosets),
    ensures
        turns_taken(nodes, driver, state, traverser, players) matches Some(next) ==> {
            &&& next.infosets.dom().finite()
            &&& next.metrics.infoset_visits == mapped_visits(next.infosets)
            &&& next.metrics.traverser_updates == state.metrics.traverser_updates + players
                - traverser
            &&& next.iterations == state.iterations
        },
    decreases players - traverser,
{
    if traverser < players {
        if let Some(moves) = driver(state, traverser as usize) {
            lemma_moves_add_up(nodes, state, moves);
            if let Some(walked) = all_moved(nodes, state, moves) {
                if let Some(next) = turn_counted(walked) {
                    lemma_turns_add_up(nodes, driver, next, traverser + 1, players);
                }
            }
        }
    }
}

/// However the arithmetic decides, a run that starts from counters that add up ends
/// with counters that add up, and has made all its iterations.
pub proof fn lemma_runs_add_up(
    nodes: Seq<Option<DecisionKey>>,
    driver: Driver,
    state: MultiwayState,
    count: nat,
    players: usize,
)
    requires
        adds_up(state, players),
    ensures
        run_of(state, count, iteration_of(nodes, driver, players)) matches Some(end) ==> {
            &&& adds_up(end, players)
            &&& end.iterations == state.iterations + count
        },
    decreases count,
{
    if count > 0 {
        let iteration = iteration_of(nodes, driver, players);
        lemma_turns_add_up(nodes, driver, state, 0, players);
        assert(iteration(state) == iterated(nodes, driver, state, players));
        if let Some(next) = iteration(state) {
            let walked = turns_taken(nodes, driver, state, 0, players)->Some_0;
            let before = state.iterations as int;
            assert((before + 1) * players == before * players + players) by (nonlinear_arith);
            lemma_runs_add_up(nodes, driver, next, (count - 1) as nat, players);
        }
    }
}

/// A run of `first` and `second` iterations in one go, and a run of `first`
/// iterations that is resumed from its checkpoint for `second` more, end with the
/// same checkpoint. In it every player has had an update for each iteration, and
/// the visits counted are the visits of the information sets together.
pub proof fn lemma_resumed_runs_end_alike_and_add_up(
    seed: u64,
    first: nat,
    second: nat,
    driver: Driver,
    whole: MultiwayMccfrSolver,
    whole_checkpoint: MultiwaySolverCheckpoint,
    stopped: MultiwayMccfrSolver,
    checkpoint: MultiwaySolverCheckpoint,
    resumed: MultiwayMccfrSolver,
    finished: MultiwayMccfrSolver,
    finished_checkpoint: MultiwaySolverCheckpoint,
)
    requires
        stopped.sound(),
        whole.sound(),
        finished.sound(),
        whole.game == stopped.game,
        whole.config_fingerprint == stopped.config_fingerprint,
        finished.game == resumed.game,
        finished.config_fingerprint == resumed.config_fingerprint,
        whole.written(whole_checkpoint),
        stopped.written(checkpoint),
        finished.written(finished_checkpoint),
        resumed.resumes(stopped.game, checkpoint, stopped.config_fingerprint),
        ({
            let players = stopped.game.player_count;
            let iteration = iteration_of(
                multiway_decisions(stopped.game.nodes@),
                driver,
                players,
            );
            &&& run_of(first_state(seed), first + second, iteration) == Some(whole.state())
            &&& run_of(first_state(seed), first, iteration) == Some(stopped.state())
            &&& run_of(resumed.state(), second, iteration) == Some(finished.state())
        }),
    ensures
        same_multiway_checkpoint(whole_checkpoint, finished_checkpoint),
        whole.iterations == first + second,
        whole.metrics.traverser_updates == whole.iterations * whole.game.player_count,
        whole_checkpoint.metrics.infoset_visits == listed_visits(
            checkpoint_views(whole_checkpoint.infosets@),
        ),
{
    let players = stopped.game.player_count;
    let nodes = multiway_decisions(stopped.game.nodes@);
    let iteration = iteration_of(nodes, driver, players);
    lemma_multiway_runs_go_on_alike(
        first_state(seed),
        first,
        second,
        iteration,
        stopped,
        checkpoint,
        resumed,
        whole,
        whole_checkpoint,
        finished,
        finished_checkpoint,
    );
    lemma_first_state_adds_up(seed, players);
    lemma_runs_add_up(nodes, driver, first_state(seed), first + second, players);
    lemma_table_visits(whole.infosets);
}

/// A run that can be resumed can be finished where the run in one go can.
pub proof fn lemma_resumed_runs_succeed_alike(
    seed: u64,
    first: nat,
    second: nat,
    driver: Driver,
    stopped: MultiwayMccfrSolver,
    resumed: MultiwayMccfrSolver,
)
    requires
        resumed.state() == stopped.state(),
        ({
            let iteration = iteration_of(
                multiway_decisions(stopped.game.nodes@),
                driver,
                stopped.game.player_count,
            );
            run_of(first_state(seed), first, iteration) == Some(stopped.state())
        }),
    ensures
        ({
            let iteration = iteration_of(
                multiway_decisions(stopped.game.nodes@),
                driver,
                stopped.game.player_count,
            );
            run_of(resumed.state(), second, iteration) == run_of(
                first_state(seed),
                first + second,
                iteration,
            )
        }),
{
    let iteration = iteration_of(
        multiway_decisions(stopped.game.nodes@),
        driver,
        stopped.game.player_count,
    );
    lemma_a_run_can_be_cut(first_state(seed), first, second, iteration);
}

proof fn lemma_first_state_adds_up(seed: u64, players: usize)
    ensures
        adds_up(first_state(seed), players),
{
    assert(Map::<Key, InfoSetView>::empty().dom().len() == 0);
    assert(0 * players == 0) by (nonlinear_arith);
}

/// Opening an information set is a move.
pub(crate) proof fn lemma_opening_is_a_move(
    before: MultiwayMccfrSolver,
    after: MultiwayMccfrSolver,
    node: usize,
    result: Result<usize, SolverError>,
)
    requires
        before.wf(),
        after.wf(),
        after.iterations == before.iterations,
        after.rng == before.rng,
        after.metrics == before.metrics,
        opened(
            multiway_decisions(before.game.nodes@),
            node,
            before.infosets,
            after.infosets,
            result,
        ),
        result is Ok,
    ensures
        moved(multiway_decisions(before.game.nodes@), before.state(), Move::Open { node }) == Some(
            after.state(),
        ),
{
    let decision = multiway_decisions(before.game.nodes@)[node as int]->Some_0;
    let key = infoset_key(decision.player, decision.infoset);
    let data = data_or_fresh(table_view(before.infosets), key, decision.actions);
    assert(table_view(after.infosets) =~= table_view(before.infosets).insert(key, data));
}

/// Recording new sums is a move.
pub(crate) proof fn lemma_recording_is_a_move(
    before: MultiwayMccfrSolver,
    after: MultiwayMccfrSolver,
    node: usize,
    regrets: Seq<u64>,
    strategies: Seq<u64>,
    result: Result<(), SolverError>,
)
    requires
        before.wf(),
        after.wf(),
        after.iterations == before.iterations,
        after.rng == before.rng,
        before.metrics.infoset_visits < u64::MAX,
        after.metrics == (MultiwaySamplingMetrics {
            infoset_visits: (before.metrics.infoset_visits + 1) as u64,
            ..before.metrics
        }),
        recorded(
            multiway_decisions(before.game.nodes@),
            node,
            before.infosets,
            after.infosets,
            regrets,
            strategies,
            result,
        ),
        recordable(
            multiway_decisions(before.game.nodes@),
            node,
            before.infosets,
            regrets.len(),
        ),
        result is Ok,
    ensures
        moved(
            multiway_decisions(before.game.nodes@),
            before.state(),
            Move::Record { node, regrets, strategies },
        ) == Some(after.state()),
{
    let decision = multiway_decisions(before.game.nodes@)[node as int]->Some_0;
    let key = infoset_key(decision.player, decision.infoset);
    let data = data_or_fresh(table_view(before.infosets), key, decision.actions);
    assert(table_view(after.infosets) =~= table_view(before.infosets).insert(
        key,
        visited(data, regrets, strategies),
    ));
}

} // verus!
