//! The steps of a multiway iteration that are not arithmetic.
use vstd::prelude::*;

use crate::bits::all_finite;
use crate::checkpoint::{all_usable, DecisionKey, SolverError};
use crate::multiway::{
    multiway_decisions, multiway_node_error, multiway_nodes_error, MultiwayGameNode,
    MultiwayMccfrSolver, MultiwayNodeId, MultiwaySamplingMetrics, MultiwayStaticGame,
};
use crate::multiway_runs::{
    lemma_opening_is_a_move, lemma_recording_is_a_move, moved, turn_counted, Move,
};
use crate::rng::{draw_of, lemma_state_never_zero, xorshift};
use crate::solver::{
    decisions_ok, edge_targets, list_edge_targets, open_decision, opened, record_decision,
    recordable, recorded,
};
use crate::visits::{lemma_opening_counts_no_visit, lemma_recording_counts_one_visit};
use crate::walk::{
    plan_sampled, planned, sampled_plan, samples, shape_targets, Plan, Shape, Walk, WalkCounters,
    WalkEvent, WalkStep,
};

verus! {

/// What `shape` says of a node of a multiway game.
pub open spec fn multiway_shape_of(node: MultiwayGameNode, shape: Shape) -> bool {
    match node {
        MultiwayGameNode::Terminal { utility } => shape is Leaf,
        MultiwayGameNode::Chance { outcomes } => shape matches Shape::Chance(targets) && targets@
            == edge_targets(outcomes@),
        MultiwayGameNode::Decision { player, infoset, children } => shape matches Shape::Decision(
            actor,
            targets,
        ) && actor == player && targets@ == children@,
    }
}

pub fn multiway_shape(game: &MultiwayStaticGame, node: MultiwayNodeId) -> (result: Result<
    Shape,
    SolverError,
>)
    ensures
        match result {
            Ok(shape) => node < game.nodes@.len() && multiway_shape_of(
                game.nodes@[node as int],
                shape,
            ),
            Err(error) => node >= game.nodes@.len() && error == (SolverError::UnknownNode { node }),
        },
{
    match game.node(node) {
        None => Err(SolverError::UnknownNode { node }),
        Some(found) => Ok(
            match found {
                MultiwayGameNode::Terminal { utility } => Shape::Leaf,
                MultiwayGameNode::Chance { outcomes } => Shape::Chance(list_edge_targets(outcomes)),
                MultiwayGameNode::Decision { player, infoset, children } => {
                    let targets = children.clone();
                    assert(targets@ =~= children@);
                    Shape::Decision(*player, targets)
                },
            },
        ),
    }
}

/// A node that is sampled has one threshold for each target.
pub open spec fn multiway_thresholds_match(
    node: MultiwayGameNode,
    traverser: usize,
    thresholds: Seq<u64>,
) -> bool {
    match node {
        MultiwayGameNode::Terminal { utility } => true,
        MultiwayGameNode::Chance { outcomes } => outcomes@.len() > 0 && thresholds.len()
            == outcomes@.len(),
        MultiwayGameNode::Decision { player, infoset, children } => player != traverser
            ==> children@.len() > 0 && thresholds.len() == children@.len(),
    }
}

proof fn lemma_thresholds(
    node: MultiwayGameNode,
    shape: Shape,
    traverser: usize,
    thresholds: Seq<u64>,
)
    requires
        multiway_shape_of(node, shape),
        multiway_thresholds_match(node, traverser, thresholds),
    ensures
        samples(shape, traverser) ==> thresholds.len() > 0 && thresholds.len() == shape_targets(
            shape,
        ).len(),
{
}

pub(crate) fn multiway_decision_at(game: &MultiwayStaticGame, node: MultiwayNodeId) -> (result: Result<
    Option<DecisionKey>,
    SolverError,
>)
    ensures
        match result {
            Ok(decision) => node < game.nodes@.len() && decision == multiway_decisions(
                game.nodes@,
            )[node as int],
            Err(error) => node >= game.nodes@.len() && error == (SolverError::UnknownNode { node }),
        },
{
    match game.node(node) {
        None => Err(SolverError::UnknownNode { node }),
        Some(MultiwayGameNode::Decision { player, infoset, children }) => Ok(
            Some(DecisionKey { player: *player, infoset: *infoset, actions: children.len() }),
        ),
        Some(_) => Ok(None),
    }
}

proof fn lemma_nodes_in_order(
    nodes: Seq<MultiwayGameNode>,
    players: usize,
    sums_ok: Seq<bool>,
    from: int,
    index: int,
)
    requires
        multiway_nodes_error(nodes, players, sums_ok, from) is None,
        0 <= from <= index < nodes.len(),
    ensures
        multiway_node_error(
            nodes[index],
            players,
            nodes.len(),
            sums_ok[index],
            index as usize,
        ) is None,
    decreases index - from,
{
    if from < index {
        lemma_nodes_in_order(nodes, players, sums_ok, from + 1, index);
    }
}

/// A solver over a valid game is sound when its information sets fit the game,
/// as those of new and resumed solvers do.
pub proof fn lemma_solver_of_valid_game_is_sound(solver: MultiwayMccfrSolver, sums_ok: Seq<bool>)
    requires
        solver.wf(),
        solver.fits(),
        solver.game.valid(sums_ok),
    ensures
        solver.sound(),
{
    let game = solver.game;
    let nodes = multiway_decisions(game.nodes@);
    assert forall|i: int| 0 <= i < nodes.len() implies ((#[trigger] nodes[i]) matches Some(
        decision,
    ) ==> decision.player < game.player_count && decision.actions > 0) by {
        lemma_nodes_in_order(game.nodes@, game.player_count, sums_ok, 0, i);
        match game.nodes@[i] {
            MultiwayGameNode::Decision { player, infoset, children } => {
                assert(children.len() == children@.len());
            },
            _ => {},
        }
    }
}

impl MultiwayMccfrSolver {
    /// The information sets are those of the game, with usable sums.
    pub open spec fn sound(self) -> bool {
        &&& self.wf()
        &&& decisions_ok(multiway_decisions(self.game.nodes@), self.game.player_count)
        &&& self.fits()
    }

    /// Opens the information set of a decision node.
    pub fn open(&mut self, node: MultiwayNodeId) -> (result: Result<usize, SolverError>)
        requires
            old(self).wf(),
        ensures
            final(self).wf(),
            final(self).game == old(self).game,
            final(self).iterations == old(self).iterations,
            final(self).rng == old(self).rng,
            final(self).config_fingerprint == old(self).config_fingerprint,
            final(self).metrics == old(self).metrics,
            opened(
                multiway_decisions(old(self).game.nodes@),
                node,
                old(self).infosets,
                final(self).infosets,
                result,
            ),
            old(self).sound() ==> final(self).sound(),
            old(self).visits_counted() ==> final(self).visits_counted(),
            result is Ok ==> moved(
                multiway_decisions(old(self).game.nodes@),
                old(self).state(),
                Move::Open { node },
            ) == Some(final(self).state()),
    {
        let ghost start = *self;
        let ghost before = self.infosets;
        let decision = match multiway_decision_at(&self.game, node) {
            Ok(decision) => decision,
            Err(error) => {
                return Err(error);
            },
        };
        let result = open_decision(
            &mut self.infosets,
            node,
            decision,
            Ghost(multiway_decisions(self.game.nodes@)),
            Ghost(self.game.player_count),
        );
        proof {
            lemma_opening_counts_no_visit(
                multiway_decisions(self.game.nodes@),
                node,
                before,
                self.infosets,
                result,
            );
            if result is Ok {
                lemma_opening_is_a_move(start, *self, node, result);
            }
        }
        result
    }

    /// Records new sums for the information set of a decision node, and counts
    /// the visit.
    pub(crate) fn record(&mut self, node: MultiwayNodeId, regrets: &Vec<u64>, strategies: &Vec<u64>) -> (result:
        Result<(), SolverError>)
        requires
            old(self).wf(),
            regrets@.len() == strategies@.len(),
            recordable(
                multiway_decisions(old(self).game.nodes@),
                node,
                old(self).infosets,
                regrets@.len(),
            ),
            old(self).metrics.infoset_visits < u64::MAX,
        ensures
            final(self).wf(),
            final(self).game == old(self).game,
            final(self).iterations == old(self).iterations,
            final(self).rng == old(self).rng,
            final(self).config_fingerprint == old(self).config_fingerprint,
            final(self).metrics == (MultiwaySamplingMetrics {
                infoset_visits: (old(self).metrics.infoset_visits + if result is Ok {
                    1int
                } else {
                    0
                }) as u64,
                ..old(self).metrics
            }),
            recorded(
                multiway_decisions(old(self).game.nodes@),
                node,
                old(self).infosets,
                final(self).infosets,
                regrets@,
                strategies@,
                result,
            ),
            old(self).sound() && all_finite(regrets@) && all_usable(strategies@)
                ==> final(self).sound(),
            old(self).visits_counted() ==> final(self).visits_counted(),
            result is Ok ==> moved(
                multiway_decisions(old(self).game.nodes@),
                old(self).state(),
                Move::Record { node, regrets: regrets@, strategies: strategies@ },
            ) == Some(final(self).state()),
    {
        let ghost start = *self;
        let ghost before = self.infosets;
        let decision = match multiway_decision_at(&self.game, node) {
            Ok(decision) => decision,
            Err(error) => {
                return Err(error);
            },
        };
        let result = record_decision(
            &mut self.infosets,
            node,
            decision,
            regrets,
            strategies,
            Ghost(multiway_decisions(self.game.nodes@)),
            Ghost(self.game.player_count),
        );
        proof {
            lemma_recording_counts_one_visit(
                multiway_decisions(self.game.nodes@),
                node,
                before,
                self.infosets,
                regrets@,
                strategies@,
                result,
            );
        }
        match result {
            Ok(_) => {
                self.metrics.infoset_visits = self.metrics.infoset_visits + 1;
                proof {
                    lemma_recording_is_a_move(
                        start,
                        *self,
                        node,
                        regrets@,
                        strategies@,
                        result,
                    );
                }
            },
            Err(_) => {},
        }
        result
    }

    /// Enters the next node of an external-sampling walk: a chance node and a
    /// decision of another player are sampled by the thresholds, a decision of
    /// the traverser is tried in every way.
    pub fn visit(&mut self, walk: &mut Walk, traverser: usize, thresholds: &[u64]) -> (result:
        Result<Plan, SolverError>)
        requires
            old(self).wf(),
            old(self).metrics.sampled_chance_nodes < u64::MAX,
            old(self).metrics.sampled_opponent_actions < u64::MAX,
            old(walk).wf(),
            old(walk).step() is Enter,
            old(walk).step()->Enter_0 < old(self).game.nodes@.len() ==> multiway_thresholds_match(
                old(self).game.nodes@[old(walk).step()->Enter_0 as int],
                traverser,
                thresholds@,
            ),
        ensures
            final(self).wf(),
            final(self).game == old(self).game,
            final(self).infosets == old(self).infosets,
            final(self).iterations == old(self).iterations,
            final(self).config_fingerprint == old(self).config_fingerprint,
            old(self).visits_counted() ==> final(self).visits_counted(),
            result is Ok ==> {
                let nodes = multiway_decisions(old(self).game.nodes@);
                ||| final(self).state() == old(self).state()
                ||| moved(nodes, old(self).state(), Move::DrawChance) == Some(final(self).state())
                ||| moved(nodes, old(self).state(), Move::DrawAction) == Some(final(self).state())
            },
            final(walk).wf(),
            ({
                let node = old(walk).step()->Enter_0;
                match result {
                    Ok(plan) => {
                        &&& node < old(self).game.nodes@.len()
                        &&& exists|shape: Shape| #[trigger]
                            multiway_shape_of(old(self).game.nodes@[node as int], shape) && {
                                let drawn = samples(shape, traverser);
                                let next = xorshift(old(self).rng.state);
                                &&& plan == sampled_plan(
                                    shape,
                                    traverser,
                                    thresholds@,
                                    draw_of(next),
                                )
                                &&& final(self).rng.state == if drawn {
                                    next
                                } else {
                                    old(self).rng.state
                                }
                                &&& final(self).metrics == (MultiwaySamplingMetrics {
                                    sampled_chance_nodes: (
                                    old(self).metrics.sampled_chance_nodes + if drawn
                                        && shape is Chance {
                                        1int
                                    } else {
                                        0
                                    }) as u64,
                                    sampled_opponent_actions: (
                                    old(self).metrics.sampled_opponent_actions + if drawn
                                        && shape is Decision {
                                        1int
                                    } else {
                                        0
                                    }) as u64,
                                    ..old(self).metrics
                                })
                                &&& final(walk).events@ == old(walk).events@.push(
                                    WalkEvent::Enter(node, planned(shape_targets(shape), plan)),
                                )
                            }
                    },
                    Err(error) => {
                        &&& node >= old(self).game.nodes@.len()
                        &&& error == (SolverError::UnknownNode { node })
                        &&& *final(walk) == *old(walk)
                        &&& *final(self) == *old(self)
                    },
                }
            }),
    {
        let node: usize = match walk.next_step() {
            WalkStep::Enter(node) => node,
            _ => self.game.root,
        };
        match multiway_shape(&self.game, node) {
            Ok(shape) => {
                let mut counters = WalkCounters {
                    sampled_chance_nodes: self.metrics.sampled_chance_nodes,
                    sampled_opponent_actions: self.metrics.sampled_opponent_actions,
                };
                proof {
                    lemma_state_never_zero(self.rng.state);
                    lemma_thresholds(
                        self.game.nodes@[node as int],
                        shape,
                        traverser,
                        thresholds@,
                    );
                }
                let plan = plan_sampled(
                    &shape,
                    traverser,
                    thresholds,
                    &mut self.rng,
                    &mut counters,
                );
                self.metrics.sampled_chance_nodes = counters.sampled_chance_nodes;
                self.metrics.sampled_opponent_actions = counters.sampled_opponent_actions;
                walk.enter(&shape, plan);
                Ok(plan)
            },
            Err(error) => Err(error),
        }
    }

    /// Counts a finished walk of one traverser.
    pub fn finish_traverser(&mut self)
        requires
            old(self).metrics.traverser_updates < u64::MAX,
        ensures
            *final(self) == (MultiwayMccfrSolver {
                metrics: MultiwaySamplingMetrics {
                    traverser_updates: (old(self).metrics.traverser_updates + 1) as u64,
                    ..old(self).metrics
                },
                ..*old(self)
            }),
            old(self).visits_counted() ==> final(self).visits_counted(),
            turn_counted(old(self).state()) == Some(final(self).state()),
    {
        self.metrics.traverser_updates = self.metrics.traverser_updates + 1;
    }

    /// Counts a finished iteration.
    pub fn finish_iteration(&mut self)
        requires
            old(self).iterations < u64::MAX,
        ensures
            *final(self) == (MultiwayMccfrSolver {
                iterations: (old(self).iterations + 1) as u64,
                ..*old(self)
            }),
            old(self).visits_counted() ==> final(self).visits_counted(),
    {
        self.iterations = self.iterations + 1;
    }
}

} // verus!
