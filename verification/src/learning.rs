//! What a visit of a decision adds to its information set.
//!
//! The driver computes by how much the sums change; adding is floating point, done
//! by a function that the driver gives. Which sums the changes are added to, that
//! regrets do not fall below zero and that the visit counts, is decided here.
use vstd::prelude::*;

use crate::batch::{visit_counted, BatchError, DecisionPoint, MultiwayHoldemBatchSolver};
use crate::batch_store::{known_data, make_batch_key};
use crate::bits::all_finite;
use crate::checkpoint::{
    all_usable, copy_words, decisions_of, fresh_infoset, infoset_key, zeros, DecisionKey,
    InfoSetData, InfoSetView, SolverError,
};
use crate::game::NodeId;
use crate::multiway::{
    multiway_decisions, MultiwayMccfrSolver, MultiwayNodeId, MultiwaySamplingMetrics,
};
use crate::multiway_runs::{moved, Move};
use crate::multiway_walk::multiway_decision_at;
use crate::solver::{decision_at, recordable, recorded, visited, CfrPlusSolver, MccfrSolver};
use crate::sums::{add_all, describes, summed};
use crate::table::{Key, Table};

verus! {

/// The data of the information set of the decision at `node`, fresh where it is not
/// open yet.
pub open spec fn decision_data(
    nodes: Seq<Option<DecisionKey>>,
    node: usize,
    infosets: Table<InfoSetData>,
) -> InfoSetView {
    let decision = nodes[node as int]->Some_0;
    let key = infoset_key(decision.player, decision.infoset);
    if infosets@.dom().contains(key) {
        infosets@[key]@
    } else {
        fresh_infoset(decision.actions)
    }
}

/// The information set of the decision at `node` has as many strategy weights as
/// regrets.
pub open spec fn even(
    nodes: Seq<Option<DecisionKey>>,
    node: usize,
    infosets: Table<InfoSetData>,
) -> bool {
    node < nodes.len() && nodes[node as int] is Some ==> {
        let data = decision_data(nodes, node, infosets);
        data.strategy_sum.len() == data.regret_sum.len()
    }
}

/// What learning at `node` does: the changes are added to the sums of its
/// information set, as `sum_of` adds, and the result is recorded.
pub open spec fn learnt(
    nodes: Seq<Option<DecisionKey>>,
    node: usize,
    before: Table<InfoSetData>,
    after: Table<InfoSetData>,
    regret_deltas: Seq<u64>,
    strategy_deltas: Seq<u64>,
    sum_of: spec_fn(u64, u64) -> u64,
    result: Result<(), SolverError>,
) -> bool {
    let data = decision_data(nodes, node, before);
    recorded(
        nodes,
        node,
        before,
        after,
        summed(data.regret_sum, regret_deltas, sum_of),
        summed(data.strategy_sum, strategy_deltas, sum_of),
        result,
    )
}

/// The sums stay finite, and no strategy weight falls below zero.
pub open spec fn stays_usable(
    data: InfoSetView,
    regret_deltas: Seq<u64>,
    strategy_deltas: Seq<u64>,
    sum_of: spec_fn(u64, u64) -> u64,
) -> bool {
    &&& all_finite(summed(data.regret_sum, regret_deltas, sum_of))
    &&& all_usable(summed(data.strategy_sum, strategy_deltas, sum_of))
}

/// The move that records new sums.
pub open spec fn recording(node: usize, regrets: Seq<u64>, strategies: Seq<u64>) -> Move {
    Move::Record { node, regrets, strategies }
}

/// The changes added to the sums under a key, or to zeros; the changes themselves
/// where their number is another.
fn sums_under<F: Fn(u64, u64) -> u64>(
    infosets: &Table<InfoSetData>,
    key: Key,
    regret_deltas: &Vec<u64>,
    strategy_deltas: &Vec<u64>,
    plus: &F,
) -> (sums: (Vec<u64>, Vec<u64>))
    requires
        infosets.wf(),
        regret_deltas@.len() == strategy_deltas@.len(),
        infosets@.dom().contains(key) ==> infosets@[key].strategy_sum@.len()
            == infosets@[key].regret_sum@.len(),
        forall|a: u64, b: u64| call_requires(*plus, (a, b)),
    ensures
        sums.0@.len() == regret_deltas@.len(),
        sums.1@.len() == regret_deltas@.len(),
        ({
            let data = known_data(*infosets, key, regret_deltas@.len() as usize);
            data.regret_sum.len() == regret_deltas@.len() ==> forall|
                sum_of: spec_fn(u64, u64) -> u64,
            | #[trigger]
                describes(*plus, sum_of) ==> {
                    &&& sums.0@ == summed(data.regret_sum, regret_deltas@, sum_of)
                    &&& sums.1@ == summed(data.strategy_sum, strategy_deltas@, sum_of)
                }
        }),
{
    let ghost data = known_data(*infosets, key, regret_deltas@.len() as usize);
    match infosets.get(key) {
        Some(known) => {
            assert(data.regret_sum == known.regret_sum@ && data.strategy_sum
                == known.strategy_sum@);
            if known.regret_sum.len() != regret_deltas.len() {
                return (copy_words(regret_deltas), copy_words(strategy_deltas));
            }
            (
                add_all(&known.regret_sum, regret_deltas, plus),
                add_all(&known.strategy_sum, strategy_deltas, plus),
            )
        },
        None => {
            let fresh = zeros(regret_deltas.len());
            assert(fresh@ =~= data.regret_sum && fresh@ =~= data.strategy_sum);
            (add_all(&fresh, regret_deltas, plus), add_all(&fresh, strategy_deltas, plus))
        },
    }
}

/// The same for the decision at `node`.
fn sums_at<F: Fn(u64, u64) -> u64>(
    infosets: &Table<InfoSetData>,
    node: usize,
    decision: Option<DecisionKey>,
    regret_deltas: &Vec<u64>,
    strategy_deltas: &Vec<u64>,
    plus: &F,
    Ghost(nodes): Ghost<Seq<Option<DecisionKey>>>,
) -> (sums: (Vec<u64>, Vec<u64>))
    requires
        infosets.wf(),
        node < nodes.len(),
        nodes[node as int] == decision,
        regret_deltas@.len() == strategy_deltas@.len(),
        recordable(nodes, node, *infosets, regret_deltas@.len()),
        even(nodes, node, *infosets),
        forall|a: u64, b: u64| call_requires(*plus, (a, b)),
    ensures
        sums.0@.len() == regret_deltas@.len(),
        sums.1@.len() == regret_deltas@.len(),
        ({
            let data = decision_data(nodes, node, *infosets);
            decision is Some && data.regret_sum.len() == regret_deltas@.len() ==> forall|
                sum_of: spec_fn(u64, u64) -> u64,
            | #[trigger]
                describes(*plus, sum_of) ==> {
                    &&& sums.0@ == summed(data.regret_sum, regret_deltas@, sum_of)
                    &&& sums.1@ == summed(data.strategy_sum, strategy_deltas@, sum_of)
                }
        }),
{
    match decision {
        Some(found) => {
            let key = Key { major: found.player as u64, middle: found.infoset, minor: 0 };
            assert(key == infoset_key(found.player, found.infoset));
            assert(infosets@.dom().contains(key) ==> infosets@[key]@.regret_sum
                == infosets@[key].regret_sum@ && infosets@[key]@.strategy_sum
                == infosets@[key].strategy_sum@);
            sums_under(infosets, key, regret_deltas, strategy_deltas, plus)
        },
        None => (copy_words(regret_deltas), copy_words(strategy_deltas)),
    }
}

impl CfrPlusSolver {
    /// Adds changes to the sums of the information set of a decision, and counts the
    /// visit.
    pub fn learn<F: Fn(u64, u64) -> u64>(
        &mut self,
        node: NodeId,
        regret_deltas: &Vec<u64>,
        strategy_deltas: &Vec<u64>,
        plus: &F,
    ) -> (result: Result<(), SolverError>)
        requires
            old(self).wf(),
            regret_deltas@.len() == strategy_deltas@.len(),
            recordable(
                decisions_of(old(self).game.nodes@),
                node,
                old(self).infosets,
                regret_deltas@.len(),
            ),
            even(decisions_of(old(self).game.nodes@), node, old(self).infosets),
            forall|a: u64, b: u64| call_requires(*plus, (a, b)),
        ensures
            final(self).wf(),
            final(self).kept(*old(self)),
            result is Err ==> final(self).infosets == old(self).infosets,
            forall|sum_of: spec_fn(u64, u64) -> u64| #[trigger]
                describes(*plus, sum_of) ==> learnt(
                    decisions_of(old(self).game.nodes@),
                    node,
                    old(self).infosets,
                    final(self).infosets,
                    regret_deltas@,
                    strategy_deltas@,
                    sum_of,
                    result,
                ),
            forall|sum_of: spec_fn(u64, u64) -> u64| #[trigger]
                describes(*plus, sum_of) && result is Ok && old(self).sound() && stays_usable(
                    decision_data(decisions_of(old(self).game.nodes@), node, old(self).infosets),
                    regret_deltas@,
                    strategy_deltas@,
                    sum_of,
                ) ==> final(self).sound(),
    {
        let (regrets, strategies) = match decision_at(&self.game, node) {
            Ok(decision) => sums_at(
                &self.infosets,
                node,
                decision,
                regret_deltas,
                strategy_deltas,
                plus,
                Ghost(decisions_of(self.game.nodes@)),
            ),
            Err(_) => (copy_words(regret_deltas), copy_words(strategy_deltas)),
        };
        self.record(node, &regrets, &strategies)
    }
}

impl MccfrSolver {
    /// Adds changes to the sums of the information set of a decision, and counts the
    /// visit.
    pub fn learn<F: Fn(u64, u64) -> u64>(
        &mut self,
        node: NodeId,
        regret_deltas: &Vec<u64>,
        strategy_deltas: &Vec<u64>,
        plus: &F,
    ) -> (result: Result<(), SolverError>)
        requires
            old(self).wf(),
            regret_deltas@.len() == strategy_deltas@.len(),
            recordable(
                decisions_of(old(self).game.nodes@),
                node,
                old(self).infosets,
                regret_deltas@.len(),
            ),
            even(decisions_of(old(self).game.nodes@), node, old(self).infosets),
            forall|a: u64, b: u64| call_requires(*plus, (a, b)),
        ensures
            final(self).wf(),
            final(self).kept(*old(self)),
            result is Err ==> final(self).infosets == old(self).infosets,
            forall|sum_of: spec_fn(u64, u64) -> u64| #[trigger]
                describes(*plus, sum_of) ==> learnt(
                    decisions_of(old(self).game.nodes@),
                    node,
                    old(self).infosets,
                    final(self).infosets,
                    regret_deltas@,
                    strategy_deltas@,
                    sum_of,
                    result,
                ),
            forall|sum_of: spec_fn(u64, u64) -> u64| #[trigger]
                describes(*plus, sum_of) && result is Ok && old(self).sound() && stays_usable(
                    decision_data(decisions_of(old(self).game.nodes@), node, old(self).infosets),
                    regret_deltas@,
                    strategy_deltas@,
                    sum_of,
                ) ==> final(self).sound(),
    {
        let (regrets, strategies) = match decision_at(&self.game, node) {
            Ok(decision) => sums_at(
                &self.infosets,
                node,
                decision,
                regret_deltas,
                strategy_deltas,
                plus,
                Ghost(decisions_of(self.game.nodes@)),
            ),
            Err(_) => (copy_words(regret_deltas), copy_words(strategy_deltas)),
        };
        self.record(node, &regrets, &strategies)
    }
}

impl MultiwayMccfrSolver {
    /// Adds changes to the sums of the information set of a decision, and counts the
    /// visit.
    pub fn learn<F: Fn(u64, u64) -> u64>(
        &mut self,
        node: MultiwayNodeId,
        regret_deltas: &Vec<u64>,
        strategy_deltas: &Vec<u64>,
        plus: &F,
    ) -> (result: Result<(), SolverError>)
        requires
            old(self).wf(),
            regret_deltas@.len() == strategy_deltas@.len(),
            recordable(
                multiway_decisions(old(self).game.nodes@),
                node,
                old(self).infosets,
                regret_deltas@.len(),
            ),
            even(multiway_decisions(old(self).game.nodes@), node, old(self).infosets),
            old(self).metrics.infoset_visits < u64::MAX,
            forall|a: u64, b: u64| call_requires(*plus, (a, b)),
        ensures
            final(self).wf(),
            final(self).game == old(self).game,
            final(self).iterations == old(self).iterations,
            final(self).rng == old(self).rng,
            final(self).config_fingerprint == old(self).config_fingerprint,
            final(self).metrics == (MultiwaySamplingMetrics {
                infoset_visits: (old(self).metrics.infoset_visits + if result is Ok {
                    1int
                } else {
                    0
                }) as u64,
                ..old(self).metrics
            }),
            old(self).visits_counted() ==> final(self).visits_counted(),
            result is Err ==> final(self).infosets == old(self).infosets,
            forall|sum_of: spec_fn(u64, u64) -> u64| #[trigger]
                describes(*plus, sum_of) ==> learnt(
                    multiway_decisions(old(self).game.nodes@),
                    node,
                    old(self).infosets,
                    final(self).infosets,
                    regret_deltas@,
                    strategy_deltas@,
                    sum_of,
                    result,
                ),
            forall|sum_of: spec_fn(u64, u64) -> u64| #[trigger]
                describes(*plus, sum_of) && result is Ok && old(self).sound() && stays_usable(
                    decision_data(multiway_decisions(old(self).game.nodes@), node, old(self).infosets),
                    regret_deltas@,
                    strategy_deltas@,
                    sum_of,
                ) ==> final(self).sound(),
            result is Ok ==> exists|regrets: Seq<u64>, strategies: Seq<u64>|
                moved(
                    multiway_decisions(old(self).game.nodes@),
                    old(self).state(),
                    #[trigger] recording(node, regrets, strategies),
                ) == Some(final(self).state()),
    {
        let (regrets, strategies) = match multiway_decision_at(&self.game, node) {
            Ok(decision) => sums_at(
                &self.infosets,
                node,
                decision,
                regret_deltas,
                strategy_deltas,
                plus,
                Ghost(multiway_decisions(self.game.nodes@)),
            ),
            Err(_) => (copy_words(regret_deltas), copy_words(strategy_deltas)),
        };
        let ghost before = self.state();
        let result = self.record(node, &regrets, &strategies);
        proof {
            if result is Ok {
                assert(moved(
                    multiway_decisions(self.game.nodes@),
                    before,
                    recording(node, regrets@, strategies@),
                ) == Some(self.state()));
            }
        }
        result
    }
}

impl MultiwayHoldemBatchSolver {
    /// Adds changes to the sums of the information set of a decision, and counts the
    /// visit.
    pub fn learn<F: Fn(u64, u64) -> u64>(
        &mut self,
        point: DecisionPoint,
        regret_deltas: &Vec<u64>,
        strategy_deltas: &Vec<u64>,
        plus: &F,
    ) -> (result: Result<(), BatchError>)
        requires
            old(self).wf(),
            point.hand.valid(),
            point.player < old(self).players(),
            regret_deltas@.len() == point.actions,
            strategy_deltas@.len() == point.actions,
            old(self).infosets@.dom().contains(point.key()) ==> old(
                self,
            ).infosets@[point.key()].strategy_sum@.len() == old(
                self,
            ).infosets@[point.key()].regret_sum@.len(),
            known_data(old(self).infosets, point.key(), 0).visits < u64::MAX,
            old(self).metrics.infoset_visits < u64::MAX,
            old(self).metrics.infoset_visits_by_player@[point.player as int] < u64::MAX,
            forall|a: u64, b: u64| call_requires(*plus, (a, b)),
        ensures
            final(self).wf(),
            final(self).public_arena == old(self).public_arena,
            final(self).config_fingerprint == old(self).config_fingerprint,
            final(self).max_private_attempts == old(self).max_private_attempts,
            final(self).private_sampler == old(self).private_sampler,
            final(self).traversal_rng == old(self).traversal_rng,
            final(self).profile_cache == old(self).profile_cache,
            final(self).iterations == old(self).iterations,
            ({
                let key = point.key();
                let data = known_data(old(self).infosets, key, point.actions);
                if data.regret_sum.len() != point.actions {
                    &&& result == Err::<(), BatchError>(
                        BatchError::ActionCountChange {
                            player: point.player,
                            node: point.public_node,
                        },
                    )
                    &&& final(self).infosets == old(self).infosets
                    &&& final(self).metrics == old(self).metrics
                } else {
                    &&& result is Ok
                    &&& final(self).infosets@ == old(self).infosets@.insert(
                        key,
                        final(self).infosets@[key],
                    )
                    &&& forall|sum_of: spec_fn(u64, u64) -> u64| #[trigger]
                        describes(*plus, sum_of) ==> final(self).infosets@[key]@ == visited(
                            data,
                            summed(data.regret_sum, regret_deltas@, sum_of),
                            summed(data.strategy_sum, strategy_deltas@, sum_of),
                        )
                    &&& final(self).metrics@ == visit_counted(old(self).metrics@, point.player)
                    &&& forall|sum_of: spec_fn(u64, u64) -> u64| #[trigger]
                        describes(*plus, sum_of) && old(self).sound() && point.actions > 0
                            && stays_usable(data, regret_deltas@, strategy_deltas@, sum_of)
                            ==> final(self).sound()
                }
            }),
    {
        let key = make_batch_key(point.player, point.public_node, point.hand);
        let (regrets, strategies) = sums_under(
            &self.infosets,
            key,
            regret_deltas,
            strategy_deltas,
            plus,
        );
        self.record(point, &regrets, &strategies)
    }
}

} // verus!
