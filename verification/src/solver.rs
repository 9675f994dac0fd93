//! The two-player solvers: their state, and the steps of an iteration that are
//! not arithmetic.
//!
//! An iteration drives a `Walk`. At a decision the driver opens the information
//! set and computes a strategy from its regrets; when all targets have been
//! visited it computes new sums, which are recorded here.
use vstd::prelude::*;

use crate::bits::{above_zero, all_finite, finite, is_above_zero};
use crate::checkpoint::{
    all_usable, checkpoint_from_infosets, checkpoint_views, count_error, decision_key,
    decisions_of, entry_views, fits_game, fresh_infoset, infoset_key, infoset_keys,
    infosets_from_checkpoint, key_has_count, lemma_accepted_entries_fit,
    lemma_own_checkpoint_is_accepted, lemma_restore_undoes_checkpoint, open_infoset,
    resume_error, restored, table_view, usable, validate_checkpoint_for_game, DecisionKey, InfoSetData,
    InfoSetView, SolverAlgorithm, SolverCheckpoint, SolverError, CHECKPOINT_FORMAT_VERSION,
};
use crate::game::{game_error, GameError, GameNode, InfoSetId, NodeId, StaticGame};
use crate::rng::{draw_of, lemma_state_never_zero, seeded_state, xorshift, XorShift64};
use crate::table::{lemma_entry, Key, Table};
use crate::walk::{
    plan_full, plan_sampled, planned, sampled_plan, samples, shape_targets, Plan, Shape, Walk,
    WalkCounters, WalkEvent, WalkStep,
};

verus! {

/// Regrets never fall below zero.
pub open spec fn floored(bits: u64) -> u64 {
    if above_zero(bits) {
        bits
    } else {
        0
    }
}

pub open spec fn floored_all(values: Seq<u64>) -> Seq<u64> {
    values.map(|i: int, bits: u64| floored(bits))
}

pub fn floor_all(values: &Vec<u64>) -> (floor: Vec<u64>)
    ensures
        floor@ == floored_all(values@),
{
    let mut floor: Vec<u64> = Vec::new();
    let mut index: usize = 0;
    while index < values.len()
        invariant
            index <= values@.len(),
            floor@ == floored_all(values@.take(index as int)),
        decreases values.len() - index,
    {
        let bits = values[index];
        floor.push(
            if is_above_zero(bits) {
                bits
            } else {
                0
            },
        );
        assert(floor@ =~= floored_all(values@.take(index as int + 1)));
        index = index + 1;
    }
    assert(values@.take(index as int) =~= values@);
    floor
}

/// An information set after a visit that gave it new sums.
pub open spec fn visited(data: InfoSetView, regrets: Seq<u64>, strategies: Seq<u64>) -> InfoSetView {
    InfoSetView {
        regret_sum: floored_all(regrets),
        strategy_sum: strategies,
        visits: (data.visits + 1) as u64,
    }
}

/// Records a visit: the new regrets, none below zero, and the new strategy
/// weights.
pub fn record_visit(
    infosets: &mut Table<InfoSetData>,
    index: usize,
    regrets: &Vec<u64>,
    strategies: &Vec<u64>,
)
    requires
        old(infosets).wf(),
        infoset_keys(old(infosets).entries@),
        index < old(infosets).entries@.len(),
        old(infosets).entries@[index as int].1.visits < u64::MAX,
    ensures
        final(infosets).wf(),
        infoset_keys(final(infosets).entries@),
        ({
            let (key, data) = old(infosets).entries@[index as int];
            let after = final(infosets).entries@[index as int];
            &&& final(infosets).entries@ == old(infosets).entries@.update(index as int, after)
            &&& after.0 == key
            &&& after.1@ == visited(data@, regrets@, strategies@)
            &&& final(infosets)@ == old(infosets)@.insert(key, after.1)
        }),
{
    let visits = infosets.entries[index].1.visits;
    let data = InfoSetData {
        regret_sum: floor_all(regrets),
        strategy_sum: crate::checkpoint::copy_words(strategies),
        visits: visits + 1,
    };
    let ghost before = *infosets;
    infosets.replace_at(index, data);
    proof {
        assert forall|i: int| 0 <= i < infosets.entries@.len() implies (
        #[trigger] infosets.entries@[i]).0.minor == 0 && infosets.entries@[i].0.major
            <= usize::MAX by {
            assert(before.entries@[i].0.minor == 0);
        }
        assert(infosets.entries@[index as int].1@ =~= visited(
            before.entries@[index as int].1@,
            regrets@,
            strategies@,
        ));
    }
}

pub open spec fn edge_targets(outcomes: Seq<(u64, usize)>) -> Seq<usize> {
    outcomes.map(|i: int, outcome: (u64, usize)| outcome.1)
}

pub fn list_edge_targets(outcomes: &Vec<(u64, usize)>) -> (targets: Vec<usize>)
    ensures
        targets@ == edge_targets(outcomes@),
{
    let mut targets: Vec<usize> = Vec::new();
    let mut index: usize = 0;
    while index < outcomes.len()
        invariant
            index <= outcomes@.len(),
            targets@ == edge_targets(outcomes@.take(index as int)),
        decreases outcomes.len() - index,
    {
        targets.push(outcomes[index].1);
        assert(targets@ =~= edge_targets(outcomes@.take(index as int + 1)));
        index = index + 1;
    }
    assert(outcomes@.take(index as int) =~= outcomes@);
    targets
}

/// What `shape` says of a node of a two-player game.
pub open spec fn shape_of(node: GameNode, shape: Shape) -> bool {
    match node {
        GameNode::Terminal { utility } => shape is Leaf,
        GameNode::Chance { outcomes } => shape matches Shape::Chance(targets) && targets@
            == edge_targets(outcomes@),
        GameNode::Decision { player, infoset, children } => shape matches Shape::Decision(
            actor,
            targets,
        ) && actor == player && targets@ == children@,
    }
}

pub fn game_shape(game: &StaticGame, node: NodeId) -> (result: Result<Shape, SolverError>)
    ensures
        match result {
            Ok(shape) => node < game.nodes@.len() && shape_of(game.nodes@[node as int], shape),
            Err(error) => node >= game.nodes@.len() && error == (SolverError::UnknownNode { node }),
        },
{
    match game.node(node) {
        None => Err(SolverError::UnknownNode { node }),
        Some(found) => Ok(
            match found {
                GameNode::Terminal { utility } => Shape::Leaf,
                GameNode::Chance { outcomes } => Shape::Chance(list_edge_targets(outcomes)),
                GameNode::Decision { player, infoset, children } => {
                    let targets = children.clone();
                    assert(targets@ =~= children@);
                    Shape::Decision(*player, targets)
                },
            },
        ),
    }
}

/// What opening the information set of `node` does.
pub open spec fn opened(
    nodes: Seq<Option<DecisionKey>>,
    node: usize,
    before: Table<InfoSetData>,
    after: Table<InfoSetData>,
    result: Result<usize, SolverError>,
) -> bool {
    if node >= nodes.len() {
        &&& result == Err::<usize, SolverError>(SolverError::UnknownNode { node })
        &&& after == before
    } else {
        match nodes[node as int] {
            Some(DecisionKey { player, infoset, actions }) => {
                let key = infoset_key(player, infoset);
                if before@.dom().contains(key) {
                    let data = before@[key];
                    &&& after == before
                    &&& if data.regret_sum@.len() == actions {
                        result matches Ok(index) && index < after.entries@.len()
                            && after.entries@[index as int] == (key, data)
                    } else {
                        result == Err::<usize, SolverError>(
                            SolverError::ActionCountChange {
                                infoset,
                                known: data.regret_sum@.len() as usize,
                                offered: actions,
                            },
                        )
                    }
                } else {
                    &&& result matches Ok(index)
                    &&& index < after.entries@.len()
                    &&& after.entries@[index as int].0 == key
                    &&& after.entries@[index as int].1@ == fresh_infoset(actions)
                    &&& after@ == before@.insert(key, after.entries@[index as int].1)
                }
            },
            None => {
                &&& result == Err::<usize, SolverError>(SolverError::NotADecision { node })
                &&& after == before
            },
        }
    }
}

/// What recording new sums for the information set of `node` does.
pub open spec fn recorded(
    nodes: Seq<Option<DecisionKey>>,
    node: usize,
    before: Table<InfoSetData>,
    after: Table<InfoSetData>,
    regrets: Seq<u64>,
    strategies: Seq<u64>,
    result: Result<(), SolverError>,
) -> bool {
    if node >= nodes.len() {
        &&& result == Err::<(), SolverError>(SolverError::UnknownNode { node })
        &&& after == before
    } else {
        match nodes[node as int] {
            Some(DecisionKey { player, infoset, actions }) => {
                let key = infoset_key(player, infoset);
                let data = if before@.dom().contains(key) {
                    before@[key]@
                } else {
                    fresh_infoset(actions)
                };
                if data.regret_sum.len() != actions {
                    &&& result == Err::<(), SolverError>(
                        SolverError::ActionCountChange {
                            infoset,
                            known: data.regret_sum.len() as usize,
                            offered: actions,
                        },
                    )
                    &&& after == before
                } else {
                    &&& result is Ok
                    &&& after@.dom().contains(key)
                    &&& after@[key]@ == visited(data, regrets, strategies)
                    &&& after@ == before@.insert(key, after@[key])
                }
            },
            None => {
                &&& result == Err::<(), SolverError>(SolverError::NotADecision { node })
                &&& after == before
            },
        }
    }
}

/// The decisions belong to players of the game and offer an action.
pub open spec fn decisions_ok(nodes: Seq<Option<DecisionKey>>, players: usize) -> bool {
    forall|i: int|
        0 <= i < nodes.len() ==> ((#[trigger] nodes[i]) matches Some(decision) ==> decision.player
            < players && decision.actions > 0)
}

/// The number of a node, if there are sums to record for it.
pub open spec fn recordable(
    nodes: Seq<Option<DecisionKey>>,
    node: usize,
    infosets: Table<InfoSetData>,
    count: nat,
) -> bool {
    node < nodes.len() ==> (nodes[node as int] matches Some(decision) ==> {
        let key = infoset_key(decision.player, decision.infoset);
        &&& count == decision.actions
        &&& infosets@.dom().contains(key) ==> infosets@[key].visits < u64::MAX
    })
}

/// Opens the information set of the decision at `node`.
pub(crate) fn open_decision(
    infosets: &mut Table<InfoSetData>,
    node: usize,
    decision: Option<DecisionKey>,
    Ghost(nodes): Ghost<Seq<Option<DecisionKey>>>,
    Ghost(players): Ghost<usize>,
) -> (result: Result<usize, SolverError>)
    requires
        old(infosets).wf(),
        infoset_keys(old(infosets).entries@),
        node < nodes.len(),
        nodes[node as int] == decision,
    ensures
        final(infosets).wf(),
        infoset_keys(final(infosets).entries@),
        opened(nodes, node, *old(infosets), *final(infosets), result),
        fits_game(*old(infosets), players, nodes) && decisions_ok(nodes, players) ==> fits_game(
            *final(infosets),
            players,
            nodes,
        ),
{
    match decision {
        Some(DecisionKey { player, infoset, actions }) => {
            let ghost before = *infosets;
            let result = open_infoset(infosets, player, infoset, actions);
            proof {
                if fits_game(before, players, nodes) && decisions_ok(nodes, players) {
                    lemma_open_fits(before, *infosets, nodes, players, node);
                }
            }
            result
        },
        None => Err(SolverError::NotADecision { node }),
    }
}

proof fn lemma_open_fits(
    before: Table<InfoSetData>,
    after: Table<InfoSetData>,
    nodes: Seq<Option<DecisionKey>>,
    players: usize,
    node: usize,
)
    requires
        before.wf(),
        after.wf(),
        decisions_ok(nodes, players),
        node < nodes.len(),
        fits_game(before, players, nodes),
        nodes[node as int] matches Some(decision) && {
            let key = infoset_key(decision.player, decision.infoset);
            ||| after == before
            ||| after@.dom().contains(key) && after@[key]@ == fresh_infoset(decision.actions)
                && after@ == before@.insert(key, after@[key])
        },
    ensures
        fits_game(after, players, nodes),
{
    let decision = nodes[node as int]->Some_0;
    let key = infoset_key(decision.player, decision.infoset);
    assert(decision_key(nodes[node as int]) == Some((key, decision.actions as nat)));
    assert(key_has_count(nodes, nodes.len() as int, key, decision.actions as nat));
    assert forall|i: int| 0 <= i < after.entries@.len() implies {
        let (k, data) = #[trigger] after.entries@[i];
        &&& k.major < players
        &&& k.minor == 0
        &&& data.regret_sum@.len() > 0
        &&& data.regret_sum@.len() == data.strategy_sum@.len()
        &&& all_usable(data.regret_sum@)
        &&& all_usable(data.strategy_sum@)
        &&& key_has_count(nodes, nodes.len() as int, k, data.regret_sum@.len())
    } by {
        let (k, data) = after.entries@[i];
        lemma_entry(after, i);
        if after == before {
            assert(before.entries@[i] == (k, data));
        } else if k == key {
            assert(data@ == fresh_infoset(decision.actions));
            assert(data@.regret_sum == data.regret_sum@);
            assert(data@.strategy_sum == data.strategy_sum@);
            assert(usable(0u64));
        } else {
            assert(before@.dom().contains(k) && before@[k] == data);
            assert(before.has(k));
            let j = choose|j: int|
                0 <= j < before.entries@.len() && (#[trigger] before.entries@[j]).0 == k;
            lemma_entry(before, j);
            assert(before.entries@[j] == (k, data));
        }
    }
}

/// Finite regrets are usable once none lies below zero.
pub proof fn lemma_floored_usable(values: Seq<u64>)
    requires
        all_finite(values),
    ensures
        all_usable(floored_all(values)),
{
    assert forall|i: int| 0 <= i < floored_all(values).len() implies usable(
        #[trigger] floored_all(values)[i],
    ) by {
        assert(finite(values[i]));
        assert(floored_all(values)[i] == floored(values[i]));
    }
}

/// Records new sums for the information set of the decision at `node`.
pub(crate) fn record_decision(
    infosets: &mut Table<InfoSetData>,
    node: usize,
    decision: Option<DecisionKey>,
    regrets: &Vec<u64>,
    strategies: &Vec<u64>,
    Ghost(nodes): Ghost<Seq<Option<DecisionKey>>>,
    Ghost(players): Ghost<usize>,
) -> (result: Result<(), SolverError>)
    requires
        old(infosets).wf(),
        infoset_keys(old(infosets).entries@),
        node < nodes.len(),
        nodes[node as int] == decision,
        regrets@.len() == strategies@.len(),
        recordable(nodes, node, *old(infosets), regrets@.len()),
    ensures
        final(infosets).wf(),
        infoset_keys(final(infosets).entries@),
        recorded(nodes, node, *old(infosets), *final(infosets), regrets@, strategies@, result),
        fits_game(*old(infosets), players, nodes) && decisions_ok(nodes, players) && all_finite(
            regrets@,
        ) && all_usable(strategies@) ==> fits_game(*final(infosets), players, nodes),
{
    let ghost before = *infosets;
    let index = match open_decision(infosets, node, decision, Ghost(nodes), Ghost(players)) {
        Ok(index) => index,
        Err(error) => {
            return Err(error);
        },
    };
    let ghost middle = *infosets;
    proof {
        lemma_entry(middle, index as int);
        assert(middle.entries@[index as int].1@.regret_sum
            == middle.entries@[index as int].1.regret_sum@);
    }
    record_visit(infosets, index, regrets, strategies);
    proof {
        let key = middle.entries@[index as int].0;
        assert(infosets@ =~= before@.insert(key, infosets.entries@[index as int].1));
        if fits_game(before, players, nodes) && decisions_ok(nodes, players) && all_finite(regrets@)
            && all_usable(strategies@) {
            lemma_floored_usable(regrets@);
            let after = infosets.entries@[index as int];
            assert(after.1@.regret_sum == after.1.regret_sum@);
            assert(after.1@.strategy_sum == after.1.strategy_sum@);
            assert forall|i: int| 0 <= i < infosets.entries@.len() implies {
                let (k, data) = #[trigger] infosets.entries@[i];
                &&& k.major < players
                &&& k.minor == 0
                &&& data.regret_sum@.len() > 0
                &&& data.regret_sum@.len() == data.strategy_sum@.len()
                &&& all_usable(data.regret_sum@)
                &&& all_usable(data.strategy_sum@)
                &&& key_has_count(nodes, nodes.len() as int, k, data.regret_sum@.len())
            } by {
                assert(middle.entries@[i].0 == infosets.entries@[i].0);
                assert(middle.entries@[i].0.major < players);
            }
        }
    }
    Ok(())
}

/// The decision at `node`.
pub fn decision_at(game: &StaticGame, node: NodeId) -> (result: Result<
    Option<DecisionKey>,
    SolverError,
>)
    ensures
        match result {
            Ok(decision) => node < game.nodes@.len() && decision == decisions_of(
                game.nodes@,
            )[node as int],
            Err(error) => node >= game.nodes@.len() && error == (SolverError::UnknownNode { node }),
        },
{
    match game.node(node) {
        None => Err(SolverError::UnknownNode { node }),
        Some(GameNode::Decision { player, infoset, children }) => Ok(
            Some(DecisionKey { player: *player, infoset: *infoset, actions: children.len() }),
        ),
        Some(_) => Ok(None),
    }
}

proof fn lemma_playable_decisions(game: StaticGame)
    requires
        game.playable(),
    ensures
        decisions_ok(decisions_of(game.nodes@), 2),
{
    let nodes = decisions_of(game.nodes@);
    assert forall|i: int| 0 <= i < nodes.len() implies ((#[trigger] nodes[i]) matches Some(
        decision,
    ) ==> decision.player < 2 && decision.actions > 0) by {
        assert(crate::game::game_node_ok(game.nodes@[i], game.nodes@.len()));
        match game.nodes@[i] {
            GameNode::Decision { player, infoset, children } => {
                assert(children.len() == children@.len());
            },
            _ => {},
        }
    }
}

pub struct CfrPlusSolver {
    pub game: StaticGame,
    pub infosets: Table<InfoSetData>,
    pub iterations: u64,
    pub config_fingerprint: u64,
}

impl CfrPlusSolver {
    pub open spec fn wf(self) -> bool {
        &&& self.infosets.wf()
        &&& infoset_keys(self.infosets.entries@)
        &&& self.game.playable()
    }

    /// The information sets are those of the game, with usable sums.
    pub open spec fn sound(self) -> bool {
        self.wf() && fits_game(self.infosets, 2, decisions_of(self.game.nodes@))
    }

    pub fn new(game: StaticGame, sums_ok: &[bool]) -> (result: Result<Self, GameError>)
        requires
            sums_ok@.len() == game.nodes@.len(),
        ensures
            match result {
                Ok(solver) => {
                    &&& game_error(game, sums_ok@) is None
                    &&& solver.sound()
                    &&& solver.game == game
                    &&& solver.infosets.entries@.len() == 0
                    &&& solver.iterations == 0
                    &&& solver.config_fingerprint == 0
                },
                Err(error) => game_error(game, sums_ok@) == Some(error),
            },
    {
        Self::new_with_config_fingerprint(game, sums_ok, 0)
    }

    pub fn new_with_config_fingerprint(
        game: StaticGame,
        sums_ok: &[bool],
        config_fingerprint: u64,
    ) -> (result: Result<Self, GameError>)
        requires
            sums_ok@.len() == game.nodes@.len(),
        ensures
            match result {
                Ok(solver) => {
                    &&& game_error(game, sums_ok@) is None
                    &&& solver.sound()
                    &&& solver.game == game
                    &&& solver.infosets.entries@.len() == 0
                    &&& solver.iterations == 0
                    &&& solver.config_fingerprint == config_fingerprint
                },
                Err(error) => game_error(game, sums_ok@) == Some(error),
            },
    {
        match game.validate(sums_ok) {
            Ok(_) => {},
            Err(error) => {
                return Err(error);
            },
        }
        proof {
            crate::game::lemma_game_validation_is_exact(game, sums_ok@);
        }
        Ok(CfrPlusSolver { game, infosets: Table::new(), iterations: 0, config_fingerprint })
    }

    pub fn config_fingerprint(&self) -> (fingerprint: u64)
        ensures
            fingerprint == self.config_fingerprint,
    {
        self.config_fingerprint
    }

    pub fn iterations(&self) -> (iterations: u64)
        ensures
            iterations == self.iterations,
    {
        self.iterations
    }

    /// What a checkpoint of the solver holds.
    pub open spec fn written(self, checkpoint: SolverCheckpoint) -> bool {
        &&& checkpoint.format_version == CHECKPOINT_FORMAT_VERSION
        &&& checkpoint.algorithm == SolverAlgorithm::CfrPlus
        &&& checkpoint.game_fingerprint == self.game.spec_fingerprint()
        &&& checkpoint.config_fingerprint == self.config_fingerprint
        &&& checkpoint.iterations == self.iterations
        &&& checkpoint.rng_state is None
        &&& checkpoint_views(checkpoint.infosets@) == entry_views(self.infosets.entries@)
    }

    pub fn checkpoint(&self) -> (checkpoint: SolverCheckpoint)
        requires
            self.wf(),
        ensures
            self.written(checkpoint),
    {
        checkpoint_from_infosets(
            SolverAlgorithm::CfrPlus,
            &self.game,
            self.config_fingerprint,
            self.iterations,
            &self.infosets,
            None,
        )
    }

    pub fn from_checkpoint(game: StaticGame, sums_ok: &[bool], checkpoint: &SolverCheckpoint) -> (result:
        Result<Self, SolverError>)
        requires
            sums_ok@.len() == game.nodes@.len(),
        ensures
            match resume_error(*checkpoint, SolverAlgorithm::CfrPlus, game, sums_ok@, 0) {
                Some(error) => result == Err::<Self, SolverError>(error),
                None => result matches Ok(solver) && solver.resumes(game, *checkpoint, 0),
            },
    {
        Self::from_checkpoint_with_config_fingerprint(game, sums_ok, checkpoint, 0)
    }

    /// The solver has the state of a checkpoint.
    pub open spec fn resumes(
        self,
        game: StaticGame,
        checkpoint: SolverCheckpoint,
        config_fingerprint: u64,
    ) -> bool {
        &&& self.sound()
        &&& self.game == game
        &&& table_view(self.infosets) == restored(checkpoint_views(checkpoint.infosets@))
        &&& self.iterations == checkpoint.iterations
        &&& self.config_fingerprint == config_fingerprint
    }

    /// Continues where a checkpoint left off.
    pub fn from_checkpoint_with_config_fingerprint(
        game: StaticGame,
        sums_ok: &[bool],
        checkpoint: &SolverCheckpoint,
        config_fingerprint: u64,
    ) -> (result: Result<Self, SolverError>)
        requires
            sums_ok@.len() == game.nodes@.len(),
        ensures
            match resume_error(
                *checkpoint,
                SolverAlgorithm::CfrPlus,
                game,
                sums_ok@,
                config_fingerprint,
            ) {
                Some(error) => result == Err::<Self, SolverError>(error),
                None => result matches Ok(solver) && solver.resumes(
                    game,
                    *checkpoint,
                    config_fingerprint,
                ),
            },
    {
        match validate_checkpoint_for_game(
            checkpoint,
            SolverAlgorithm::CfrPlus,
            &game,
            sums_ok,
            config_fingerprint,
        ) {
            Ok(_) => {},
            Err(error) => {
                return Err(error);
            },
        }
        proof {
            crate::game::lemma_game_validation_is_exact(game, sums_ok@);
        }
        let infosets = infosets_from_checkpoint(checkpoint);
        proof {
            lemma_accepted_entries_fit(
                checkpoint.infosets@,
                2,
                decisions_of(game.nodes@),
                infosets,
            );
        }
        Ok(
            CfrPlusSolver {
                game,
                infosets,
                iterations: checkpoint.iterations,
                config_fingerprint,
            },
        )
    }

    /// The information set of `player`, if it was visited.
    pub fn info(&self, player: usize, infoset: InfoSetId) -> (data: Option<&InfoSetData>)
        requires
            self.wf(),
        ensures
            data is Some <==> self.infosets@.dom().contains(infoset_key(player, infoset)),
            data matches Some(found) ==> *found == self.infosets@[infoset_key(player, infoset)],
    {
        self.infosets.get(Key { major: player as u64, middle: infoset, minor: 0 })
    }

    /// Nothing but the information sets differs.
    pub open spec fn kept(self, before: Self) -> bool {
        &&& self.game == before.game
        &&& self.iterations == before.iterations
        &&& self.config_fingerprint == before.config_fingerprint
    }

    /// Opens the information set of a decision node.
    pub fn open(&mut self, node: NodeId) -> (result: Result<usize, SolverError>)
        requires
            old(self).wf(),
        ensures
            final(self).wf(),
            final(self).kept(*old(self)),
            opened(
                decisions_of(old(self).game.nodes@),
                node,
                old(self).infosets,
                final(self).infosets,
                result,
            ),
            old(self).sound() ==> final(self).sound(),
    {
        let decision = match decision_at(&self.game, node) {
            Ok(decision) => decision,
            Err(error) => {
                return Err(error);
            },
        };
        proof {
            lemma_playable_decisions(self.game);
        }
        open_decision(
            &mut self.infosets,
            node,
            decision,
            Ghost(decisions_of(self.game.nodes@)),
            Ghost(2),
        )
    }

    /// Records new sums for the information set of a decision node.
    pub(crate) fn record(&mut self, node: NodeId, regrets: &Vec<u64>, strategies: &Vec<u64>) -> (result:
        Result<(), SolverError>)
        requires
            old(self).wf(),
            regrets@.len() == strategies@.len(),
            recordable(
                decisions_of(old(self).game.nodes@),
                node,
                old(self).infosets,
                regrets@.len(),
            ),
        ensures
            final(self).wf(),
            final(self).kept(*old(self)),
            recorded(
                decisions_of(old(self).game.nodes@),
                node,
                old(self).infosets,
                final(self).infosets,
                regrets@,
                strategies@,
                result,
            ),
            old(self).sound() && all_finite(regrets@) && all_usable(strategies@) ==> final(self).sound(),
    {
        let decision = match decision_at(&self.game, node) {
            Ok(decision) => decision,
            Err(error) => {
                return Err(error);
            },
        };
        proof {
            lemma_playable_decisions(self.game);
        }
        record_decision(
            &mut self.infosets,
            node,
            decision,
            regrets,
            strategies,
            Ghost(decisions_of(self.game.nodes@)),
            Ghost(2),
        )
    }

    /// Enters the next node of a walk that goes everywhere.
    pub fn visit(&self, walk: &mut Walk) -> (result: Result<usize, SolverError>)
        requires
            self.wf(),
            old(walk).wf(),
            old(walk).step() is Enter,
        ensures
            final(walk).wf(),
            ({
                let node = old(walk).step()->Enter_0;
                match result {
                    Ok(entered) => {
                        &&& entered == node
                        &&& node < self.game.nodes@.len()
                        &&& exists|shape: Shape| #[trigger]
                            shape_of(self.game.nodes@[node as int], shape) && final(walk).events@
                                == old(walk).events@.push(
                                WalkEvent::Enter(node, shape_targets(shape)),
                            )
                    },
                    Err(error) => {
                        &&& node >= self.game.nodes@.len()
                        &&& error == (SolverError::UnknownNode { node })
                        &&& *final(walk) == *old(walk)
                    },
                }
            }),
    {
        let node: usize = match walk.next_step() {
            WalkStep::Enter(node) => node,
            _ => self.game.root(),
        };
        match game_shape(&self.game, node) {
            Ok(shape) => {
                let plan = plan_full(&shape);
                let entered = walk.enter(&shape, plan);
                assert(planned(shape_targets(shape), plan) =~= shape_targets(shape));
                Ok(entered)
            },
            Err(error) => Err(error),
        }
    }

    /// Counts a finished iteration.
    pub fn finish_iteration(&mut self)
        requires
            old(self).iterations < u64::MAX,
        ensures
            final(self).iterations == old(self).iterations + 1,
            final(self).game == old(self).game,
            final(self).infosets == old(self).infosets,
            final(self).config_fingerprint == old(self).config_fingerprint,
    {
        self.iterations = self.iterations + 1;
    }
}

pub struct MccfrSolver {
    pub game: StaticGame,
    pub infosets: Table<InfoSetData>,
    pub iterations: u64,
    pub rng: XorShift64,
    pub config_fingerprint: u64,
}

impl MccfrSolver {
    pub open spec fn wf(self) -> bool {
        &&& self.infosets.wf()
        &&& infoset_keys(self.infosets.entries@)
        &&& self.game.playable()
        &&& self.rng.state != 0
    }

    /// The information sets are those of the game, with usable sums.
    pub open spec fn sound(self) -> bool {
        self.wf() && fits_game(self.infosets, 2, decisions_of(self.game.nodes@))
    }

    pub fn new(game: StaticGame, sums_ok: &[bool], seed: u64) -> (result: Result<Self, GameError>)
        requires
            sums_ok@.len() == game.nodes@.len(),
        ensures
            match result {
                Ok(solver) => {
                    &&& game_error(game, sums_ok@) is None
                    &&& solver.sound()
                    &&& solver.game == game
                    &&& solver.infosets.entries@.len() == 0
                    &&& solver.iterations == 0
                    &&& solver.rng.state == seeded_state(seed)
                    &&& solver.config_fingerprint == 0
                },
                Err(error) => game_error(game, sums_ok@) == Some(error),
            },
    {
        Self::new_with_config_fingerprint(game, sums_ok, seed, 0)
    }

    pub fn new_with_config_fingerprint(
        game: StaticGame,
        sums_ok: &[bool],
        seed: u64,
        config_fingerprint: u64,
    ) -> (result: Result<Self, GameError>)
        requires
            sums_ok@.len() == game.nodes@.len(),
        ensures
            match result {
                Ok(solver) => {
                    &&& game_error(game, sums_ok@) is None
                    &&& solver.sound()
                    &&& solver.game == game
                    &&& solver.infosets.entries@.len() == 0
                    &&& solver.iterations == 0
                    &&& solver.rng.state == seeded_state(seed)
                    &&& solver.config_fingerprint == config_fingerprint
                },
                Err(error) => game_error(game, sums_ok@) == Some(error),
            },
    {
        match game.validate(sums_ok) {
            Ok(_) => {},
            Err(error) => {
                return Err(error);
            },
        }
        proof {
            crate::game::lemma_game_validation_is_exact(game, sums_ok@);
        }
        Ok(
            MccfrSolver {
                game,
                infosets: Table::new(),
                iterations: 0,
                rng: XorShift64::new(seed),
                config_fingerprint,
            },
        )
    }

    pub fn config_fingerprint(&self) -> (fingerprint: u64)
        ensures
            fingerprint == self.config_fingerprint,
    {
        self.config_fingerprint
    }

    pub fn iterations(&self) -> (iterations: u64)
        ensures
            iterations == self.iterations,
    {
        self.iterations
    }

    /// What a checkpoint of the solver holds.
    pub open spec fn written(self, checkpoint: SolverCheckpoint) -> bool {
        &&& checkpoint.format_version == CHECKPOINT_FORMAT_VERSION
        &&& checkpoint.algorithm == SolverAlgorithm::ExternalSamplingMccfr
        &&& checkpoint.game_fingerprint == self.game.spec_fingerprint()
        &&& checkpoint.config_fingerprint == self.config_fingerprint
        &&& checkpoint.iterations == self.iterations
        &&& checkpoint.rng_state == Some(self.rng.state)
        &&& checkpoint_views(checkpoint.infosets@) == entry_views(self.infosets.entries@)
    }

    pub fn checkpoint(&self) -> (checkpoint: SolverCheckpoint)
        requires
            self.wf(),
        ensures
            self.written(checkpoint),
    {
        checkpoint_from_infosets(
            SolverAlgorithm::ExternalSamplingMccfr,
            &self.game,
            self.config_fingerprint,
            self.iterations,
            &self.infosets,
            Some(self.rng.state),
        )
    }

    /// The solver has the state of a checkpoint.
    pub open spec fn resumes(
        self,
        game: StaticGame,
        checkpoint: SolverCheckpoint,
        config_fingerprint: u64,
    ) -> bool {
        &&& self.sound()
        &&& self.game == game
        &&& table_view(self.infosets) == restored(checkpoint_views(checkpoint.infosets@))
        &&& self.iterations == checkpoint.iterations
        &&& checkpoint.rng_state == Some(self.rng.state)
        &&& self.config_fingerprint == config_fingerprint
    }

    pub fn from_checkpoint(game: StaticGame, sums_ok: &[bool], checkpoint: &SolverCheckpoint) -> (result:
        Result<Self, SolverError>)
        requires
            sums_ok@.len() == game.nodes@.len(),
        ensures
            match resume_error(
                *checkpoint,
                SolverAlgorithm::ExternalSamplingMccfr,
                game,
                sums_ok@,
                0,
            ) {
                Some(error) => result == Err::<Self, SolverError>(error),
                None => result matches Ok(solver) && solver.resumes(game, *checkpoint, 0),
            },
    {
        Self::from_checkpoint_with_config_fingerprint(game, sums_ok, checkpoint, 0)
    }

    /// Continues where a checkpoint left off.
    pub fn from_checkpoint_with_config_fingerprint(
        game: StaticGame,
        sums_ok: &[bool],
        checkpoint: &SolverCheckpoint,
        config_fingerprint: u64,
    ) -> (result: Result<Self, SolverError>)
        requires
            sums_ok@.len() == game.nodes@.len(),
        ensures
            match resume_error(
                *checkpoint,
                SolverAlgorithm::ExternalSamplingMccfr,
                game,
                sums_ok@,
                config_fingerprint,
            ) {
                Some(error) => result == Err::<Self, SolverError>(error),
                None => result matches Ok(solver) && solver.resumes(
                    game,
                    *checkpoint,
                    config_fingerprint,
                ),
            },
    {
        match validate_checkpoint_for_game(
            checkpoint,
            SolverAlgorithm::ExternalSamplingMccfr,
            &game,
            sums_ok,
            config_fingerprint,
        ) {
            Ok(_) => {},
            Err(error) => {
                return Err(error);
            },
        }
        let rng_state = match checkpoint.rng_state {
            Some(state) => state,
            None => {
                return Err(SolverError::MissingRngState);
            },
        };
        proof {
            crate::game::lemma_game_validation_is_exact(game, sums_ok@);
        }
        let infosets = infosets_from_checkpoint(checkpoint);
        proof {
            lemma_accepted_entries_fit(
                checkpoint.infosets@,
                2,
                decisions_of(game.nodes@),
                infosets,
            );
        }
        Ok(
            MccfrSolver {
                game,
                infosets,
                iterations: checkpoint.iterations,
                rng: XorShift64 { state: rng_state },
                config_fingerprint,
            },
        )
    }

    /// The information set of `player`, if it was visited.
    pub fn info(&self, player: usize, infoset: InfoSetId) -> (data: Option<&InfoSetData>)
        requires
            self.wf(),
        ensures
            data is Some <==> self.infosets@.dom().contains(infoset_key(player, infoset)),
            data matches Some(found) ==> *found == self.infosets@[infoset_key(player, infoset)],
    {
        self.infosets.get(Key { major: player as u64, middle: infoset, minor: 0 })
    }

    /// Nothing but the information sets differs.
    pub open spec fn kept(self, before: Self) -> bool {
        &&& self.game == before.game
        &&& self.iterations == before.iterations
        &&& self.rng == before.rng
        &&& self.config_fingerprint == before.config_fingerprint
    }

    /// Opens the information set of a decision node.
    pub fn open(&mut self, node: NodeId) -> (result: Result<usize, SolverError>)
        requires
            old(self).wf(),
        ensures
            final(self).wf(),
            final(self).kept(*old(self)),
            opened(
                decisions_of(old(self).game.nodes@),
                node,
                old(self).infosets,
                final(self).infosets,
                result,
            ),
            old(self).sound() ==> final(self).sound(),
    {
        let decision = match decision_at(&self.game, node) {
            Ok(decision) => decision,
            Err(error) => {
                return Err(error);
            },
        };
        proof {
            lemma_playable_decisions(self.game);
        }
        open_decision(
            &mut self.infosets,
            node,
            decision,
            Ghost(decisions_of(self.game.nodes@)),
            Ghost(2),
        )
    }

    /// Records new sums for the information set of a decision node.
    pub(crate) fn record(&mut self, node: NodeId, regrets: &Vec<u64>, strategies: &Vec<u64>) -> (result:
        Result<(), SolverError>)
        requires
            old(self).wf(),
            regrets@.len() == strategies@.len(),
            recordable(
                decisions_of(old(self).game.nodes@),
                node,
                old(self).infosets,
                regrets@.len(),
            ),
        ensures
            final(self).wf(),
            final(self).kept(*old(self)),
            recorded(
                decisions_of(old(self).game.nodes@),
                node,
                old(self).infosets,
                final(self).infosets,
                regrets@,
                strategies@,
                result,
            ),
            old(self).sound() && all_finite(regrets@) && all_usable(strategies@) ==> final(self).sound(),
    {
        let decision = match decision_at(&self.game, node) {
            Ok(decision) => decision,
            Err(error) => {
                return Err(error);
            },
        };
        proof {
            lemma_playable_decisions(self.game);
        }
        record_decision(
            &mut self.infosets,
            node,
            decision,
            regrets,
            strategies,
            Ghost(decisions_of(self.game.nodes@)),
            Ghost(2),
        )
    }

    /// Enters the next node of an external-sampling walk: a chance node and a
    /// decision of the opponent are sampled by the thresholds, a decision of
    /// the traverser is tried in every way.
    pub fn visit(&mut self, walk: &mut Walk, traverser: usize, thresholds: &[u64]) -> (result:
        Result<Plan, SolverError>)
        requires
            old(self).wf(),
            old(walk).wf(),
            old(walk).step() is Enter,
            old(walk).step()->Enter_0 < old(self).game.nodes@.len() ==> thresholds_match(
                old(self).game.nodes@[old(walk).step()->Enter_0 as int],
                traverser,
                thresholds@,
            ),
        ensures
            final(self).wf(),
            final(self).game == old(self).game,
            final(self).infosets == old(self).infosets,
            final(self).iterations == old(self).iterations,
            final(self).config_fingerprint == old(self).config_fingerprint,
            final(walk).wf(),
            ({
                let node = old(walk).step()->Enter_0;
                match result {
                    Ok(plan) => {
                        &&& node < old(self).game.nodes@.len()
                        &&& exists|shape: Shape| #[trigger]
                            shape_of(old(self).game.nodes@[node as int], shape) && {
                                let drawn = samples(shape, traverser);
                                let next = xorshift(old(self).rng.state);
                                &&& plan == sampled_plan(
                                    shape,
                                    traverser,
                                    thresholds@,
                                    draw_of(next),
                                )
                                &&& final(self).rng.state == if drawn {
                                    next
                                } else {
                                    old(self).rng.state
                                }
                                &&& final(walk).events@ == old(walk).events@.push(
                                    WalkEvent::Enter(node, planned(shape_targets(shape), plan)),
                                )
                            }
                    },
                    Err(error) => {
                        &&& node >= old(self).game.nodes@.len()
                        &&& error == (SolverError::UnknownNode { node })
                        &&& *final(walk) == *old(walk)
                        &&& final(self).rng == old(self).rng
                    },
                }
            }),
    {
        let node: usize = match walk.next_step() {
            WalkStep::Enter(node) => node,
            _ => self.game.root(),
        };
        match game_shape(&self.game, node) {
            Ok(shape) => {
                let mut counters = WalkCounters {
                    sampled_chance_nodes: 0,
                    sampled_opponent_actions: 0,
                };
                proof {
                    lemma_state_never_zero(self.rng.state);
                    lemma_thresholds(
                        self.game.nodes@[node as int],
                        shape,
                        traverser,
                        thresholds@,
                    );
                }
                let plan = plan_sampled(
                    &shape,
                    traverser,
                    thresholds,
                    &mut self.rng,
                    &mut counters,
                );
                walk.enter(&shape, plan);
                Ok(plan)
            },
            Err(error) => Err(error),
        }
    }

    /// Counts a finished iteration.
    pub fn finish_iteration(&mut self)
        requires
            old(self).iterations < u64::MAX,
        ensures
            final(self).iterations == old(self).iterations + 1,
            final(self).game == old(self).game,
            final(self).infosets == old(self).infosets,
            final(self).rng == old(self).rng,
            final(self).config_fingerprint == old(self).config_fingerprint,
    {
        self.iterations = self.iterations + 1;
    }
}

/// A node that is sampled has one threshold for each target.
pub open spec fn thresholds_match(node: GameNode, traverser: usize, thresholds: Seq<u64>) -> bool {
    match node {
        GameNode::Terminal { utility } => true,
        GameNode::Chance { outcomes } => outcomes@.len() > 0 && thresholds.len() == outcomes@.len(),
        GameNode::Decision { player, infoset, children } => player != traverser ==> children@.len()
            > 0 && thresholds.len() == children@.len(),
    }
}

proof fn lemma_thresholds(node: GameNode, shape: Shape, traverser: usize, thresholds: Seq<u64>)
    requires
        shape_of(node, shape),
        thresholds_match(node, traverser, thresholds),
    ensures
        samples(shape, traverser) ==> thresholds.len() > 0 && thresholds.len() == shape_targets(
            shape,
        ).len(),
{
}

/// A checkpoint of the full-traversal solver can be resumed, and the resumed
/// solver stands where the first one stopped.
pub proof fn lemma_cfr_plus_resumes_where_it_stopped(
    solver: CfrPlusSolver,
    checkpoint: SolverCheckpoint,
    resumed: CfrPlusSolver,
    sums_ok: Seq<bool>,
)
    requires
        solver.sound(),
        game_error(solver.game, sums_ok) is None,
        count_error(decisions_of(solver.game.nodes@), 0) is None,
        solver.written(checkpoint),
    ensures
        resume_error(
            checkpoint,
            SolverAlgorithm::CfrPlus,
            solver.game,
            sums_ok,
            solver.config_fingerprint,
        ) is None,
        resumed.resumes(solver.game, checkpoint, solver.config_fingerprint) ==> {
            &&& table_view(resumed.infosets) == table_view(solver.infosets)
            &&& resumed.iterations == solver.iterations
            &&& resumed.config_fingerprint == solver.config_fingerprint
        },
{
    lemma_own_checkpoint_is_accepted(checkpoint, solver.game, sums_ok, solver.infosets);
    lemma_restore_undoes_checkpoint(solver.infosets);
}

/// A checkpoint of the sampling solver can be resumed, and the resumed solver
/// stands where the first one stopped and draws on from the same state.
pub proof fn lemma_mccfr_resumes_where_it_stopped(
    solver: MccfrSolver,
    checkpoint: SolverCheckpoint,
    resumed: MccfrSolver,
    sums_ok: Seq<bool>,
)
    requires
        solver.sound(),
        game_error(solver.game, sums_ok) is None,
        count_error(decisions_of(solver.game.nodes@), 0) is None,
        solver.written(checkpoint),
    ensures
        resume_error(
            checkpoint,
            SolverAlgorithm::ExternalSamplingMccfr,
            solver.game,
            sums_ok,
            solver.config_fingerprint,
        ) is None,
        resumed.resumes(solver.game, checkpoint, solver.config_fingerprint) ==> {
            &&& table_view(resumed.infosets) == table_view(solver.infosets)
            &&& resumed.iterations == solver.iterations
            &&& resumed.rng == solver.rng
            &&& resumed.config_fingerprint == solver.config_fingerprint
        },
{
    lemma_own_checkpoint_is_accepted(checkpoint, solver.game, sums_ok, solver.infosets);
    lemma_restore_undoes_checkpoint(solver.infosets);
}

} // verus!
