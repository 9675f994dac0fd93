//! What an error says is so, and nothing before it was wrong.
use vstd::prelude::*;

use crate::arena::{public_error, ArenaError};
use crate::batch_metrics::{dimension_error, BatchMetricsView, MetricsField};
use crate::batch_report::{row_error, BatchReportError};
use crate::batch_store::{
    batch_checkpoint_error, batch_entry_error, BatchCheckpointError, MultiwayBatchInfoSetCheckpoint,
    MultiwayHoldemBatchCheckpoint,
};
use crate::bits::{above_zero, finite};
use crate::cards::{cards_mask, first_card_error, Combo};
use crate::chance::{chance_outcomes, choices, remaining_cards, ChanceConfig, ChanceError};
use crate::checkpoint::{entry_error, InfoSetCheckpoint, InfoSetData, SolverError};
use crate::compile::{
    copy_problem, edge_error, label_error, open_outcomes, outcome_card_error, CompileError,
};
use crate::domain::{GameState, Street};
use crate::game::{first_bad_child, game_node_error, outcome_error, GameError, GameNode};
use crate::job::{
    existing_error, manifest_error, JobError, MultiwayBatchJobConfig, MultiwayBatchJobManifest,
};
use crate::multiway::{
    multiway_checkpoint_error, multiway_node_error, multiway_resume_error, MultiwayError,
    MultiwayGameNode, MultiwaySolverCheckpoint, MultiwaySolverError, MultiwayStaticGame,
};
use crate::payoff::{hands_mask, settlement_error, MultiwayTerminalPayoff, PayoffError};
use crate::report::{layout_error, ReportError};
use crate::table::Key;
use crate::tree::{
    child_error, node_error, nodes_error, tree_error, GameTree, NodeFacts, TreeError,
    TreeNode,
};

verus! {

/// What is wrong with one node of a tree, by the error that is given of it.
pub open spec fn is_wrong(
    nodes: Seq<TreeNode>,
    root: usize,
    facts: NodeFacts,
    index: usize,
    error: TreeError,
) -> bool {
    let node = nodes[index as int];
    match error {
        TreeError::IdMismatch { node: at } => at == index && node.id != index,
        TreeError::InvalidState { node: at } => at == index && !facts.state_ok,
        TreeError::RootHasParent => index == root && (node.parent is Some
            || node.action_from_parent is Some),
        TreeError::MissingParent { node: at } => at == index && index != root && node.parent is None,
        TreeError::InvalidParent { node: at, parent } => at == index && node.parent == Some(parent)
            && parent >= nodes.len(),
        TreeError::ParentMissesChild { parent, node: at } => at == index && node.parent == Some(
            parent,
        ) && !nodes[parent as int].children@.contains(index),
        TreeError::WrongEdge { node: at } => at == index && node.parent is Some && (
        nodes[node.parent->Some_0 as int].chance is Some <==> node.action_from_parent is Some),
        TreeError::InvalidChild { node: at, child } => at == index && node.children@.contains(child)
            && child >= nodes.len(),
        TreeError::WrongParent { child } => node.children@.contains(child)
            && nodes[child as int].parent != Some(index),
        TreeError::LeafAndChance { node: at } => at == index && node.leaf is Some && node.chance
            is Some,
        TreeError::LeafWithChildren { node: at } => at == index && node.leaf is Some
            && node.children@.len() > 0,
        TreeError::LeafWithActor { node: at } => at == index && node.leaf is Some
            && node.state.actor is Some,
        TreeError::ChanceWithActor { node: at } => at == index && node.chance is Some
            && node.state.actor is Some,
        TreeError::OutcomeMismatch { node: at } => at == index && node.chance is Some
            && node.chance->Some_0.outcomes@.len() != node.children@.len(),
        TreeError::BadProbabilities { node: at } => at == index && node.chance is Some
            && !facts.probabilities_ok,
        TreeError::NoActor { node: at } => at == index && node.leaf is None && node.chance is None
            && node.state.actor is None,
        TreeError::NoChildren { node: at } => at == index && node.leaf is None && node.chance is None
            && node.children@.len() == 0,
        _ => false,
    }
}

proof fn lemma_wrong_child(nodes: Seq<TreeNode>, index: usize, from: int)
    requires
        0 <= from,
    ensures
        child_error(nodes, index, from) matches Some(error) ==> match error {
            TreeError::InvalidChild { node, child } => node == index
                && nodes[index as int].children@.contains(child) && child >= nodes.len(),
            TreeError::WrongParent { child } => nodes[index as int].children@.contains(child)
                && nodes[child as int].parent != Some(index),
            _ => false,
        },
    decreases nodes[index as int].children@.len() - from,
{
    let children = nodes[index as int].children@;
    if from < children.len() {
        assert(children.contains(children[from]));
        lemma_wrong_child(nodes, index, from + 1);
    }
}

/// The error of a node tells what is wrong with it.
pub proof fn lemma_wrong_nodes(
    nodes: Seq<TreeNode>,
    root: usize,
    facts: NodeFacts,
    index: usize,
)
    requires
        index < nodes.len(),
    ensures
        node_error(nodes, root, facts, index) matches Some(error) ==> is_wrong(
            nodes,
            root,
            facts,
            index,
            error,
        ),
{
    lemma_wrong_child(nodes, index, 0);
}

/// The error of a tree is that of its first wrong node.
pub proof fn lemma_first_wrong_node(
    nodes: Seq<TreeNode>,
    root: usize,
    facts: Seq<NodeFacts>,
    from: int,
) -> (index: int)
    requires
        0 <= from <= nodes.len() <= usize::MAX,
    ensures
        nodes_error(nodes, root, facts, from) matches Some(error) ==> {
            &&& from <= index < nodes.len()
            &&& is_wrong(nodes, root, facts[index], index as usize, error)
            &&& forall|i: int|
                from <= i < index ==> node_error(nodes, root, #[trigger] facts[i], i as usize) is None
        },
        nodes_error(nodes, root, facts, from) is None ==> forall|i: int|
            from <= i < nodes.len() ==> node_error(
                nodes,
                root,
                #[trigger] facts[i],
                i as usize,
            ) is None,
    decreases nodes.len() - from,
{
    if from >= nodes.len() {
        from
    } else if node_error(nodes, root, facts[from], from as usize) is Some {
        lemma_wrong_nodes(nodes, root, facts[from], from as usize);
        from
    } else {
        lemma_first_wrong_node(nodes, root, facts, from + 1)
    }
}

/// A tree needs nodes, and its root comes first.
pub proof fn lemma_wrong_trees(tree: GameTree, facts: Seq<NodeFacts>)
    requires
        tree.nodes@.len() <= usize::MAX,
    ensures
        tree_error(tree, facts) == Some(TreeError::NoNodes) <==> tree.nodes@.len() == 0,
        tree_error(tree, facts) == Some(TreeError::RootNotZero) <==> tree.nodes@.len() > 0
            && tree.root != 0,
{
    let index = lemma_first_wrong_node(tree.nodes@, tree.root, facts, 0);
}

proof fn lemma_wrong_outcome(outcomes: Seq<(u64, usize)>, count: nat, node: usize, from: int)
    requires
        0 <= from,
    ensures
        outcome_error(outcomes, count, node, from) matches Some(error) ==> match error {
            GameError::InvalidProbability { node: at } => at == node && exists|k: int|
                0 <= k < outcomes.len() && !(above_zero((#[trigger] outcomes[k]).0) && finite(
                    outcomes[k].0,
                )),
            GameError::InvalidChanceChild { node: at, child } => at == node && child >= count
                && exists|k: int| 0 <= k < outcomes.len() && (#[trigger] outcomes[k]).1 == child,
            _ => false,
        },
    decreases outcomes.len() - from,
{
    if from < outcomes.len() {
        lemma_wrong_outcome(outcomes, count, node, from + 1);
        assert(outcomes[from] == outcomes[from]);
    }
}

proof fn lemma_bad_child(children: Seq<usize>, count: nat, from: int)
    requires
        0 <= from,
    ensures
        first_bad_child(children, count, from) matches Some(child) ==> child >= count
            && children.contains(child),
        first_bad_child(children, count, from) is None ==> forall|k: int|
            from <= k < children.len() ==> (#[trigger] children[k]) < count,
    decreases children.len() - from,
{
    if from < children.len() {
        assert(children.contains(children[from]));
        lemma_bad_child(children, count, from + 1);
    }
}

/// The error of a node of a game for two tells what is wrong with it.
pub proof fn lemma_wrong_game_nodes(node: GameNode, count: nat, sum_ok: bool, id: usize)
    ensures
        game_node_error(node, count, sum_ok, id) matches Some(error) ==> match error {
            GameError::UnsupportedPlayer { player } => player >= 2
                && node is Decision && node->Decision_player == player,
            GameError::NoActions { node: at } => at == id
                && node is Decision && node->Decision_children@.len() == 0,
            GameError::InvalidChild { node: at, child } => at == id && child >= count
                && node is Decision && node->Decision_children@.contains(child),
            GameError::NoOutcomes { node: at } => at == id
                && node is Chance && node->Chance_outcomes@.len() == 0,
            GameError::InvalidProbability { node: at } => at == id && node is Chance,
            GameError::InvalidChanceChild { node: at, child } => at == id && node is Chance && child
                >= count,
            GameError::BadProbabilitySum { node: at } => at == id && node is Chance && !sum_ok,
            GameError::NonFiniteUtility { node: at } => at == id
                && node is Terminal && !(finite(node->Terminal_utility@[0]) && finite(
                node->Terminal_utility@[1],
            )),
            _ => false,
        },
{
    match node {
        GameNode::Decision { children, .. } => {
            lemma_bad_child(children@, count, 0);
        },
        GameNode::Chance { outcomes } => {
            lemma_wrong_outcome(outcomes@, count, id, 0);
        },
        GameNode::Terminal { .. } => {},
    }
}

/// The same of a game of several players.
pub proof fn lemma_wrong_multiway_nodes(
    node: MultiwayGameNode,
    players: usize,
    count: nat,
    sum_ok: bool,
    id: usize,
)
    ensures
        multiway_node_error(node, players, count, sum_ok, id) matches Some(error) ==> match error {
            MultiwayError::PlayerOutside { node: at, player, players: seats } => at == id && seats
                == players && player >= players
                && node is Decision && node->Decision_player == player,
            MultiwayError::UtilityLength { node: at, length, players: seats } => at == id && seats
                == players && node is Terminal && node->Terminal_utility@.len() != players && length
                == node->Terminal_utility@.len() as usize,
            MultiwayError::Node { error: GameError::NoActions { node: at } } => at == id
                && node is Decision && node->Decision_children@.len() == 0,
            MultiwayError::Node { error: GameError::InvalidChild { node: at, child } } => at == id
                && child >= count && node is Decision,
            MultiwayError::Node { error: GameError::NoOutcomes { node: at } } => at == id
                && node is Chance && node->Chance_outcomes@.len() == 0,
            MultiwayError::Node { error: GameError::InvalidProbability { node: at } } => at == id
                && node is Chance,
            MultiwayError::Node { error: GameError::InvalidChanceChild { node: at, child } } => at
                == id && node is Chance && child >= count,
            MultiwayError::Node { error: GameError::BadProbabilitySum { node: at } } => at == id
                && node is Chance && !sum_ok,
            MultiwayError::Node { error: GameError::NonFiniteUtility { node: at } } => at == id
                && node is Terminal,
            _ => false,
        },
        multiway_node_error(node, players, count, sum_ok, id) is None ==> match node {
            MultiwayGameNode::Decision { player, infoset, children } => player < players
                && children@.len() > 0 && forall|k: int|
                0 <= k < children@.len() ==> (#[trigger] children@[k]) < count,
            MultiwayGameNode::Chance { outcomes } => outcomes@.len() > 0 && sum_ok,
            MultiwayGameNode::Terminal { utility } => utility@.len() == players && forall|p: int|
                0 <= p < players ==> finite(#[trigger] utility@[p]),
        },
{
    match node {
        MultiwayGameNode::Decision { children, .. } => {
            lemma_bad_child(children@, count, 0);
        },
        MultiwayGameNode::Chance { outcomes } => {
            lemma_wrong_outcome(outcomes@, count, id, 0);
        },
        MultiwayGameNode::Terminal { .. } => {},
    }
}

proof fn lemma_wrong_label(tree: GameTree, node: TreeNode, from: int)
    requires
        0 <= from,
    ensures
        label_error(tree, node, from) matches Some(error) ==> match error {
            CompileError::MissingAction { node: id, child } => id == node.id
                && node.children@.contains(child)
                && tree.nodes@[child as int].action_from_parent is None,
            CompileError::DuplicateAction { node: id, action } => id == node.id && exists|
                j: int,
                k: int,
            |
                #![trigger node.children@[j], node.children@[k]]
                0 <= j < k < node.children@.len()
                    && tree.nodes@[node.children@[j] as int].action_from_parent == Some(action)
                    && tree.nodes@[node.children@[k] as int].action_from_parent == Some(action),
            _ => false,
        },
    decreases node.children@.len() - from,
{
    if from < node.children@.len() {
        lemma_wrong_label(tree, node, from + 1);
        assert(node.children@.contains(node.children@[from]));
        if let Some(CompileError::DuplicateAction { node: id, action }) = edge_error(
            tree,
            node,
            from,
        ) {
            let j = choose|j: int|
                0 <= j < from && tree.nodes@[(#[trigger] node.children@[j])
                    as int].action_from_parent == Some(action);
            assert(tree.nodes@[node.children@[from] as int].action_from_parent == Some(action));
        }
    }
}

/// What keeps a node from being copied is told as it is: the board before the outcomes,
/// the leaf or the decision.
pub proof fn lemma_why_not_copied<P: MultiwayTerminalPayoff>(
    tree: GameTree,
    at: usize,
    hands: Seq<Combo>,
    payoff: P,
)
    ensures
        ({
            let node = tree.nodes@[at as int];
            let board = node.state.board@;
            copy_problem(tree, at, hands, payoff) matches Some(error) ==> match error {
                CompileError::Cards(fault) => first_card_error(board, 0) == Some(fault)
                    || first_card_error(board, 0) is None && node.chance is Some
                    && outcome_card_error(node.chance->Some_0.outcomes@, 0) == Some(fault),
                CompileError::BoardConflict { node: id } => id == node.id && hands_mask(hands)
                    & cards_mask(board) != 0,
                CompileError::NoLegalOutcomes { node: id } => id == node.id && node.chance is Some
                    && open_outcomes(node, hands_mask(hands)).len() == 0,
                CompileError::RoundComplete { node: id } => id == node.id && node.chance is None
                    && node.leaf is Some && node.leaf->Some_0 is RoundComplete,
                CompileError::Payoff(fault) => node.leaf is Some && payoff.spec_utility(node)
                    == Err::<Seq<u64>, PayoffError>(fault),
                CompileError::NoActor { node: id } => id == node.id && node.leaf is None
                    && node.state.actor is None,
                CompileError::PlayerOutside { node: id, player } => id == node.id && node.leaf
                    is None && node.state.actor == Some(player) && player >= hands.len(),
                CompileError::NoActions { node: id } => id == node.id && node.leaf is None
                    && node.children@.len() == 0,
                CompileError::MissingAction { node: id, child } => id == node.id
                    && node.children@.contains(child)
                    && tree.nodes@[child as int].action_from_parent is None,
                CompileError::DuplicateAction { node: id, action } => id == node.id,
                _ => false,
            }
        }),
{
    lemma_wrong_label(tree, tree.nodes@[at as int], 0);
}

/// What keeps a walk from entering a public node is told as it is.
pub proof fn lemma_why_not_entered(tree: GameTree, hands: Seq<Combo>, node: usize)
    ensures
        public_error(tree, hands, node) matches Some(error) ==> match error {
            ArenaError::UnknownNode { node: at } => at == node && node >= tree.nodes@.len(),
            ArenaError::RoundComplete { node: at } => at == node && tree.nodes@[node as int].leaf
                is Some && tree.nodes@[node as int].leaf->Some_0 is RoundComplete,
            ArenaError::Cards(fault) => tree.nodes@[node as int].chance is Some
                && outcome_card_error(tree.nodes@[node as int].chance->Some_0.outcomes@, 0)
                == Some(fault),
            ArenaError::NoLegalOutcomes { node: at } => at == node
                && tree.nodes@[node as int].chance is Some,
            ArenaError::NoActor { node: at } => at == node && tree.nodes@[node as int].state.actor
                is None,
            ArenaError::NoActions { node: at } => at == node && tree.nodes@[node
                as int].children@.len() == 0,
            ArenaError::PlayerOutside { node: at, player } => at == node && tree.nodes@[node
                as int].state.actor == Some(player) && player >= hands.len(),
            _ => false,
        },
{
}

/// What keeps a node from being settled is told as it is.
pub proof fn lemma_why_not_settled(node: TreeNode, winners: nat, first: Option<PayoffError>)
    requires
        first is Some ==> first->Some_0 is SeatCount || first->Some_0 is SeatMissing,
    ensures
        first is Some ==> settlement_error(node, winners, first) == first,
        first is None ==> (settlement_error(node, winners, first) == Some(PayoffError::NotTerminal)
            <==> node.leaf is None),
        first is None ==> (settlement_error(node, winners, first) == Some(
            PayoffError::RoundComplete,
        ) <==> node.leaf is Some && node.leaf->Some_0 is RoundComplete),
{
}

/// Where outcomes cannot be had, the error tells why.
pub proof fn lemma_why_no_outcomes(
    state: GameState,
    next_street: Street,
    config: ChanceConfig,
    result: Result<Vec<crate::tree::ChanceOutcome>, ChanceError>,
)
    requires
        call_ensures(chance_outcomes, (&state, next_street, &config), result),
        config.spec_explicit_for(next_street) is None,
    ensures
        result matches Err(error) ==> match error {
            ChanceError::NotConfigured { next_street: street } => street == next_street
                && !config.enumerate_exact,
            ChanceError::Board { error: fault } => first_card_error(state.board@, 0) == Some(fault),
            ChanceError::UnsupportedWidth { width } => width == 0 && state.street is River,
            ChanceError::Limit { limit } => limit == config.max_outcomes_per_node && limit > 0
                && choices(
                remaining_cards(state.board@, config.dead_cards),
                state.street.spec_required(),
            ).len() > limit,
            ChanceError::NoOutcomes => choices(
                remaining_cards(state.board@, config.dead_cards),
                state.street.spec_required(),
            ).len() == 0,
            _ => false,
        },
{
}

/// The error of an entry of a checkpoint tells what is wrong with it.
pub proof fn lemma_wrong_entries(entries: Seq<InfoSetCheckpoint>, players: usize, index: int)
    requires
        0 <= index < entries.len(),
    ensures
        ({
            let entry = entries[index];
            entry_error(entries, players, index) matches Some(error) ==> match error {
                SolverError::InvalidPlayer { player } => player == entry.player && player
                    >= players,
                SolverError::DuplicateInfoSet { player, infoset } => player == entry.player
                    && infoset == entry.infoset && exists|j: int|
                    0 <= j < index && (#[trigger] entries[j]).player == player
                        && entries[j].infoset == infoset,
                SolverError::InvalidActionVectors { player, infoset } => player == entry.player
                    && infoset == entry.infoset && (entry.regret_sum@.len() == 0
                    || entry.regret_sum@.len() != entry.strategy_sum@.len()),
                SolverError::InvalidValues { player, infoset } => player == entry.player && infoset
                    == entry.infoset && !(crate::checkpoint::all_usable(entry.regret_sum@)
                    && crate::checkpoint::all_usable(entry.strategy_sum@)),
                _ => false,
            }
        }),
{
    let entry = entries[index];
    if crate::checkpoint::repeats(entries, index) {
        let j = choose|j: int| 0 <= j < index && (#[trigger] entries[j]).key() == entry.key();
        assert(entries[j].player == entry.player && entries[j].infoset == entry.infoset);
    }
}

/// The error of a checkpoint of a game of several players tells what is wrong with it.
pub proof fn lemma_wrong_multiway_checkpoints(checkpoint: MultiwaySolverCheckpoint)
    ensures
        multiway_checkpoint_error(checkpoint) matches Some(error) ==> match error {
            MultiwaySolverError::UnsupportedVersion { version } => version
                == checkpoint.format_version && version != 1,
            MultiwaySolverError::TooFewPlayers => checkpoint.player_count < 3,
            MultiwaySolverError::MissingRngState => checkpoint.rng_state is None
                || checkpoint.rng_state == Some(0u64),
            MultiwaySolverError::InfoSets(_) => true,
            _ => false,
        },
{
}

/// What keeps a checkpoint from being resumed with a game is told as it is.
pub proof fn lemma_why_not_resumed(
    game: MultiwayStaticGame,
    checkpoint: MultiwaySolverCheckpoint,
    config_fingerprint: u64,
)
    ensures
        multiway_resume_error(game, checkpoint, config_fingerprint) matches Some(error)
            ==> match error {
            MultiwaySolverError::PlayerCountMismatch { written_for, players } => written_for
                == checkpoint.player_count && players == game.player_count && written_for
                != players,
            MultiwaySolverError::GameMismatch => checkpoint.game_fingerprint
                != game.spec_fingerprint(),
            MultiwaySolverError::ConfigMismatch => checkpoint.config_fingerprint
                != config_fingerprint,
            MultiwaySolverError::InfoSets(_) => true,
            _ => false,
        },
{
}

/// The error of an entry of a batch checkpoint tells what is wrong with it.
pub proof fn lemma_wrong_batch_entries(
    entries: Seq<MultiwayBatchInfoSetCheckpoint>,
    players: usize,
    index: int,
)
    requires
        0 <= index < entries.len(),
    ensures
        ({
            let entry = entries[index];
            batch_entry_error(entries, players, index) matches Some(error) ==> match error {
                BatchCheckpointError::InvalidPlayer { player } => player == entry.player && player
                    >= players,
                BatchCheckpointError::InvalidActionVectors { player, public_node } => player
                    == entry.player && public_node == entry.public_node && (entry.action_count == 0
                    || entry.regret_sum@.len() != entry.action_count || entry.strategy_sum@.len()
                    != entry.action_count),
                BatchCheckpointError::DuplicateInfoSet => exists|j: int|
                    0 <= j < index && crate::laws::batches::same_infoset(
                        #[trigger] entries[j],
                        entry,
                    ),
                BatchCheckpointError::InvalidValues => !(crate::checkpoint::all_usable(
                    entry.regret_sum@,
                ) && crate::checkpoint::all_usable(entry.strategy_sum@)),
                _ => false,
            }
        }),
{
    let entry = entries[index];
    if crate::batch_store::batch_repeats(entries, index) {
        let j = choose|j: int| 0 <= j < index && (#[trigger] entries[j]).key() == entry.key();
        let left = entries[j].private_cards@;
        let right = entry.private_cards@;
        assert(256 * left[0] + left[1] == 256 * right[0] + right[1]);
        assert(crate::laws::batches::same_infoset(entries[j], entry));
    }
}

/// The error of a batch checkpoint tells what is wrong with it.
pub proof fn lemma_wrong_batch_checkpoints(checkpoint: MultiwayHoldemBatchCheckpoint)
    ensures
        batch_checkpoint_error(checkpoint) == Some(BatchCheckpointError::ZeroAttemptLimit)
            ==> checkpoint.max_private_attempts == 0,
        batch_checkpoint_error(checkpoint) == Some(BatchCheckpointError::ZeroRngState)
            ==> checkpoint.traversal_rng_state == 0 || checkpoint.private_rng_state == 0,
        batch_checkpoint_error(checkpoint) matches Some(
            BatchCheckpointError::PlayerCount { players },
        ) ==> players == checkpoint.player_count && !(3 <= players <= 8),
        batch_checkpoint_error(checkpoint) matches Some(
            BatchCheckpointError::UnsupportedVersion { version },
        ) ==> version == checkpoint.format_version,
{
    lemma_batch_entry_errors(checkpoint, 0);
}

proof fn lemma_batch_entry_errors(checkpoint: MultiwayHoldemBatchCheckpoint, from: int)
    requires
        0 <= from,
    ensures
        crate::batch_store::batch_entries_error(
            checkpoint.infosets@,
            checkpoint.player_count,
            from,
        ) matches Some(error) ==> error is InvalidPlayer || error is InvalidActionVectors || error
            is DuplicateInfoSet || error is InvalidValues,
    decreases checkpoint.infosets@.len() - from,
{
    if from < checkpoint.infosets@.len() {
        lemma_batch_entry_errors(checkpoint, from + 1);
    }
}

/// The error of counters names the list that is not of the table's size.
pub proof fn lemma_wrong_counters(metrics: BatchMetricsView, players: usize)
    ensures
        dimension_error(metrics, players) matches Some(error) ==> {
            let list = match error.field {
                MetricsField::TraverserUpdates => metrics.traverser_updates_by_player,
                MetricsField::SampledPrivateDeals => metrics.sampled_private_deals_by_player,
                MetricsField::PrivateSamplingAttempts => metrics.private_sampling_attempts_by_player,
                MetricsField::InfosetVisits => metrics.infoset_visits_by_player,
            };
            &&& error.expected == players
            &&& error.players == list.len() as usize
            &&& list.len() != 0
            &&& list.len() != players
        },
{
}

/// What keeps an information set from being reported is told as it is.
pub proof fn lemma_why_not_reported(tree: GameTree, entry: (Key, InfoSetData))
    ensures
        row_error(tree, entry) matches Some(error) ==> match error {
            BatchReportError::UnknownNode { node } => node == entry.0.middle as usize && node
                >= tree.nodes@.len(),
            BatchReportError::MissingAction { node } => node == entry.0.middle as usize && node
                < tree.nodes@.len(),
            BatchReportError::ActionCountMismatch { player, node } => player == entry.0.major
                as usize && node == entry.0.middle as usize && tree.nodes@[node
                as int].children@.len() != entry.1.regret_sum@.len(),
        },
{
}

/// What keeps a job from going on is told as it is.
pub proof fn lemma_why_a_job_stops(
    manifest: MultiwayBatchJobManifest,
    job_id: Seq<char>,
    config: MultiwayBatchJobConfig,
    checkpoint: MultiwayHoldemBatchCheckpoint,
)
    ensures
        existing_error(manifest, job_id, config, checkpoint) matches Some(error) ==> match error {
            JobError::OtherJob => manifest.job_id@ != job_id,
            JobError::ConfigMismatch => manifest.config.worker_count != config.worker_count
                || manifest.config.reduction_batch_size != config.reduction_batch_size
                || manifest.config.checkpoint_interval != config.checkpoint_interval
                || manifest.config.max_private_attempts != config.max_private_attempts
                || manifest.config.keep_checkpoints != config.keep_checkpoints,
            JobError::SolverIterationMismatch => manifest.completed_iterations
                != checkpoint.iterations,
            JobError::ContextMismatch => manifest.player_count != checkpoint.player_count
                || manifest.tree_fingerprint != checkpoint.tree_fingerprint
                || manifest.range_fingerprint != checkpoint.range_fingerprint
                || manifest.dead_cards != checkpoint.dead_cards || manifest.config_fingerprint
                != checkpoint.config_fingerprint,
            _ => false,
        },
        manifest_error(manifest) == Some(JobError::PastTarget) ==> manifest.completed_iterations
            > manifest.config.target_iterations,
        manifest_error(manifest) == Some(JobError::NoCheckpoint) ==> manifest.checkpoint_sequence
            == 0 || manifest.latest_checkpoint is None,
        manifest_error(manifest) == Some(JobError::EmptyJobId) ==> crate::text::is_blank(
            manifest.job_id@,
        ),
{
}

/// What keeps a report from being made is told as it is: the labels of a decision are
/// missing, none, or not those of the first decision of its information set.
pub proof fn lemma_wrong_layouts(compiled: crate::holdem::CompiledHoldemGame, from: int) -> (at: int)
    requires
        0 <= from <= compiled.game.nodes@.len() <= usize::MAX,
    ensures
        layout_error(compiled, from) matches Some(error) ==> {
            &&& from <= at < compiled.game.nodes@.len()
            &&& compiled.game.nodes@[at] matches GameNode::Decision { player, infoset, children }
            &&& match error {
                ReportError::MissingActions { node } => node == at && at >= compiled.actions@.len(),
                ReportError::NoActions { player: p, infoset: i } => p == player && i == infoset
                    && compiled.actions@[at]@.len() == 0,
                ReportError::InconsistentActions { player: p, infoset: i } => p == player && i
                    == infoset,
                ReportError::InconsistentMetadata { player: p, infoset: i } => p == player && i
                    == infoset,
                _ => false,
            }
        },
    decreases compiled.game.nodes@.len() - from,
{
    if from >= compiled.game.nodes@.len() {
        from
    } else {
        let rest = lemma_wrong_layouts(compiled, from + 1);
        if layout_error(compiled, from) == layout_error(compiled, from + 1) && layout_error(
            compiled,
            from + 1,
        ) is Some {
            rest
        } else {
            from
        }
    }
}

} // verus!
