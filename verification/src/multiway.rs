//! Static games of three and more players, and checkpoints of their solver.
use vstd::prelude::*;

use crate::bits::{all_finite, finite, is_above_zero, is_finite};
use crate::checkpoint::{
    action_counts, check_fit, checkpoint_entries, checkpoint_views, copy_words, count_error,
    entries_error, entry_views, fit_error, fits_game, infoset_keys, lemma_accepted_entries_fit,
    lemma_written_entries_fit, restore_entries, restored, table_view, validate_entries,
    DecisionKey, InfoSetCheckpoint, InfoSetData, SolverError,
};
use crate::game::{
    bad_child, copy_edges, edge_encoding, first_bad_child, hash_edge_list, lemma_edges_readable, outcome_error,
    GameError, InfoSetId,
};
use crate::action_abstraction::{hash_words, word_encoding};
use crate::hash::{
    concat_words, fnv_words, lemma_concat_front, lemma_concat_step, lemma_list_readable,
    lemma_same_front, lemma_vec_len, list_words, readable, Fingerprint, FNV_OFFSET,
};
use crate::multiway_runs::first_state;
use crate::reach::{
    acyclic_from, all_reached, check_reachable, edge_lists, edges_ok, leads, on_cycle, reach_error,
    ReachError,
};
use crate::rng::{seeded_state, XorShift64};
use crate::table::Table;
use crate::tree::copy_ids;
use crate::tree_builder::{hash_ids, id_encoding};
use crate::tree_fingerprint::{lemma_equal_items, lemma_ids_readable, lemma_regroup};

verus! {

pub type MultiwayNodeId = usize;

/// A node; probabilities and utilities are IEEE-754 bits.
#[derive(Debug)]
pub enum MultiwayGameNode {
    Decision { player: usize, infoset: InfoSetId, children: Vec<MultiwayNodeId> },
    Chance { outcomes: Vec<(u64, MultiwayNodeId)> },
    Terminal { utility: Vec<u64> },
}

#[derive(Debug)]
pub struct MultiwayStaticGame {
    pub player_count: usize,
    pub root: MultiwayNodeId,
    pub nodes: Vec<MultiwayGameNode>,
}

impl MultiwayGameNode {
    pub open spec fn same(self, other: Self) -> bool {
        match (self, other) {
            (
                MultiwayGameNode::Decision { player, infoset, children },
                MultiwayGameNode::Decision { player: actor, infoset: set, children: targets },
            ) => player == actor && infoset == set && children@ == targets@,
            (
                MultiwayGameNode::Chance { outcomes },
                MultiwayGameNode::Chance { outcomes: edges },
            ) => outcomes@ == edges@,
            (
                MultiwayGameNode::Terminal { utility: left },
                MultiwayGameNode::Terminal { utility: right },
            ) => left@ == right@,
            _ => false,
        }
    }
}

impl Clone for MultiwayGameNode {
    fn clone(&self) -> (copy: Self)
        ensures
            copy.same(*self),
    {
        match self {
            MultiwayGameNode::Decision { player, infoset, children } => MultiwayGameNode::Decision {
                player: *player,
                infoset: *infoset,
                children: copy_ids(children),
            },
            MultiwayGameNode::Chance { outcomes } => MultiwayGameNode::Chance {
                outcomes: copy_edges(outcomes),
            },
            MultiwayGameNode::Terminal { utility } => MultiwayGameNode::Terminal {
                utility: copy_words(utility),
            },
        }
    }
}

impl MultiwayStaticGame {
    pub open spec fn same(self, other: Self) -> bool {
        &&& self.player_count == other.player_count
        &&& self.root == other.root
        &&& self.nodes@.len() == other.nodes@.len()
        &&& forall|i: int|
            0 <= i < self.nodes@.len() ==> (#[trigger] self.nodes@[i]).same(other.nodes@[i])
    }
}

impl Clone for MultiwayStaticGame {
    fn clone(&self) -> (copy: Self)
        ensures
            copy.same(*self),
    {
        let mut nodes: Vec<MultiwayGameNode> = Vec::new();
        let mut index: usize = 0;
        while index < self.nodes.len()
            invariant
                index <= self.nodes@.len(),
                nodes@.len() == index,
                forall|i: int| 0 <= i < index ==> (#[trigger] nodes@[i]).same(self.nodes@[i]),
            decreases self.nodes.len() - index,
        {
            nodes.push(self.nodes[index].clone());
            index = index + 1;
        }
        MultiwayStaticGame { player_count: self.player_count, root: self.root, nodes }
    }
}

#[derive(Debug, Clone, Copy, PartialEq, Eq, Structural)]
pub enum MultiwayError {
    TooFewPlayers { players: usize },
    NoNodes,
    RootOutOfRange,
    PlayerOutside { node: usize, player: usize, players: usize },
    UtilityLength { node: usize, length: usize, players: usize },
    Node { error: GameError },
    Cycle { node: usize },
    Unreachable,
}

/// What is wrong with one node.
pub open spec fn multiway_node_error(
    node: MultiwayGameNode,
    players: usize,
    count: nat,
    sum_ok: bool,
    id: usize,
) -> Option<MultiwayError> {
    match node {
        MultiwayGameNode::Decision { player, children, .. } => if player >= players {
            Some(MultiwayError::PlayerOutside { node: id, player, players })
        } else if children@.len() == 0 {
            Some(MultiwayError::Node { error: GameError::NoActions { node: id } })
        } else {
            match first_bad_child(children@, count, 0) {
                Some(child) => Some(
                    MultiwayError::Node { error: GameError::InvalidChild { node: id, child } },
                ),
                None => None,
            }
        },
        MultiwayGameNode::Chance { outcomes } => if outcomes@.len() == 0 {
            Some(MultiwayError::Node { error: GameError::NoOutcomes { node: id } })
        } else {
            match outcome_error(outcomes@, count, id, 0) {
                Some(error) => Some(MultiwayError::Node { error }),
                None => if sum_ok {
                    None
                } else {
                    Some(MultiwayError::Node { error: GameError::BadProbabilitySum { node: id } })
                },
            }
        },
        MultiwayGameNode::Terminal { utility } => if utility@.len() != players {
            Some(
                MultiwayError::UtilityLength {
                    node: id,
                    length: utility@.len() as usize,
                    players,
                },
            )
        } else if !all_finite(utility@) {
            Some(MultiwayError::Node { error: GameError::NonFiniteUtility { node: id } })
        } else {
            None
        },
    }
}

pub open spec fn multiway_nodes_error(
    nodes: Seq<MultiwayGameNode>,
    players: usize,
    sums_ok: Seq<bool>,
    from: int,
) -> Option<MultiwayError>
    decreases nodes.len() - from,
{
    if from >= nodes.len() {
        None
    } else {
        match multiway_node_error(nodes[from], players, nodes.len(), sums_ok[from], from as usize) {
            Some(error) => Some(error),
            None => multiway_nodes_error(nodes, players, sums_ok, from + 1),
        }
    }
}

/// Where a node leads.
pub open spec fn successors(node: MultiwayGameNode) -> Seq<usize> {
    match node {
        MultiwayGameNode::Decision { children, .. } => children@,
        MultiwayGameNode::Chance { outcomes } => outcomes@.map(
            |i: int, outcome: (u64, usize)| outcome.1,
        ),
        MultiwayGameNode::Terminal { .. } => Seq::empty(),
    }
}

pub open spec fn graph_of(nodes: Seq<MultiwayGameNode>) -> Seq<Seq<usize>> {
    nodes.map(|i: int, node: MultiwayGameNode| successors(node))
}

/// The first thing wrong with a game, short of cycles and unreachable nodes.
pub open spec fn multiway_structure_error(
    game: MultiwayStaticGame,
    sums_ok: Seq<bool>,
) -> Option<MultiwayError> {
    if game.player_count < 3 {
        Some(MultiwayError::TooFewPlayers { players: game.player_count })
    } else if game.nodes@.len() == 0 {
        Some(MultiwayError::NoNodes)
    } else if game.root >= game.nodes@.len() {
        Some(MultiwayError::RootOutOfRange)
    } else {
        multiway_nodes_error(game.nodes@, game.player_count, sums_ok, 0)
    }
}

/// What validation says of a game. A cycle is named by the first node that a
/// depth-first walk meets again on its own way.
pub open spec fn multiway_verdict(
    game: MultiwayStaticGame,
    sums_ok: Seq<bool>,
    result: Result<(), MultiwayError>,
) -> bool {
    let graph = graph_of(game.nodes@);
    match multiway_structure_error(game, sums_ok) {
        Some(error) => result == Err::<(), MultiwayError>(error),
        None => match result {
            Ok(_) => acyclic_from(graph, game.root) && all_reached(graph, game.root),
            Err(MultiwayError::Cycle { node }) => {
                &&& reach_error(graph, game.root) == Some(ReachError::Cycle { node })
                &&& leads(graph, game.root, node)
                &&& on_cycle(graph, node)
            },
            Err(MultiwayError::Unreachable) => acyclic_from(graph, game.root) && !all_reached(
                graph,
                game.root,
            ),
            Err(_) => false,
        },
    }
}

impl MultiwayStaticGame {
    /// The game has at least three players, its nodes are in order, and its
    /// root leads to all of them and to no cycle.
    pub open spec fn valid(self, sums_ok: Seq<bool>) -> bool {
        &&& multiway_structure_error(self, sums_ok) is None
        &&& acyclic_from(graph_of(self.nodes@), self.root)
        &&& all_reached(graph_of(self.nodes@), self.root)
    }

    pub open spec fn spec_fingerprint(self) -> u64 {
        fnv_words(FNV_OFFSET, multiway_words(self))
    }

    /// Makes a valid game. `sums_ok[i]` says whether the probabilities of chance
    /// node `i` sum to one.
    pub fn new(
        player_count: usize,
        root: MultiwayNodeId,
        nodes: Vec<MultiwayGameNode>,
        sums_ok: &[bool],
    ) -> (result: Result<Self, MultiwayError>)
        requires
            sums_ok@.len() == nodes@.len(),
        ensures
            ({
                let game = MultiwayStaticGame { player_count, root, nodes };
                match result {
                    Ok(made) => made == game && game.valid(sums_ok@),
                    Err(error) => !game.valid(sums_ok@) && multiway_verdict(
                        game,
                        sums_ok@,
                        Err(error),
                    ),
                }
            }),
    {
        let game = MultiwayStaticGame { player_count, root, nodes };
        match game.validate(sums_ok) {
            Ok(_) => Ok(game),
            Err(error) => Err(error),
        }
    }

    pub fn player_count(&self) -> (players: usize)
        ensures
            players == self.player_count,
    {
        self.player_count
    }

    pub fn root(&self) -> (root: MultiwayNodeId)
        ensures
            root == self.root,
    {
        self.root
    }

    pub fn node(&self, id: MultiwayNodeId) -> (node: Option<&MultiwayGameNode>)
        ensures
            node is Some <==> id < self.nodes@.len(),
            node matches Some(found) ==> *found == self.nodes@[id as int],
    {
        if id < self.nodes.len() {
            Some(&self.nodes[id])
        } else {
            None
        }
    }

    pub fn nodes(&self) -> (nodes: &[MultiwayGameNode])
        ensures
            nodes@ == self.nodes@,
    {
        self.nodes.as_slice()
    }

    pub fn fingerprint(&self) -> (hash: u64)
        ensures
            hash == self.spec_fingerprint(),
    {
        multiway_game_fingerprint(self)
    }

    pub fn validate(&self, sums_ok: &[bool]) -> (result: Result<(), MultiwayError>)
        requires
            sums_ok@.len() == self.nodes@.len(),
        ensures
            multiway_verdict(*self, sums_ok@, result),
            result is Ok <==> self.valid(sums_ok@),
    {
        if self.player_count < 3 {
            return Err(MultiwayError::TooFewPlayers { players: self.player_count });
        }
        if self.nodes.len() == 0 {
            return Err(MultiwayError::NoNodes);
        }
        if self.root >= self.nodes.len() {
            return Err(MultiwayError::RootOutOfRange);
        }
        let mut id: usize = 0;
        while id < self.nodes.len()
            invariant
                id <= self.nodes@.len(),
                sums_ok@.len() == self.nodes@.len(),
                multiway_structure_error(*self, sums_ok@) == multiway_nodes_error(
                    self.nodes@,
                    self.player_count,
                    sums_ok@,
                    id as int,
                ),
            decreases self.nodes.len() - id,
        {
            match check_multiway_node(
                &self.nodes[id],
                self.player_count,
                self.nodes.len(),
                sums_ok[id],
                id,
            ) {
                Ok(_) => {},
                Err(error) => {
                    return Err(error);
                },
            }
            id = id + 1;
        }
        let edges = self.edges();
        proof {
            lemma_edges_in_range(*self, sums_ok@);
            assert(edge_lists(edges@) == graph_of(self.nodes@));
        }
        match check_reachable(&edges, self.root) {
            Ok(_) => Ok(()),
            Err(ReachError::Cycle { node }) => {
                assert(!acyclic_from(graph_of(self.nodes@), self.root));
                Err(MultiwayError::Cycle { node })
            },
            Err(ReachError::Unreachable) => Err(MultiwayError::Unreachable),
        }
    }

    /// Where each node leads.
    fn edges(&self) -> (edges: Vec<Vec<usize>>)
        ensures
            edge_lists(edges@) == graph_of(self.nodes@),
    {
        let mut edges: Vec<Vec<usize>> = Vec::new();
        let mut id: usize = 0;
        while id < self.nodes.len()
            invariant
                id <= self.nodes@.len(),
                edge_lists(edges@) == graph_of(self.nodes@).take(id as int),
            decreases self.nodes.len() - id,
        {
            let list = successor_list(&self.nodes[id]);
            let ghost before = edges@;
            edges.push(list);
            assert(edge_lists(edges@) =~= edge_lists(before).push(list@));
            assert(graph_of(self.nodes@).take(id as int + 1) =~= graph_of(self.nodes@).take(
                id as int,
            ).push(successors(self.nodes@[id as int])));
            id = id + 1;
        }
        assert(graph_of(self.nodes@).take(id as int) =~= graph_of(self.nodes@));
        edges
    }
}

fn successor_list(node: &MultiwayGameNode) -> (list: Vec<usize>)
    ensures
        list@ == successors(*node),
{
    match node {
        MultiwayGameNode::Decision { children, .. } => {
            let list = children.clone();
            assert(list@ =~= children@);
            list
        },
        MultiwayGameNode::Chance { outcomes } => {
            let mut list: Vec<usize> = Vec::new();
            let mut k: usize = 0;
            while k < outcomes.len()
                invariant
                    k <= outcomes@.len(),
                    *node == (MultiwayGameNode::Chance { outcomes: *outcomes }),
                    list@ == successors(*node).take(k as int),
                decreases outcomes.len() - k,
            {
                list.push(outcomes[k].1);
                k = k + 1;
                assert(list@ =~= successors(*node).take(k as int));
            }
            assert(successors(*node).take(k as int) =~= successors(*node));
            list
        },
        MultiwayGameNode::Terminal { .. } => Vec::new(),
    }
}

/// Checks the children of a node.
pub fn validate_child_ids(
    node_id: MultiwayNodeId,
    children: &Vec<MultiwayNodeId>,
    node_count: usize,
) -> (result: Result<(), MultiwayError>)
    ensures
        match first_bad_child(children@, node_count as nat, 0) {
            Some(child) => result == Err::<(), MultiwayError>(
                MultiwayError::Node { error: GameError::InvalidChild { node: node_id, child } },
            ),
            None => result is Ok,
        },
{
    match bad_child(children, node_count) {
        Some(child) => Err(
            MultiwayError::Node { error: GameError::InvalidChild { node: node_id, child } },
        ),
        None => Ok(()),
    }
}

fn values_finite(values: &Vec<u64>) -> (yes: bool)
    ensures
        yes == all_finite(values@),
{
    let mut index: usize = 0;
    while index < values.len()
        invariant
            index <= values@.len(),
            forall|i: int| 0 <= i < index ==> finite(#[trigger] values@[i]),
        decreases values.len() - index,
    {
        if !is_finite(values[index]) {
            assert(!finite(values@[index as int]));
            return false;
        }
        index = index + 1;
    }
    true
}

fn check_multiway_node(
    node: &MultiwayGameNode,
    players: usize,
    count: usize,
    sum_ok: bool,
    id: usize,
) -> (result: Result<(), MultiwayError>)
    ensures
        match result {
            Ok(_) => multiway_node_error(*node, players, count as nat, sum_ok, id) is None,
            Err(error) => multiway_node_error(*node, players, count as nat, sum_ok, id) == Some(
                error,
            ),
        },
{
    match node {
        MultiwayGameNode::Decision { player, children, .. } => {
            if *player >= players {
                return Err(MultiwayError::PlayerOutside { node: id, player: *player, players });
            }
            if children.len() == 0 {
                return Err(MultiwayError::Node { error: GameError::NoActions { node: id } });
            }
            validate_child_ids(id, children, count)
        },
        MultiwayGameNode::Chance { outcomes } => {
            if outcomes.len() == 0 {
                return Err(MultiwayError::Node { error: GameError::NoOutcomes { node: id } });
            }
            let mut k: usize = 0;
            while k < outcomes.len()
                invariant
                    k <= outcomes@.len(),
                    outcome_error(outcomes@, count as nat, id, 0) == outcome_error(
                        outcomes@,
                        count as nat,
                        id,
                        k as int,
                    ),
                    outcomes@.len() > 0,
                    *node == (MultiwayGameNode::Chance { outcomes: *outcomes }),
                decreases outcomes.len() - k,
            {
                let (probability, child) = outcomes[k];
                if !is_above_zero(probability) || !is_finite(probability) {
                    return Err(
                        MultiwayError::Node { error: GameError::InvalidProbability { node: id } },
                    );
                }
                if child >= count {
                    return Err(
                        MultiwayError::Node {
                            error: GameError::InvalidChanceChild { node: id, child },
                        },
                    );
                }
                k = k + 1;
            }
            if !sum_ok {
                return Err(
                    MultiwayError::Node { error: GameError::BadProbabilitySum { node: id } },
                );
            }
            Ok(())
        },
        MultiwayGameNode::Terminal { utility } => {
            if utility.len() != players {
                return Err(
                    MultiwayError::UtilityLength { node: id, length: utility.len(), players },
                );
            }
            if !values_finite(utility) {
                return Err(
                    MultiwayError::Node { error: GameError::NonFiniteUtility { node: id } },
                );
            }
            Ok(())
        },
    }
}

proof fn lemma_bad_child_none(children: Seq<usize>, count: nat, from: int)
    requires
        0 <= from,
        first_bad_child(children, count, from) is None,
    ensures
        forall|k: int| from <= k < children.len() ==> #[trigger] children[k] < count,
    decreases children.len() - from,
{
    if from < children.len() {
        lemma_bad_child_none(children, count, from + 1);
    }
}

proof fn lemma_outcomes_in_range(outcomes: Seq<(u64, usize)>, count: nat, id: usize, from: int)
    requires
        0 <= from,
        outcome_error(outcomes, count, id, from) is None,
    ensures
        forall|k: int| from <= k < outcomes.len() ==> (#[trigger] outcomes[k]).1 < count,
    decreases outcomes.len() - from,
{
    if from < outcomes.len() {
        lemma_outcomes_in_range(outcomes, count, id, from + 1);
    }
}

proof fn lemma_nodes_in_order(
    nodes: Seq<MultiwayGameNode>,
    players: usize,
    sums_ok: Seq<bool>,
    from: int,
    index: int,
)
    requires
        0 <= from <= index < nodes.len(),
        multiway_nodes_error(nodes, players, sums_ok, from) is None,
    ensures
        multiway_node_error(
            nodes[index],
            players,
            nodes.len(),
            sums_ok[index],
            index as usize,
        ) is None,
    decreases index - from,
{
    if from < index {
        lemma_nodes_in_order(nodes, players, sums_ok, from + 1, index);
    }
}

proof fn lemma_edges_in_range(game: MultiwayStaticGame, sums_ok: Seq<bool>)
    requires
        multiway_structure_error(game, sums_ok) is None,
    ensures
        edges_ok(graph_of(game.nodes@)),
        game.root < graph_of(game.nodes@).len(),
{
    let nodes = game.nodes@;
    let graph = graph_of(nodes);
    assert forall|i: int, k: int| 0 <= i < graph.len() && 0 <= k < graph[i].len() implies (
    #[trigger] graph[i][k]) < graph.len() by {
        lemma_nodes_in_order(nodes, game.player_count, sums_ok, 0, i);
        match nodes[i] {
            MultiwayGameNode::Decision { children, .. } => {
                lemma_bad_child_none(children@, nodes.len(), 0);
                assert(graph[i][k] == children@[k]);
            },
            MultiwayGameNode::Chance { outcomes } => {
                lemma_outcomes_in_range(outcomes@, nodes.len(), i as usize, 0);
                assert(graph[i][k] == outcomes@[k].1);
            },
            MultiwayGameNode::Terminal { .. } => {},
        }
    }
}

/// The words of one node: a code for its kind, then its parts.
pub open spec fn multiway_node_words(node: MultiwayGameNode) -> Seq<u64> {
    match node {
        MultiwayGameNode::Decision { player, infoset, children } => seq![
            1u64,
            player as u64,
            infoset,
        ] + list_words(children@, id_encoding()),
        MultiwayGameNode::Chance { outcomes } => seq![2u64] + list_words(
            outcomes@,
            edge_encoding(),
        ),
        MultiwayGameNode::Terminal { utility } => seq![3u64] + list_words(
            utility@,
            word_encoding(),
        ),
    }
}

pub open spec fn multiway_node_encoding() -> spec_fn(MultiwayGameNode) -> Seq<u64> {
    |node: MultiwayGameNode| multiway_node_words(node)
}

pub open spec fn multiway_words(game: MultiwayStaticGame) -> Seq<u64> {
    seq![game.player_count as u64, game.root as u64] + list_words(
        game.nodes@,
        multiway_node_encoding(),
    )
}

fn hash_multiway_node(fingerprint: &mut Fingerprint, node: &MultiwayGameNode)
    requires
        old(fingerprint).wf(),
    ensures
        final(fingerprint).wf(),
        final(fingerprint).words@ == old(fingerprint).words@ + multiway_node_words(*node),
{
    match node {
        MultiwayGameNode::Decision { player, infoset, children } => {
            fingerprint.word(1);
            fingerprint.word(*player as u64);
            fingerprint.word(*infoset);
            hash_ids(fingerprint, children);
        },
        MultiwayGameNode::Chance { outcomes } => {
            fingerprint.word(2);
            hash_edge_list(fingerprint, outcomes);
        },
        MultiwayGameNode::Terminal { utility } => {
            fingerprint.word(3);
            hash_words(fingerprint, utility);
        },
    }
    assert(fingerprint.words@ =~= old(fingerprint).words@ + multiway_node_words(*node));
}

pub fn multiway_game_fingerprint(game: &MultiwayStaticGame) -> (hash: u64)
    ensures
        hash == game.spec_fingerprint(),
{
    let mut fingerprint = Fingerprint::new();
    fingerprint.word(game.player_count as u64);
    fingerprint.word(game.root as u64);
    fingerprint.word(game.nodes.len() as u64);
    let ghost start = seq![
        game.player_count as u64,
        game.root as u64,
        game.nodes@.len() as u64,
    ];
    let mut index: usize = 0;
    assert(game.nodes@.take(0) =~= Seq::<MultiwayGameNode>::empty());
    assert(fingerprint.words@ =~= start + concat_words(
        game.nodes@.take(0),
        multiway_node_encoding(),
    ));
    while index < game.nodes.len()
        invariant
            index <= game.nodes@.len(),
            fingerprint.wf(),
            fingerprint.words@ == start + concat_words(
                game.nodes@.take(index as int),
                multiway_node_encoding(),
            ),
        decreases game.nodes.len() - index,
    {
        proof {
            lemma_concat_step(game.nodes@, multiway_node_encoding(), index as int);
        }
        hash_multiway_node(&mut fingerprint, &game.nodes[index]);
        index = index + 1;
        assert(fingerprint.words@ =~= start + concat_words(
            game.nodes@.take(index as int),
            multiway_node_encoding(),
        ));
    }
    assert(game.nodes@.take(index as int) =~= game.nodes@);
    assert(fingerprint.words@ =~= multiway_words(*game));
    fingerprint.hash
}

pub const MULTIWAY_CHECKPOINT_FORMAT_VERSION: u32 = 1;

#[derive(Debug, Clone, Copy, PartialEq, Eq, Structural)]
pub enum MultiwayAlgorithm {
    ExternalSamplingMccfr,
}

pub type MultiwayInfoSetCheckpoint = InfoSetCheckpoint;

/// Counts of what sampling did.
#[derive(Debug, Clone, Copy, PartialEq, Eq, Structural)]
pub struct MultiwaySamplingMetrics {
    pub traverser_updates: u64,
    pub sampled_chance_nodes: u64,
    pub sampled_opponent_actions: u64,
    pub infoset_visits: u64,
}

impl Default for MultiwaySamplingMetrics {
    fn default() -> (metrics: Self)
        ensures
            metrics == (MultiwaySamplingMetrics {
                traverser_updates: 0,
                sampled_chance_nodes: 0,
                sampled_opponent_actions: 0,
                infoset_visits: 0,
            }),
    {
        MultiwaySamplingMetrics {
            traverser_updates: 0,
            sampled_chance_nodes: 0,
            sampled_opponent_actions: 0,
            infoset_visits: 0,
        }
    }
}

#[derive(Debug, Clone)]
pub struct MultiwaySolverCheckpoint {
    pub format_version: u32,
    pub algorithm: MultiwayAlgorithm,
    pub player_count: usize,
    pub game_fingerprint: u64,
    pub config_fingerprint: u64,
    pub iterations: u64,
    pub infosets: Vec<MultiwayInfoSetCheckpoint>,
    pub rng_state: Option<u64>,
    pub metrics: MultiwaySamplingMetrics,
}

#[derive(Debug, Clone, Copy, PartialEq, Eq, Structural)]
pub enum MultiwaySolverError {
    UnsupportedVersion { version: u32 },
    TooFewPlayers,
    MissingRngState,
    InfoSets(SolverError),
    Game(MultiwayError),
    PlayerCountMismatch { written_for: usize, players: usize },
    GameMismatch,
    ConfigMismatch,
}

pub open spec fn multiway_checkpoint_error(checkpoint: MultiwaySolverCheckpoint) -> Option<
    MultiwaySolverError,
> {
    if checkpoint.format_version != MULTIWAY_CHECKPOINT_FORMAT_VERSION {
        Some(MultiwaySolverError::UnsupportedVersion { version: checkpoint.format_version })
    } else if checkpoint.player_count < 3 {
        Some(MultiwaySolverError::TooFewPlayers)
    } else if !(checkpoint.rng_state matches Some(state) && state != 0) {
        Some(MultiwaySolverError::MissingRngState)
    } else {
        match entries_error(checkpoint.infosets@, checkpoint.player_count, 0) {
            Some(error) => Some(MultiwaySolverError::InfoSets(error)),
            None => None,
        }
    }
}

impl MultiwaySolverCheckpoint {
    pub fn validate(&self) -> (result: Result<(), MultiwaySolverError>)
        ensures
            match result {
                Ok(_) => multiway_checkpoint_error(*self) is None,
                Err(error) => multiway_checkpoint_error(*self) == Some(error),
            },
    {
        if self.format_version != MULTIWAY_CHECKPOINT_FORMAT_VERSION {
            return Err(MultiwaySolverError::UnsupportedVersion { version: self.format_version });
        }
        if self.player_count < 3 {
            return Err(MultiwaySolverError::TooFewPlayers);
        }
        match self.rng_state {
            Some(state) if state != 0 => {},
            _ => {
                return Err(MultiwaySolverError::MissingRngState);
            },
        }
        match validate_entries(&self.infosets, self.player_count) {
            Ok(_) => Ok(()),
            Err(error) => Err(MultiwaySolverError::InfoSets(error)),
        }
    }
}

/// What each node decides; nothing at chance nodes and leaves.
pub open spec fn multiway_decisions(nodes: Seq<MultiwayGameNode>) -> Seq<Option<DecisionKey>> {
    nodes.map(
        |i: int, node: MultiwayGameNode|
            match node {
                MultiwayGameNode::Decision { player, infoset, children } => Some(
                    DecisionKey { player, infoset, actions: children@.len() as usize },
                ),
                _ => None,
            },
    )
}

fn list_multiway_decisions(nodes: &[MultiwayGameNode]) -> (decisions: Vec<Option<DecisionKey>>)
    ensures
        decisions@ == multiway_decisions(nodes@),
{
    let mut decisions: Vec<Option<DecisionKey>> = Vec::new();
    let mut index: usize = 0;
    while index < nodes.len()
        invariant
            index <= nodes@.len(),
            decisions@ == multiway_decisions(nodes@).take(index as int),
        decreases nodes.len() - index,
    {
        let decision = match &nodes[index] {
            MultiwayGameNode::Decision { player, infoset, children } => Some(
                DecisionKey { player: *player, infoset: *infoset, actions: children.len() },
            ),
            _ => None,
        };
        let ghost before = decisions@;
        decisions.push(decision);
        assert(multiway_decisions(nodes@).take(index as int + 1) =~= before.push(
            multiway_decisions(nodes@)[index as int],
        ));
        index = index + 1;
    }
    assert(multiway_decisions(nodes@).take(index as int) =~= multiway_decisions(nodes@));
    decisions
}

/// A solver over a game of three and more players: what it has accumulated and
/// where its generator stands.
#[derive(Debug, Clone)]
pub struct MultiwayMccfrSolver {
    pub game: MultiwayStaticGame,
    pub infosets: Table<InfoSetData>,
    pub iterations: u64,
    pub rng: XorShift64,
    pub config_fingerprint: u64,
    pub metrics: MultiwaySamplingMetrics,
}

/// Why a checkpoint cannot be resumed, once it and the game are valid.
pub open spec fn multiway_resume_error(
    game: MultiwayStaticGame,
    checkpoint: MultiwaySolverCheckpoint,
    config_fingerprint: u64,
) -> Option<MultiwaySolverError> {
    if checkpoint.player_count != game.player_count {
        Some(
            MultiwaySolverError::PlayerCountMismatch {
                written_for: checkpoint.player_count,
                players: game.player_count,
            },
        )
    } else if checkpoint.game_fingerprint != game.spec_fingerprint() {
        Some(MultiwaySolverError::GameMismatch)
    } else if checkpoint.config_fingerprint != config_fingerprint {
        Some(MultiwaySolverError::ConfigMismatch)
    } else {
        let decisions = multiway_decisions(game.nodes@);
        match count_error(decisions, 0) {
            Some(error) => Some(MultiwaySolverError::InfoSets(error)),
            None => match fit_error(decisions, checkpoint.infosets@, 0) {
                Some(error) => Some(MultiwaySolverError::InfoSets(error)),
                None => None,
            },
        }
    }
}

impl MultiwayMccfrSolver {
    pub open spec fn wf(self) -> bool {
        &&& self.infosets.wf()
        &&& infoset_keys(self.infosets.entries@)
        &&& self.rng.state != 0
    }

    /// A solver that has done nothing.
    pub fn new(
        game: MultiwayStaticGame,
        sums_ok: &[bool],
        seed: u64,
        config_fingerprint: u64,
    ) -> (result: Result<Self, MultiwayError>)
        requires
            sums_ok@.len() == game.nodes@.len(),
        ensures
            match result {
                Ok(solver) => {
                    &&& game.valid(sums_ok@)
                    &&& solver.wf()
                    &&& solver.fits()
                    &&& solver.game == game
                    &&& solver.infosets.entries@.len() == 0
                    &&& solver.iterations == 0
                    &&& solver.rng.state == seeded_state(seed)
                    &&& solver.config_fingerprint == config_fingerprint
                    &&& solver.metrics == (MultiwaySamplingMetrics {
                        traverser_updates: 0,
                        sampled_chance_nodes: 0,
                        sampled_opponent_actions: 0,
                        infoset_visits: 0,
                    })
                    &&& solver.visits_counted()
                    &&& solver.state() == first_state(seed)
                },
                Err(error) => !game.valid(sums_ok@) && multiway_verdict(game, sums_ok@, Err(error)),
            },
    {
        match game.validate(sums_ok) {
            Ok(_) => {},
            Err(error) => {
                return Err(error);
            },
        }
        let solver = MultiwayMccfrSolver {
            game,
            infosets: Table::new(),
            iterations: 0,
            rng: XorShift64::new(seed),
            config_fingerprint,
            metrics: MultiwaySamplingMetrics::default(),
        };
        assert(table_view(solver.infosets) =~= Map::empty());
        Ok(solver)
    }

    /// What a checkpoint of the solver holds.
    pub open spec fn written(self, checkpoint: MultiwaySolverCheckpoint) -> bool {
        &&& checkpoint.format_version == MULTIWAY_CHECKPOINT_FORMAT_VERSION
        &&& checkpoint.algorithm == MultiwayAlgorithm::ExternalSamplingMccfr
        &&& checkpoint.player_count == self.game.player_count
        &&& checkpoint.game_fingerprint == self.game.spec_fingerprint()
        &&& checkpoint.config_fingerprint == self.config_fingerprint
        &&& checkpoint.iterations == self.iterations
        &&& checkpoint.rng_state == Some(self.rng.state)
        &&& checkpoint.metrics == self.metrics
        &&& checkpoint_views(checkpoint.infosets@) == entry_views(self.infosets.entries@)
    }

    /// The information sets belong to the game's decisions, with usable sums.
    pub open spec fn fits(self) -> bool {
        fits_game(
            self.infosets,
            self.game.player_count,
            multiway_decisions(self.game.nodes@),
        )
    }

    /// The solver has the state of a checkpoint.
    pub open spec fn resumes(
        self,
        game: MultiwayStaticGame,
        checkpoint: MultiwaySolverCheckpoint,
        config_fingerprint: u64,
    ) -> bool {
        &&& self.wf()
        &&& self.fits()
        &&& self.game == game
        &&& table_view(self.infosets) == restored(checkpoint_views(checkpoint.infosets@))
        &&& self.iterations == checkpoint.iterations
        &&& checkpoint.rng_state == Some(self.rng.state)
        &&& self.config_fingerprint == config_fingerprint
        &&& self.metrics == checkpoint.metrics
    }

    pub fn checkpoint(&self) -> (checkpoint: MultiwaySolverCheckpoint)
        requires
            self.wf(),
        ensures
            self.written(checkpoint),
    {
        MultiwaySolverCheckpoint {
            format_version: MULTIWAY_CHECKPOINT_FORMAT_VERSION,
            algorithm: MultiwayAlgorithm::ExternalSamplingMccfr,
            player_count: self.game.player_count,
            game_fingerprint: self.game.fingerprint(),
            config_fingerprint: self.config_fingerprint,
            iterations: self.iterations,
            infosets: checkpoint_entries(&self.infosets),
            rng_state: Some(self.rng.state),
            metrics: self.metrics,
        }
    }

    /// Continues where a checkpoint left off.
    pub fn from_checkpoint(
        game: MultiwayStaticGame,
        sums_ok: &[bool],
        checkpoint: &MultiwaySolverCheckpoint,
        config_fingerprint: u64,
    ) -> (result: Result<Self, MultiwaySolverError>)
        requires
            sums_ok@.len() == game.nodes@.len(),
        ensures
            match multiway_checkpoint_error(*checkpoint) {
                Some(error) => result == Err::<Self, MultiwaySolverError>(error),
                None => if !game.valid(sums_ok@) {
                    result matches Err(MultiwaySolverError::Game(error)) && multiway_verdict(
                        game,
                        sums_ok@,
                        Err(error),
                    )
                } else {
                    match multiway_resume_error(game, *checkpoint, config_fingerprint) {
                        Some(error) => result == Err::<Self, MultiwaySolverError>(error),
                        None => result matches Ok(solver) && solver.resumes(
                            game,
                            *checkpoint,
                            config_fingerprint,
                        ),
                    }
                },
            },
    {
        match checkpoint.validate() {
            Ok(_) => {},
            Err(error) => {
                return Err(error);
            },
        }
        match game.validate(sums_ok) {
            Ok(_) => {},
            Err(error) => {
                return Err(MultiwaySolverError::Game(error));
            },
        }
        if checkpoint.player_count != game.player_count {
            return Err(
                MultiwaySolverError::PlayerCountMismatch {
                    written_for: checkpoint.player_count,
                    players: game.player_count,
                },
            );
        }
        if checkpoint.game_fingerprint != game.fingerprint() {
            return Err(MultiwaySolverError::GameMismatch);
        }
        if checkpoint.config_fingerprint != config_fingerprint {
            return Err(MultiwaySolverError::ConfigMismatch);
        }
        let rng_state = match checkpoint.rng_state {
            Some(state) => state,
            None => {
                return Err(MultiwaySolverError::MissingRngState);
            },
        };
        let decisions = list_multiway_decisions(game.nodes());
        let counts = match action_counts(&decisions) {
            Ok(counts) => counts,
            Err(error) => {
                return Err(MultiwaySolverError::InfoSets(error));
            },
        };
        match check_fit(&decisions, &counts, &checkpoint.infosets) {
            Ok(_) => {},
            Err(error) => {
                return Err(MultiwaySolverError::InfoSets(error));
            },
        }
        let infosets = restore_entries(&checkpoint.infosets);
        proof {
            lemma_accepted_entries_fit(
                checkpoint.infosets@,
                game.player_count,
                multiway_decisions(game.nodes@),
                infosets,
            );
        }
        Ok(
            MultiwayMccfrSolver {
                game,
                infosets,
                iterations: checkpoint.iterations,
                rng: XorShift64 { state: rng_state },
                config_fingerprint,
                metrics: checkpoint.metrics,
            },
        )
    }

    pub fn game(&self) -> (game: &MultiwayStaticGame)
        ensures
            *game == self.game,
    {
        &self.game
    }

    pub fn config_fingerprint(&self) -> (fingerprint: u64)
        ensures
            fingerprint == self.config_fingerprint,
    {
        self.config_fingerprint
    }

    pub fn iterations(&self) -> (iterations: u64)
        ensures
            iterations == self.iterations,
    {
        self.iterations
    }

    pub fn metrics(&self) -> (metrics: MultiwaySamplingMetrics)
        ensures
            metrics == self.metrics,
    {
        self.metrics
    }

    /// The information set of `player`, if it was visited.
    pub fn info(&self, player: usize, infoset: InfoSetId) -> (data: Option<&InfoSetData>)
        requires
            self.wf(),
        ensures
            data is Some <==> self.infosets@.dom().contains(
                crate::checkpoint::infoset_key(player, infoset),
            ),
            data matches Some(found) ==> *found
                == self.infosets@[crate::checkpoint::infoset_key(player, infoset)],
    {
        self.infosets.get(crate::table::Key { major: player as u64, middle: infoset, minor: 0 })
    }
}

/// A checkpoint of the multiway solver can be resumed, and the resumed solver
/// stands where the first one stopped and draws on from the same state.
pub proof fn lemma_multiway_resumes_where_it_stopped(
    solver: MultiwayMccfrSolver,
    checkpoint: MultiwaySolverCheckpoint,
    resumed: MultiwayMccfrSolver,
    sums_ok: Seq<bool>,
)
    requires
        solver.wf(),
        solver.fits(),
        solver.game.valid(sums_ok),
        count_error(multiway_decisions(solver.game.nodes@), 0) is None,
        solver.written(checkpoint),
    ensures
        multiway_checkpoint_error(checkpoint) is None,
        multiway_resume_error(solver.game, checkpoint, solver.config_fingerprint) is None,
        resumed.resumes(solver.game, checkpoint, solver.config_fingerprint) ==> {
            &&& table_view(resumed.infosets) == table_view(solver.infosets)
            &&& resumed.iterations == solver.iterations
            &&& resumed.rng == solver.rng
            &&& resumed.config_fingerprint == solver.config_fingerprint
            &&& resumed.metrics == solver.metrics
        },
{
    lemma_written_entries_fit(
        checkpoint.infosets@,
        solver.game.player_count,
        multiway_decisions(solver.game.nodes@),
        solver.infosets,
    );
    crate::checkpoint::lemma_restore_undoes_checkpoint(solver.infosets);
}

/// The nodes agree in every part.
pub open spec fn same_multiway_node(a: MultiwayGameNode, b: MultiwayGameNode) -> bool {
    match (a, b) {
        (
            MultiwayGameNode::Decision { player: p, infoset: i, children: c },
            MultiwayGameNode::Decision { player: q, infoset: j, children: d },
        ) => p == q && i == j && c@ == d@,
        (MultiwayGameNode::Chance { outcomes: c }, MultiwayGameNode::Chance { outcomes: d }) => c@
            == d@,
        (
            MultiwayGameNode::Terminal { utility: u },
            MultiwayGameNode::Terminal { utility: v },
        ) => u@ == v@,
        _ => false,
    }
}

pub proof fn lemma_words_readable()
    ensures
        readable(word_encoding(), |a: u64, b: u64| a == b),
{
    let encode = word_encoding();
    assert forall|a: u64, b: u64, s: Seq<u64>, t: Seq<u64>|
        #![trigger encode(a) + s, encode(b) + t]
        encode(a) + s == encode(b) + t implies a == b && s == t by {
        lemma_same_front(encode(a), encode(b), s, t);
        assert(encode(a)[0] == encode(b)[0]);
    }
}

proof fn lemma_multiway_node_read(
    a: MultiwayGameNode,
    b: MultiwayGameNode,
    s: Seq<u64>,
    t: Seq<u64>,
)
    requires
        multiway_node_words(a) + s == multiway_node_words(b) + t,
    ensures
        same_multiway_node(a, b),
        s == t,
{
    assert((multiway_node_words(a) + s)[0] == multiway_node_words(a)[0]);
    assert((multiway_node_words(b) + t)[0] == multiway_node_words(b)[0]);
    match (a, b) {
        (
            MultiwayGameNode::Decision { player: p, infoset: i, children: c },
            MultiwayGameNode::Decision { player: q, infoset: j, children: d },
        ) => {
            let ha = seq![1u64, p as u64, i];
            let hb = seq![1u64, q as u64, j];
            lemma_regroup(ha, list_words(c@, id_encoding()), s);
            lemma_regroup(hb, list_words(d@, id_encoding()), t);
            let ra = list_words(c@, id_encoding()) + s;
            let rb = list_words(d@, id_encoding()) + t;
            lemma_same_front(ha, hb, ra, rb);
            assert(ha[1] == hb[1]);
            assert(ha[2] == hb[2]);
            lemma_vec_len(c);
            lemma_vec_len(d);
            lemma_ids_readable();
            lemma_list_readable(c@, d@, s, t, id_encoding(), |x: usize, y: usize| x == y);
            lemma_equal_items(c@, d@);
        },
        (MultiwayGameNode::Chance { outcomes: c }, MultiwayGameNode::Chance { outcomes: d }) => {
            let h = seq![2u64];
            lemma_regroup(h, list_words(c@, edge_encoding()), s);
            lemma_regroup(h, list_words(d@, edge_encoding()), t);
            let ra = list_words(c@, edge_encoding()) + s;
            let rb = list_words(d@, edge_encoding()) + t;
            lemma_same_front(h, h, ra, rb);
            lemma_vec_len(c);
            lemma_vec_len(d);
            lemma_edges_readable();
            lemma_list_readable(
                c@,
                d@,
                s,
                t,
                edge_encoding(),
                |x: (u64, usize), y: (u64, usize)| x == y,
            );
            lemma_equal_items(c@, d@);
        },
        (
            MultiwayGameNode::Terminal { utility: u },
            MultiwayGameNode::Terminal { utility: v },
        ) => {
            let h = seq![3u64];
            lemma_regroup(h, list_words(u@, word_encoding()), s);
            lemma_regroup(h, list_words(v@, word_encoding()), t);
            let ra = list_words(u@, word_encoding()) + s;
            let rb = list_words(v@, word_encoding()) + t;
            lemma_same_front(h, h, ra, rb);
            lemma_vec_len(u);
            lemma_vec_len(v);
            lemma_words_readable();
            lemma_list_readable(u@, v@, s, t, word_encoding(), |x: u64, y: u64| x == y);
            lemma_equal_items(u@, v@);
        },
        _ => {},
    }
}

proof fn lemma_multiway_nodes_read(
    a: Seq<MultiwayGameNode>,
    b: Seq<MultiwayGameNode>,
    s: Seq<u64>,
    t: Seq<u64>,
)
    requires
        a.len() == b.len(),
        concat_words(a, multiway_node_encoding()) + s == concat_words(b, multiway_node_encoding())
            + t,
    ensures
        forall|i: int| 0 <= i < a.len() ==> same_multiway_node(#[trigger] a[i], b[i]),
        s == t,
    decreases a.len(),
{
    if a.len() == 0 {
        lemma_same_front(
            concat_words(a, multiway_node_encoding()),
            concat_words(b, multiway_node_encoding()),
            s,
            t,
        );
    } else {
        lemma_concat_front(a, multiway_node_encoding());
        lemma_concat_front(b, multiway_node_encoding());
        let ta = concat_words(a.skip(1), multiway_node_encoding());
        let tb = concat_words(b.skip(1), multiway_node_encoding());
        lemma_regroup(multiway_node_words(a[0]), ta, s);
        lemma_regroup(multiway_node_words(b[0]), tb, t);
        lemma_multiway_node_read(a[0], b[0], ta + s, tb + t);
        lemma_multiway_nodes_read(a.skip(1), b.skip(1), s, t);
        assert forall|i: int| 0 <= i < a.len() implies same_multiway_node(#[trigger] a[i], b[i]) by {
            if i > 0 {
                assert(same_multiway_node(a.skip(1)[i - 1], b.skip(1)[i - 1]));
            }
        }
    }
}

/// The words that are hashed tell games apart.
pub proof fn lemma_multiway_words_identify_the_game(a: MultiwayStaticGame, b: MultiwayStaticGame)
    requires
        multiway_words(a) == multiway_words(b),
    ensures
        a.player_count == b.player_count,
        a.root == b.root,
        a.nodes@.len() == b.nodes@.len(),
        forall|i: int|
            0 <= i < a.nodes@.len() ==> same_multiway_node(#[trigger] a.nodes@[i], b.nodes@[i]),
{
    let none = Seq::<u64>::empty();
    let ha = seq![a.player_count as u64, a.root as u64, a.nodes@.len() as u64];
    let hb = seq![b.player_count as u64, b.root as u64, b.nodes@.len() as u64];
    let ra = concat_words(a.nodes@, multiway_node_encoding()) + none;
    let rb = concat_words(b.nodes@, multiway_node_encoding()) + none;
    assert(multiway_words(a) =~= ha + ra);
    assert(multiway_words(b) =~= hb + rb);
    lemma_same_front(ha, hb, ra, rb);
    lemma_vec_len(a.nodes);
    lemma_vec_len(b.nodes);
    assert(ha[0] == hb[0]);
    assert(ha[1] == hb[1]);
    assert(ha[2] == hb[2]);
    lemma_multiway_nodes_read(a.nodes@, b.nodes@, none, none);
}

} // verus!
