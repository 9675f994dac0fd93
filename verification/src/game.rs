//! Two-player static games: decision, chance and terminal nodes.
use vstd::prelude::*;

use crate::bits::{above_zero, finite, is_above_zero, is_finite};
use crate::hash::{
    concat_words, fnv_words, lemma_concat_front, lemma_concat_step, lemma_list_readable,
    lemma_same_front, lemma_vec_len, list_words, readable, Fingerprint, FNV_OFFSET,
};
use crate::tree::copy_ids;
use crate::tree_builder::{hash_ids, id_encoding};
use crate::tree_fingerprint::{lemma_equal_items, lemma_ids_readable, lemma_regroup};

verus! {

pub type NodeId = usize;

pub type InfoSetId = u64;

/// A node; probabilities and utilities are IEEE-754 bits.
#[derive(Debug)]
pub enum GameNode {
    Decision { player: usize, infoset: InfoSetId, children: Vec<NodeId> },
    Chance { outcomes: Vec<(u64, NodeId)> },
    Terminal { utility: [u64; 2] },
}

#[derive(Debug)]
pub struct StaticGame {
    pub root: NodeId,
    pub nodes: Vec<GameNode>,
}

/// A copy of weighted edges.
pub fn copy_edges(edges: &Vec<(u64, usize)>) -> (copy: Vec<(u64, usize)>)
    ensures
        copy@ == edges@,
{
    let mut copy: Vec<(u64, usize)> = Vec::new();
    let mut index: usize = 0;
    while index < edges.len()
        invariant
            index <= edges@.len(),
            copy@ == edges@.take(index as int),
        decreases edges.len() - index,
    {
        copy.push((edges[index].0, edges[index].1));
        index = index + 1;
        assert(copy@ =~= edges@.take(index as int));
    }
    assert(edges@.take(index as int) =~= edges@);
    copy
}

impl GameNode {
    pub open spec fn same(self, other: Self) -> bool {
        match (self, other) {
            (
                GameNode::Decision { player, infoset, children },
                GameNode::Decision { player: actor, infoset: set, children: targets },
            ) => player == actor && infoset == set && children@ == targets@,
            (GameNode::Chance { outcomes }, GameNode::Chance { outcomes: edges }) => outcomes@
                == edges@,
            (GameNode::Terminal { utility: left }, GameNode::Terminal { utility: right }) => left == right,
            _ => false,
        }
    }
}

impl Clone for GameNode {
    fn clone(&self) -> (copy: Self)
        ensures
            copy.same(*self),
    {
        match self {
            GameNode::Decision { player, infoset, children } => GameNode::Decision {
                player: *player,
                infoset: *infoset,
                children: copy_ids(children),
            },
            GameNode::Chance { outcomes } => GameNode::Chance { outcomes: copy_edges(outcomes) },
            GameNode::Terminal { utility } => GameNode::Terminal { utility: *utility },
        }
    }
}

impl StaticGame {
    pub open spec fn same(self, other: Self) -> bool {
        &&& self.root == other.root
        &&& self.nodes@.len() == other.nodes@.len()
        &&& forall|i: int|
            0 <= i < self.nodes@.len() ==> (#[trigger] self.nodes@[i]).same(other.nodes@[i])
    }
}

impl Clone for StaticGame {
    fn clone(&self) -> (copy: Self)
        ensures
            copy.same(*self),
    {
        let mut nodes: Vec<GameNode> = Vec::new();
        let mut index: usize = 0;
        while index < self.nodes.len()
            invariant
                index <= self.nodes@.len(),
                nodes@.len() == index,
                forall|i: int| 0 <= i < index ==> (#[trigger] nodes@[i]).same(self.nodes@[i]),
            decreases self.nodes.len() - index,
        {
            nodes.push(self.nodes[index].clone());
            index = index + 1;
        }
        StaticGame { root: self.root, nodes }
    }
}

#[derive(Debug, Clone, Copy, PartialEq, Eq, Structural)]
pub enum GameError {
    NoNodes,
    RootOutOfRange,
    UnsupportedPlayer { player: usize },
    NoActions { node: usize },
    InvalidChild { node: usize, child: usize },
    NoOutcomes { node: usize },
    InvalidProbability { node: usize },
    InvalidChanceChild { node: usize, child: usize },
    BadProbabilitySum { node: usize },
    NonFiniteUtility { node: usize },
}

/// The first child from `from` on that is no node.
pub open spec fn first_bad_child(children: Seq<usize>, count: nat, from: int) -> Option<usize>
    decreases children.len() - from,
{
    if from >= children.len() {
        None
    } else if children[from] >= count {
        Some(children[from])
    } else {
        first_bad_child(children, count, from + 1)
    }
}

/// The first thing wrong with the outcomes of node `node` from `from` on.
pub open spec fn outcome_error(
    outcomes: Seq<(u64, usize)>,
    count: nat,
    node: usize,
    from: int,
) -> Option<GameError>
    decreases outcomes.len() - from,
{
    if from >= outcomes.len() {
        None
    } else if !(finite(outcomes[from].0) && above_zero(outcomes[from].0)) {
        Some(GameError::InvalidProbability { node })
    } else if outcomes[from].1 >= count {
        Some(GameError::InvalidChanceChild { node, child: outcomes[from].1 })
    } else {
        outcome_error(outcomes, count, node, from + 1)
    }
}

/// What is wrong with one node of a game of `count` nodes.
pub open spec fn game_node_error(
    node: GameNode,
    count: nat,
    sum_ok: bool,
    id: usize,
) -> Option<GameError> {
    match node {
        GameNode::Decision { player, children, .. } => if player > 1 {
            Some(GameError::UnsupportedPlayer { player })
        } else if children@.len() == 0 {
            Some(GameError::NoActions { node: id })
        } else {
            match first_bad_child(children@, count, 0) {
                Some(child) => Some(GameError::InvalidChild { node: id, child }),
                None => None,
            }
        },
        GameNode::Chance { outcomes } => if outcomes@.len() == 0 {
            Some(GameError::NoOutcomes { node: id })
        } else {
            match outcome_error(outcomes@, count, id, 0) {
                Some(error) => Some(error),
                None => if sum_ok {
                    None
                } else {
                    Some(GameError::BadProbabilitySum { node: id })
                },
            }
        },
        GameNode::Terminal { utility } => if finite(utility@[0]) && finite(utility@[1]) {
            None
        } else {
            Some(GameError::NonFiniteUtility { node: id })
        },
    }
}

pub open spec fn game_nodes_error(nodes: Seq<GameNode>, sums_ok: Seq<bool>, from: int) -> Option<
    GameError,
>
    decreases nodes.len() - from,
{
    if from >= nodes.len() {
        None
    } else {
        match game_node_error(nodes[from], nodes.len(), sums_ok[from], from as usize) {
            Some(error) => Some(error),
            None => game_nodes_error(nodes, sums_ok, from + 1),
        }
    }
}

/// The first thing wrong with a game.
pub open spec fn game_error(game: StaticGame, sums_ok: Seq<bool>) -> Option<GameError> {
    if game.nodes@.len() == 0 {
        Some(GameError::NoNodes)
    } else if game.root >= game.nodes@.len() {
        Some(GameError::RootOutOfRange)
    } else {
        game_nodes_error(game.nodes@, sums_ok, 0)
    }
}

/// The node leads only to nodes of the game, with players, probabilities and
/// utilities that the solvers can work with.
pub open spec fn game_node_ok(node: GameNode, count: nat) -> bool {
    match node {
        GameNode::Decision { player, children, .. } => {
            &&& player <= 1
            &&& children@.len() > 0
            &&& forall|k: int| 0 <= k < children@.len() ==> #[trigger] children@[k] < count
        },
        GameNode::Chance { outcomes } => {
            &&& outcomes@.len() > 0
            &&& forall|k: int|
                0 <= k < outcomes@.len() ==> {
                    let outcome = #[trigger] outcomes@[k];
                    finite(outcome.0) && above_zero(outcome.0) && outcome.1 < count
                }
        },
        GameNode::Terminal { utility } => finite(utility@[0]) && finite(utility@[1]),
    }
}

impl StaticGame {
    /// The game can be played from its root.
    pub open spec fn playable(self) -> bool {
        &&& self.root < self.nodes@.len()
        &&& forall|i: int|
            0 <= i < self.nodes@.len() ==> game_node_ok(#[trigger] self.nodes@[i], self.nodes@.len())
    }

    pub open spec fn spec_fingerprint(self) -> u64 {
        fnv_words(FNV_OFFSET, game_words(self))
    }

    /// Makes a game of valid nodes. `sums_ok[i]` says whether the probabilities
    /// of chance node `i` sum to one.
    pub fn new(root: NodeId, nodes: Vec<GameNode>, sums_ok: &[bool]) -> (result: Result<
        Self,
        GameError,
    >)
        requires
            sums_ok@.len() == nodes@.len(),
        ensures
            match result {
                Ok(game) => game.root == root && game.nodes == nodes && game_error(
                    game,
                    sums_ok@,
                ) is None,
                Err(error) => game_error((StaticGame { root, nodes }), sums_ok@) == Some(error),
            },
    {
        let game = StaticGame { root, nodes };
        match game.validate(sums_ok) {
            Ok(_) => Ok(game),
            Err(error) => Err(error),
        }
    }

    pub fn root(&self) -> (root: NodeId)
        ensures
            root == self.root,
    {
        self.root
    }

    pub fn node(&self, id: NodeId) -> (node: Option<&GameNode>)
        ensures
            node is Some <==> id < self.nodes@.len(),
            node matches Some(found) ==> *found == self.nodes@[id as int],
    {
        if id < self.nodes.len() {
            Some(&self.nodes[id])
        } else {
            None
        }
    }

    pub fn nodes(&self) -> (nodes: &[GameNode])
        ensures
            nodes@ == self.nodes@,
    {
        self.nodes.as_slice()
    }

    /// Deterministic structural fingerprint, by which checkpoints of another
    /// game are told apart.
    pub fn fingerprint(&self) -> (hash: u64)
        ensures
            hash == self.spec_fingerprint(),
    {
        static_game_fingerprint(self)
    }

    pub fn validate(&self, sums_ok: &[bool]) -> (result: Result<(), GameError>)
        requires
            sums_ok@.len() == self.nodes@.len(),
        ensures
            match result {
                Ok(_) => game_error(*self, sums_ok@) is None,
                Err(error) => game_error(*self, sums_ok@) == Some(error),
            },
    {
        if self.nodes.len() == 0 {
            return Err(GameError::NoNodes);
        }
        if self.root >= self.nodes.len() {
            return Err(GameError::RootOutOfRange);
        }
        let mut id: usize = 0;
        while id < self.nodes.len()
            invariant
                id <= self.nodes@.len(),
                sums_ok@.len() == self.nodes@.len(),
                self.nodes@.len() > 0,
                self.root < self.nodes@.len(),
                game_error(*self, sums_ok@) == game_nodes_error(
                    self.nodes@,
                    sums_ok@,
                    id as int,
                ),
            decreases self.nodes.len() - id,
        {
            match check_game_node(&self.nodes[id], self.nodes.len(), sums_ok[id], id) {
                Ok(_) => {},
                Err(error) => {
                    return Err(error);
                },
            }
            id = id + 1;
        }
        Ok(())
    }
}

/// Checks that every child is one of `count` nodes.
pub fn bad_child(children: &Vec<usize>, count: usize) -> (found: Option<usize>)
    ensures
        found == first_bad_child(children@, count as nat, 0),
{
    let mut k: usize = 0;
    while k < children.len()
        invariant
            k <= children@.len(),
            first_bad_child(children@, count as nat, 0) == first_bad_child(
                children@,
                count as nat,
                k as int,
            ),
        decreases children.len() - k,
    {
        if children[k] >= count {
            return Some(children[k]);
        }
        k = k + 1;
    }
    None
}

fn check_game_node(node: &GameNode, count: usize, sum_ok: bool, id: usize) -> (result: Result<
    (),
    GameError,
>)
    ensures
        match result {
            Ok(_) => game_node_error(*node, count as nat, sum_ok, id) is None,
            Err(error) => game_node_error(*node, count as nat, sum_ok, id) == Some(error),
        },
{
    match node {
        GameNode::Decision { player, children, .. } => {
            if *player > 1 {
                return Err(GameError::UnsupportedPlayer { player: *player });
            }
            if children.len() == 0 {
                return Err(GameError::NoActions { node: id });
            }
            match bad_child(children, count) {
                Some(child) => Err(GameError::InvalidChild { node: id, child }),
                None => Ok(()),
            }
        },
        GameNode::Chance { outcomes } => {
            if outcomes.len() == 0 {
                return Err(GameError::NoOutcomes { node: id });
            }
            let mut k: usize = 0;
            while k < outcomes.len()
                invariant
                    k <= outcomes@.len(),
                    outcome_error(outcomes@, count as nat, id, 0) == outcome_error(
                        outcomes@,
                        count as nat,
                        id,
                        k as int,
                    ),
                    outcomes@.len() > 0,
                    *node == (GameNode::Chance { outcomes: *outcomes }),
                decreases outcomes.len() - k,
            {
                let (probability, child) = outcomes[k];
                if !is_above_zero(probability) || !is_finite(probability) {
                    return Err(GameError::InvalidProbability { node: id });
                }
                if child >= count {
                    return Err(GameError::InvalidChanceChild { node: id, child });
                }
                k = k + 1;
            }
            if !sum_ok {
                return Err(GameError::BadProbabilitySum { node: id });
            }
            Ok(())
        },
        GameNode::Terminal { utility } => {
            if !is_finite(utility[0]) || !is_finite(utility[1]) {
                return Err(GameError::NonFiniteUtility { node: id });
            }
            Ok(())
        },
    }
}

pub open spec fn edge_encoding() -> spec_fn((u64, usize)) -> Seq<u64> {
    |edge: (u64, usize)| seq![edge.0, edge.1 as u64]
}

/// The words of one node: a code for its kind, then its parts.
pub open spec fn game_node_words(node: GameNode) -> Seq<u64> {
    match node {
        GameNode::Decision { player, infoset, children } => seq![1u64, player as u64, infoset]
            + list_words(children@, id_encoding()),
        GameNode::Chance { outcomes } => seq![2u64] + list_words(outcomes@, edge_encoding()),
        GameNode::Terminal { utility } => seq![3u64, utility@[0], utility@[1]],
    }
}

pub open spec fn game_node_encoding() -> spec_fn(GameNode) -> Seq<u64> {
    |node: GameNode| game_node_words(node)
}

pub open spec fn game_words(game: StaticGame) -> Seq<u64> {
    seq![game.root as u64] + list_words(game.nodes@, game_node_encoding())
}

/// Mixes in a list of weighted edges.
pub fn hash_edge_list(fingerprint: &mut Fingerprint, edges: &Vec<(u64, usize)>)
    requires
        old(fingerprint).wf(),
    ensures
        final(fingerprint).wf(),
        final(fingerprint).words@ == old(fingerprint).words@ + list_words(edges@, edge_encoding()),
{
    let ghost start = fingerprint.words@;
    fingerprint.word(edges.len() as u64);
    let mut index: usize = 0;
    assert(edges@.take(0) =~= Seq::<(u64, usize)>::empty());
    assert(fingerprint.words@ =~= start.push(edges@.len() as u64) + concat_words(
        edges@.take(0),
        edge_encoding(),
    ));
    while index < edges.len()
        invariant
            index <= edges@.len(),
            fingerprint.wf(),
            fingerprint.words@ == start.push(edges@.len() as u64) + concat_words(
                edges@.take(index as int),
                edge_encoding(),
            ),
        decreases edges.len() - index,
    {
        proof {
            lemma_concat_step(edges@, edge_encoding(), index as int);
        }
        let (probability, child) = edges[index];
        fingerprint.word(probability);
        fingerprint.word(child as u64);
        index = index + 1;
        assert(fingerprint.words@ =~= start.push(edges@.len() as u64) + concat_words(
            edges@.take(index as int),
            edge_encoding(),
        ));
    }
    assert(edges@.take(index as int) =~= edges@);
    assert(fingerprint.words@ =~= start + list_words(edges@, edge_encoding()));
}

fn hash_game_node(fingerprint: &mut Fingerprint, node: &GameNode)
    requires
        old(fingerprint).wf(),
    ensures
        final(fingerprint).wf(),
        final(fingerprint).words@ == old(fingerprint).words@ + game_node_words(*node),
{
    match node {
        GameNode::Decision { player, infoset, children } => {
            fingerprint.word(1);
            fingerprint.word(*player as u64);
            fingerprint.word(*infoset);
            hash_ids(fingerprint, children);
        },
        GameNode::Chance { outcomes } => {
            fingerprint.word(2);
            hash_edge_list(fingerprint, outcomes);
        },
        GameNode::Terminal { utility } => {
            fingerprint.word(3);
            fingerprint.word(utility[0]);
            fingerprint.word(utility[1]);
        },
    }
    assert(fingerprint.words@ =~= old(fingerprint).words@ + game_node_words(*node));
}

pub fn static_game_fingerprint(game: &StaticGame) -> (hash: u64)
    ensures
        hash == game.spec_fingerprint(),
{
    let mut fingerprint = Fingerprint::new();
    fingerprint.word(game.root as u64);
    fingerprint.word(game.nodes.len() as u64);
    let ghost start = seq![game.root as u64, game.nodes@.len() as u64];
    let mut index: usize = 0;
    assert(game.nodes@.take(0) =~= Seq::<GameNode>::empty());
    assert(fingerprint.words@ =~= start + concat_words(game.nodes@.take(0), game_node_encoding()));
    while index < game.nodes.len()
        invariant
            index <= game.nodes@.len(),
            fingerprint.wf(),
            fingerprint.words@ == start + concat_words(
                game.nodes@.take(index as int),
                game_node_encoding(),
            ),
        decreases game.nodes.len() - index,
    {
        proof {
            lemma_concat_step(game.nodes@, game_node_encoding(), index as int);
        }
        hash_game_node(&mut fingerprint, &game.nodes[index]);
        index = index + 1;
        assert(fingerprint.words@ =~= start + concat_words(
            game.nodes@.take(index as int),
            game_node_encoding(),
        ));
    }
    assert(game.nodes@.take(index as int) =~= game.nodes@);
    assert(fingerprint.words@ =~= game_words(*game));
    fingerprint.hash
}

proof fn lemma_first_bad_child(children: Seq<usize>, count: nat, from: int)
    requires
        0 <= from,
    ensures
        first_bad_child(children, count, from) is None <==> forall|k: int|
            from <= k < children.len() ==> #[trigger] children[k] < count,
    decreases children.len() - from,
{
    if from < children.len() {
        lemma_first_bad_child(children, count, from + 1);
        let child = children[from];
    }
}

proof fn lemma_outcome_error(
    outcomes: Seq<(u64, usize)>,
    count: nat,
    node: usize,
    from: int,
)
    requires
        0 <= from,
    ensures
        outcome_error(outcomes, count, node, from) is None <==> forall|k: int|
            from <= k < outcomes.len() ==> {
                let outcome = #[trigger] outcomes[k];
                finite(outcome.0) && above_zero(outcome.0) && outcome.1 < count
            },
    decreases outcomes.len() - from,
{
    if from < outcomes.len() {
        lemma_outcome_error(outcomes, count, node, from + 1);
        let outcome = outcomes[from];
    }
}

proof fn lemma_game_node_error(node: GameNode, count: nat, sum_ok: bool, id: usize)
    ensures
        game_node_error(node, count, sum_ok, id) is None <==> game_node_ok(node, count) && (
        node is Chance ==> sum_ok),
{
    match node {
        GameNode::Decision { player, children, .. } => {
            lemma_first_bad_child(children@, count, 0);
        },
        GameNode::Chance { outcomes } => {
            lemma_outcome_error(outcomes@, count, id, 0);
        },
        GameNode::Terminal { .. } => {},
    }
}

proof fn lemma_game_nodes_error(nodes: Seq<GameNode>, sums_ok: Seq<bool>, from: int)
    requires
        0 <= from,
        sums_ok.len() == nodes.len(),
    ensures
        game_nodes_error(nodes, sums_ok, from) is None <==> forall|i: int|
            from <= i < nodes.len() ==> game_node_ok(#[trigger] nodes[i], nodes.len()) && (
            nodes[i] is Chance ==> sums_ok[i]),
    decreases nodes.len() - from,
{
    if from < nodes.len() {
        lemma_game_nodes_error(nodes, sums_ok, from + 1);
        lemma_game_node_error(nodes[from], nodes.len(), sums_ok[from], from as usize);
    }
}

/// Validation accepts exactly the playable games whose chance probabilities
/// sum to one.
pub proof fn lemma_game_validation_is_exact(game: StaticGame, sums_ok: Seq<bool>)
    requires
        sums_ok.len() == game.nodes@.len(),
    ensures
        game_error(game, sums_ok) is None <==> game.playable() && forall|i: int|
            0 <= i < game.nodes@.len() ==> (#[trigger] game.nodes@[i] is Chance ==> sums_ok[i]),
{
    lemma_game_nodes_error(game.nodes@, sums_ok, 0);
}

/// The nodes agree in every part.
pub open spec fn same_game_node(a: GameNode, b: GameNode) -> bool {
    match (a, b) {
        (
            GameNode::Decision { player: p, infoset: i, children: c },
            GameNode::Decision { player: q, infoset: j, children: d },
        ) => p == q && i == j && c@ == d@,
        (GameNode::Chance { outcomes: c }, GameNode::Chance { outcomes: d }) => c@ == d@,
        (GameNode::Terminal { utility: u }, GameNode::Terminal { utility: v }) => u@[0] == v@[0]
            && u@[1] == v@[1],
        _ => false,
    }
}

pub proof fn lemma_edges_readable()
    ensures
        readable(edge_encoding(), |a: (u64, usize), b: (u64, usize)| a == b),
{
    let encode = edge_encoding();
    assert forall|a: (u64, usize), b: (u64, usize), s: Seq<u64>, t: Seq<u64>|
        #![trigger encode(a) + s, encode(b) + t]
        encode(a) + s == encode(b) + t implies a == b && s == t by {
        lemma_same_front(encode(a), encode(b), s, t);
        assert(encode(a)[0] == encode(b)[0]);
        assert(encode(a)[1] == encode(b)[1]);
    }
}

proof fn lemma_game_node_read(a: GameNode, b: GameNode, s: Seq<u64>, t: Seq<u64>)
    requires
        game_node_words(a) + s == game_node_words(b) + t,
    ensures
        same_game_node(a, b),
        s == t,
{
    assert((game_node_words(a) + s)[0] == game_node_words(a)[0]);
    assert((game_node_words(b) + t)[0] == game_node_words(b)[0]);
    match (a, b) {
        (
            GameNode::Decision { player: p, infoset: i, children: c },
            GameNode::Decision { player: q, infoset: j, children: d },
        ) => {
            let ha = seq![1u64, p as u64, i];
            let hb = seq![1u64, q as u64, j];
            lemma_regroup(ha, list_words(c@, id_encoding()), s);
            lemma_regroup(hb, list_words(d@, id_encoding()), t);
            let ra = list_words(c@, id_encoding()) + s;
            let rb = list_words(d@, id_encoding()) + t;
            lemma_same_front(ha, hb, ra, rb);
            assert(ha[1] == hb[1]);
            assert(ha[2] == hb[2]);
            lemma_vec_len(c);
            lemma_vec_len(d);
            lemma_ids_readable();
            lemma_list_readable(c@, d@, s, t, id_encoding(), |x: usize, y: usize| x == y);
            lemma_equal_items(c@, d@);
        },
        (GameNode::Chance { outcomes: c }, GameNode::Chance { outcomes: d }) => {
            let h = seq![2u64];
            lemma_regroup(h, list_words(c@, edge_encoding()), s);
            lemma_regroup(h, list_words(d@, edge_encoding()), t);
            let ra = list_words(c@, edge_encoding()) + s;
            let rb = list_words(d@, edge_encoding()) + t;
            lemma_same_front(h, h, ra, rb);
            lemma_vec_len(c);
            lemma_vec_len(d);
            lemma_edges_readable();
            lemma_list_readable(
                c@,
                d@,
                s,
                t,
                edge_encoding(),
                |x: (u64, usize), y: (u64, usize)| x == y,
            );
            lemma_equal_items(c@, d@);
        },
        (GameNode::Terminal { utility: u }, GameNode::Terminal { utility: v }) => {
            lemma_same_front(game_node_words(a), game_node_words(b), s, t);
            assert(game_node_words(a)[1] == game_node_words(b)[1]);
            assert(game_node_words(a)[2] == game_node_words(b)[2]);
        },
        _ => {},
    }
}

proof fn lemma_game_nodes_read(a: Seq<GameNode>, b: Seq<GameNode>, s: Seq<u64>, t: Seq<u64>)
    requires
        a.len() == b.len(),
        concat_words(a, game_node_encoding()) + s == concat_words(b, game_node_encoding()) + t,
    ensures
        forall|i: int| 0 <= i < a.len() ==> same_game_node(#[trigger] a[i], b[i]),
        s == t,
    decreases a.len(),
{
    if a.len() == 0 {
        lemma_same_front(
            concat_words(a, game_node_encoding()),
            concat_words(b, game_node_encoding()),
            s,
            t,
        );
    } else {
        lemma_concat_front(a, game_node_encoding());
        lemma_concat_front(b, game_node_encoding());
        let ra = concat_words(a.skip(1), game_node_encoding()) + s;
        let rb = concat_words(b.skip(1), game_node_encoding()) + t;
        lemma_regroup(game_node_words(a[0]), concat_words(a.skip(1), game_node_encoding()), s);
        lemma_regroup(game_node_words(b[0]), concat_words(b.skip(1), game_node_encoding()), t);
        lemma_game_node_read(a[0], b[0], ra, rb);
        lemma_game_nodes_read(a.skip(1), b.skip(1), s, t);
        assert forall|i: int| 0 <= i < a.len() implies same_game_node(#[trigger] a[i], b[i]) by {
            if i > 0 {
                assert(same_game_node(a.skip(1)[i - 1], b.skip(1)[i - 1]));
            }
        }
    }
}

/// The words that are hashed tell games apart.
pub proof fn lemma_game_words_identify_the_game(a: StaticGame, b: StaticGame)
    requires
        game_words(a) == game_words(b),
    ensures
        a.root == b.root,
        a.nodes@.len() == b.nodes@.len(),
        forall|i: int|
            0 <= i < a.nodes@.len() ==> same_game_node(#[trigger] a.nodes@[i], b.nodes@[i]),
{
    let none = Seq::<u64>::empty();
    let ha = seq![a.root as u64, a.nodes@.len() as u64];
    let hb = seq![b.root as u64, b.nodes@.len() as u64];
    let ra = concat_words(a.nodes@, game_node_encoding()) + none;
    let rb = concat_words(b.nodes@, game_node_encoding()) + none;
    assert(game_words(a) =~= ha + ra);
    assert(game_words(b) =~= hb + rb);
    lemma_same_front(ha, hb, ra, rb);
    lemma_vec_len(a.nodes);
    lemma_vec_len(b.nodes);
    assert(ha[0] == hb[0]);
    assert(ha[1] == hb[1]);
    lemma_game_nodes_read(a.nodes@, b.nodes@, none, none);
}

} // verus!
