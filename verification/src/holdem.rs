//! Solver games compiled from public hold'em trees.
use vstd::prelude::*;

use crate::bits::{above_zero, finite, is_above_zero, is_finite};
use crate::cards::Combo;
use crate::compile::{
    append_node, appended, copied, copies_cleanly, copy_fails, decision_table_key, descends, hand_code,
    is_copy, kept_at, kept_from, label_error, labels_of, lemma_numbering_kept, numbered_in_order,
    tree_graph, tree_in_order, CompileError, Draft,
};
use crate::domain::Action;
use crate::game::{game_error, GameError, GameNode, NodeId, StaticGame};
use crate::multiway::{multiway_verdict, MultiwayError, MultiwayGameNode, MultiwayStaticGame};
use crate::payoff::{
    all_valid, disjoint_hands, HoldemChipEvPayoff, MultiwayHoldemChipEvPayoff,
    MultiwayTerminalPayoff, PayoffError, TerminalPayoff,
};
use crate::reach::{
    acyclic_from, all_reached, check_reachable, edge_lists, edges_ok, leads, on_cycle, ranked,
    reach_error, ReachError,
};
use crate::table::{lemma_entry, Table};
use crate::tree::{
    lemma_validation_is_exact, node_well_formed, tree_error, ChanceOutcome, GameTree, LeafKind,
    NodeFacts, TreeNode,
};

verus! {

/// Two hands and the bits of the probability that they are dealt.
#[derive(Debug, Clone, Copy)]
pub struct PrivateDeal {
    pub probability: u64,
    pub hands: [Combo; 2],
}

/// Hands of all seats and the bits of the probability that they are dealt.
#[derive(Debug, Clone)]
pub struct MultiwayPrivateDeal {
    pub probability: u64,
    pub hands: Vec<Combo>,
}

/// What the walk through the tree says of it. A cycle is named by the first node
/// that the walk meets again on its own way.
pub open spec fn reach_verdict(tree: GameTree, result: Result<(), CompileError>) -> bool {
    let graph = tree_graph(tree);
    match result {
        Ok(_) => acyclic_from(graph, tree.root) && all_reached(graph, tree.root),
        Err(CompileError::Cycle { node }) => {
            &&& reach_error(graph, tree.root) == Some(ReachError::Cycle { node })
            &&& leads(graph, tree.root, node)
            &&& on_cycle(graph, node)
        },
        Err(CompileError::Unreachable) => acyclic_from(graph, tree.root) && !all_reached(
            graph,
            tree.root,
        ),
        Err(_) => false,
    }
}

/// The tree can be compiled: it is well formed, and its root leads to every
/// node and to no cycle.
pub open spec fn compilable(tree: GameTree, facts: Seq<NodeFacts>) -> bool {
    &&& tree_error(tree, facts) is None
    &&& acyclic_from(tree_graph(tree), tree.root)
    &&& all_reached(tree_graph(tree), tree.root)
}

/// What checking a tree before it is compiled says.
pub open spec fn tree_verdict(
    tree: GameTree,
    facts: Seq<NodeFacts>,
    error: CompileError,
) -> bool {
    match tree_error(tree, facts) {
        Some(found) => error == CompileError::Tree(found),
        None => reach_verdict(tree, Err(error)),
    }
}

/// A validated tree has its nodes at their positions, with children and
/// outcomes in step.
pub proof fn lemma_well_formed_in_order(tree: GameTree, facts: Seq<NodeFacts>)
    requires
        facts.len() == tree.nodes@.len(),
        tree.nodes@.len() <= usize::MAX,
        tree_error(tree, facts) is None,
    ensures
        tree_in_order(tree),
        edges_ok(tree_graph(tree)),
        tree.root == 0,
        tree.root < tree_graph(tree).len(),
{
    lemma_validation_is_exact(tree, facts);
    let nodes = tree.nodes@;
    assert forall|i: int| 0 <= i < nodes.len() implies {
        let node = #[trigger] nodes[i];
        &&& node.id == i
        &&& forall|k: int|
            0 <= k < node.children@.len() ==> (#[trigger] node.children@[k]) < nodes.len()
        &&& node.chance matches Some(chance) ==> chance.outcomes@.len() == node.children@.len()
    } by {
        assert(node_well_formed(nodes, facts[i], i));
    }
    let graph = tree_graph(tree);
    assert forall|i: int, k: int| 0 <= i < graph.len() && 0 <= k < graph[i].len() implies (
    #[trigger] graph[i][k]) < graph.len() by {
        assert(graph[i][k] == nodes[i].children@[k]);
    }
}

/// Checks that the root of `tree` leads to every node and to no cycle.
pub fn validate_reachable_acyclic_tree(tree: &GameTree) -> (result: Result<(), CompileError>)
    requires
        tree_in_order(*tree),
        tree.root < tree.nodes@.len(),
    ensures
        reach_verdict(*tree, result),
        result is Ok ==> exists|ranks: Seq<nat>| #[trigger] ranked(tree_graph(*tree), ranks),
{
    let mut edges: Vec<Vec<usize>> = Vec::new();
    let mut id: usize = 0;
    while id < tree.nodes.len()
        invariant
            id <= tree.nodes@.len(),
            edge_lists(edges@) == tree_graph(*tree).take(id as int),
        decreases tree.nodes.len() - id,
    {
        let list = tree.nodes[id].children.clone();
        assert(list@ =~= tree.nodes@[id as int].children@);
        let ghost before = edges@;
        edges.push(list);
        assert(edge_lists(edges@) =~= edge_lists(before).push(list@));
        assert(tree_graph(*tree).take(id as int + 1) =~= tree_graph(*tree).take(id as int).push(
            tree.nodes@[id as int].children@,
        ));
        id = id + 1;
    }
    assert(tree_graph(*tree).take(id as int) =~= tree_graph(*tree));
    assert(edges_ok(tree_graph(*tree))) by {
        let graph = tree_graph(*tree);
        assert forall|i: int, k: int| 0 <= i < graph.len() && 0 <= k < graph[i].len() implies (
        #[trigger] graph[i][k]) < graph.len() by {
            assert(graph[i][k] == tree.nodes@[i].children@[k]);
        }
    }
    match check_reachable(&edges, tree.root) {
        Ok(_) => Ok(()),
        Err(ReachError::Cycle { node }) => Err(CompileError::Cycle { node }),
        Err(ReachError::Unreachable) => Err(CompileError::Unreachable),
    }
}

/// Checks a tree before it is compiled.
pub fn check_tree(tree: &GameTree, facts: &[NodeFacts]) -> (result: Result<(), CompileError>)
    requires
        facts@.len() == tree.nodes@.len(),
    ensures
        match result {
            Ok(_) => {
                &&& compilable(*tree, facts@)
                &&& tree_in_order(*tree)
                &&& tree.root < tree.nodes@.len()
                &&& exists|ranks: Seq<nat>| #[trigger] ranked(tree_graph(*tree), ranks)
            },
            Err(error) => !compilable(*tree, facts@) && tree_verdict(*tree, facts@, error),
        },
{
    match tree.validate(facts) {
        Ok(_) => {},
        Err(error) => {
            return Err(CompileError::Tree(error));
        },
    }
    proof {
        assert(tree.nodes.len() == tree.nodes@.len());
        lemma_well_formed_in_order(*tree, facts@);
    }
    validate_reachable_acyclic_tree(tree)
}

/// The information set of a public decision node: its own number.
pub open spec fn spec_public_infoset(tree_node_id: usize) -> u64 {
    tree_node_id as u64
}

pub fn perfect_information_infoset(tree_node_id: usize) -> (infoset: u64)
    ensures
        infoset == spec_public_infoset(tree_node_id),
{
    tree_node_id as u64
}

/// The solver node of a public node.
pub open spec fn public_copy<P: TerminalPayoff>(
    node: TreeNode,
    payoff: P,
    copy: GameNode,
) -> bool {
    if node.chance is Some {
        &&& copy matches GameNode::Chance { outcomes }
        &&& outcomes@.len() == node.children@.len()
        &&& forall|k: int|
            0 <= k < outcomes@.len() ==> #[trigger] outcomes@[k] == (
                node.chance->Some_0.outcomes@[k].probability,
                node.children@[k],
            )
    } else if node.leaf is Some {
        &&& copy matches GameNode::Terminal { utility }
        &&& payoff.spec_utility(node) == Ok::<(u64, u64), PayoffError>((utility@[0], utility@[1]))
    } else {
        &&& copy matches GameNode::Decision { player, infoset, children }
        &&& node.state.actor == Some(player)
        &&& player <= 1
        &&& infoset == spec_public_infoset(node.id)
        &&& children@ == node.children@
    }
}

/// Every public decision has an information set of its own: with all hands
/// known, no two decisions share a strategy.
pub proof fn lemma_public_infosets_differ<P: TerminalPayoff>(
    tree: GameTree,
    payoff: P,
    nodes: Seq<GameNode>,
    left: int,
    right: int,
)
    requires
        tree_in_order(tree),
        nodes.len() == tree.nodes@.len(),
        forall|i: int|
            0 <= i < nodes.len() ==> public_copy(tree.nodes@[i], payoff, #[trigger] nodes[i]),
        0 <= left < nodes.len(),
        0 <= right < nodes.len(),
        nodes[left] is Decision,
        nodes[right] is Decision,
    ensures
        nodes[left]->infoset == nodes[right]->infoset <==> left == right,
{
    assert(tree.nodes@[left].id == left);
    assert(tree.nodes@[right].id == right);
    assert(public_copy(tree.nodes@[left], payoff, nodes[left]));
    assert(public_copy(tree.nodes@[right], payoff, nodes[right]));
}

/// What keeps a public node from being compiled.
pub open spec fn public_problem<P: TerminalPayoff>(
    tree: GameTree,
    node: TreeNode,
    payoff: P,
) -> Option<CompileError> {
    if node.chance is Some {
        None
    } else {
        match node.leaf {
            Some(LeafKind::RoundComplete) => Some(CompileError::RoundComplete { node: node.id }),
            Some(LeafKind::Terminal(_)) => match payoff.spec_utility(node) {
                Ok(_) => None,
                Err(error) => Some(CompileError::Payoff(error)),
            },
            None => match node.state.actor {
                None => Some(CompileError::NoActor { node: node.id }),
                Some(player) => if player > 1 {
                    Some(CompileError::PlayerOutside { node: node.id, player })
                } else if label_error(tree, node, 0) is Some {
                    label_error(tree, node, 0)
                } else if node.children@.len() == 0 {
                    Some(CompileError::NoActions { node: node.id })
                } else {
                    None
                },
            },
        }
    }
}

pub open spec fn first_public_problem<P: TerminalPayoff>(
    tree: GameTree,
    payoff: P,
    from: int,
) -> Option<CompileError>
    decreases tree.nodes@.len() - from,
{
    if from >= tree.nodes@.len() {
        None
    } else {
        match public_problem(tree, tree.nodes@[from], payoff) {
            Some(error) => Some(error),
            None => first_public_problem(tree, payoff, from + 1),
        }
    }
}

/// A compiled tree plus the action labels that belong to each solver node.
///
/// A game stores only the numbers of its nodes. This keeps the actions beside
/// it, so that positions of a strategy can be mapped back to them.
#[derive(Debug, Clone)]
pub struct CompiledHoldemGame {
    pub game: StaticGame,
    pub actions: Vec<Vec<Action>>,
    pub tree_node_ids: Vec<Option<usize>>,
    pub private_hands: Vec<Option<[Combo; 2]>>,
}

#[derive(Debug, Clone, Copy, PartialEq, Eq, Structural)]
pub enum HoldemError {
    Compile(CompileError),
    Game(GameError),
    Multiway(MultiwayError),
}

impl CompiledHoldemGame {
    pub fn game(&self) -> (game: &StaticGame)
        ensures
            *game == self.game,
    {
        &self.game
    }

    pub fn into_game(self) -> (game: StaticGame)
        ensures
            game == self.game,
    {
        self.game
    }

    pub fn actions_at(&self, node_id: NodeId) -> (actions: Option<&[Action]>)
        ensures
            actions is Some <==> node_id < self.actions@.len(),
            actions matches Some(found) ==> found@ == self.actions@[node_id as int]@,
    {
        if node_id < self.actions.len() {
            Some(self.actions[node_id].as_slice())
        } else {
            None
        }
    }

    pub fn action(&self, node_id: NodeId, action_index: usize) -> (action: Option<&Action>)
        ensures
            action is Some <==> node_id < self.actions@.len() && action_index
                < self.actions@[node_id as int]@.len(),
            action matches Some(found) ==> *found
                == self.actions@[node_id as int]@[action_index as int],
    {
        if node_id < self.actions.len() && action_index < self.actions[node_id].len() {
            Some(&self.actions[node_id][action_index])
        } else {
            None
        }
    }

    pub fn tree_node_id(&self, solver_node_id: NodeId) -> (id: Option<usize>)
        ensures
            id == (if solver_node_id < self.tree_node_ids@.len() {
                self.tree_node_ids@[solver_node_id as int]
            } else {
                None
            }),
    {
        if solver_node_id < self.tree_node_ids.len() {
            self.tree_node_ids[solver_node_id]
        } else {
            None
        }
    }

    pub fn private_hands_at(&self, solver_node_id: NodeId) -> (hands: Option<[Combo; 2]>)
        ensures
            hands == (if solver_node_id < self.private_hands@.len() {
                self.private_hands@[solver_node_id as int]
            } else {
                None
            }),
    {
        if solver_node_id < self.private_hands.len() {
            self.private_hands[solver_node_id]
        } else {
            None
        }
    }

    pub fn node_count(&self) -> (count: usize)
        ensures
            count == self.game.nodes@.len(),
    {
        self.game.nodes.len()
    }

    /// The number of deals at the root.
    pub fn private_deal_count(&self) -> (count: usize)
        ensures
            count == spec_deal_count(self.game),
    {
        if self.game.root < self.game.nodes.len() {
            if let GameNode::Chance { outcomes } = &self.game.nodes[self.game.root] {
                return outcomes.len();
            }
        }
        0
    }
}

pub open spec fn spec_deal_count(game: StaticGame) -> nat {
    if game.root < game.nodes@.len() {
        match game.nodes@[game.root as int] {
            GameNode::Chance { outcomes } => outcomes@.len(),
            _ => 0,
        }
    } else {
        0
    }
}

fn public_outcomes(node: &TreeNode, outcomes: &Vec<ChanceOutcome>) -> (edges: Vec<(u64, usize)>)
    requires
        outcomes@.len() == node.children@.len(),
    ensures
        edges@.len() == outcomes@.len(),
        forall|k: int|
            0 <= k < edges@.len() ==> #[trigger] edges@[k] == (
                outcomes@[k].probability,
                node.children@[k],
            ),
{
    let mut edges: Vec<(u64, usize)> = Vec::new();
    let mut k: usize = 0;
    while k < outcomes.len()
        invariant
            k <= outcomes@.len(),
            outcomes@.len() == node.children@.len(),
            edges@.len() == k,
            forall|i: int|
                0 <= i < k ==> #[trigger] edges@[i] == (
                    outcomes@[i].probability,
                    node.children@[i],
                ),
        decreases outcomes.len() - k,
    {
        edges.push((outcomes[k].probability, node.children[k]));
        k = k + 1;
    }
    edges
}

/// The actions that lead to the children of a decision node.
fn child_labels(tree: &GameTree, node: &TreeNode) -> (result: Result<Vec<Action>, CompileError>)
    requires
        forall|k: int|
            0 <= k < node.children@.len() ==> (#[trigger] node.children@[k]) < tree.nodes@.len(),
    ensures
        match result {
            Ok(labels) => label_error(*tree, *node, 0) is None && labels_of(*tree, *node, labels@),
            Err(error) => label_error(*tree, *node, 0) == Some(error),
        },
{
    let mut labels: Vec<Action> = Vec::new();
    let mut index: usize = 0;
    while index < node.children.len()
        invariant
            index <= node.children@.len(),
            forall|k: int|
                0 <= k < node.children@.len() ==> (#[trigger] node.children@[k])
                    < tree.nodes@.len(),
            labels@.len() == index,
            forall|k: int|
                0 <= k < index ==> tree.nodes@[node.children@[k] as int].action_from_parent == Some(
                    #[trigger] labels@[k],
                ),
            label_error(*tree, *node, 0) == label_error(*tree, *node, index as int),
        decreases node.children.len() - index,
    {
        let child = node.children[index];
        assert(node.children@[index as int] < tree.nodes@.len());
        let action = match tree.nodes[child].action_from_parent {
            None => {
                return Err(CompileError::MissingAction { node: node.id, child });
            },
            Some(action) => action,
        };
        let mut earlier: usize = 0;
        while earlier < labels.len()
            invariant
                earlier <= labels@.len(),
                labels@.len() == index,
                index < node.children@.len(),
                child == node.children@[index as int],
                tree.nodes@[child as int].action_from_parent == Some(action),
                forall|k: int|
                    0 <= k < index ==> tree.nodes@[node.children@[k] as int].action_from_parent
                        == Some(#[trigger] labels@[k]),
                label_error(*tree, *node, 0) == label_error(*tree, *node, index as int),
                forall|k: int| 0 <= k < earlier ==> labels@[k] != action,
            decreases labels.len() - earlier,
        {
            if labels[earlier] == action {
                assert(tree.nodes@[node.children@[earlier as int] as int].action_from_parent
                    == Some(labels@[earlier as int]));
                return Err(CompileError::DuplicateAction { node: node.id, action });
            }
            earlier = earlier + 1;
        }
        assert forall|j: int| 0 <= j < index implies tree.nodes@[(#[trigger] node.children@[j])
            as int].action_from_parent != Some(action) by {
            assert(labels@[j] != action);
        }
        labels.push(action);
        index = index + 1;
    }
    Ok(labels)
}

/// Compiles a public tree, each decision node with an information set of its
/// own.
///
/// That is right for games of perfect information and for trees of a fixed
/// board, not for private cards.
pub fn compile_holdem_tree<P: TerminalPayoff>(
    tree: &GameTree,
    facts: &[NodeFacts],
    payoff: &P,
    sums_ok: &[bool],
) -> (result: Result<CompiledHoldemGame, HoldemError>)
    requires
        facts@.len() == tree.nodes@.len(),
        sums_ok@.len() == tree.nodes@.len(),
    ensures
        match result {
            Ok(compiled) => {
                &&& compilable(*tree, facts@)
                &&& first_public_problem(*tree, *payoff, 0) is None
                &&& compiled.game.root == tree.root
                &&& game_error(compiled.game, sums_ok@) is None
                &&& compiled.game.nodes@.len() == tree.nodes@.len()
                &&& compiled.actions@.len() == tree.nodes@.len()
                &&& compiled.tree_node_ids@ == Seq::new(
                    tree.nodes@.len(),
                    |i: int| Some(i as usize),
                )
                &&& compiled.private_hands@ == Seq::new(
                    tree.nodes@.len(),
                    |i: int| None::<[Combo; 2]>,
                )
                &&& forall|i: int|
                    0 <= i < tree.nodes@.len() ==> public_copy(
                        tree.nodes@[i],
                        *payoff,
                        #[trigger] compiled.game.nodes@[i],
                    )
                &&& forall|i: int|
                    0 <= i < tree.nodes@.len() ==> if tree.nodes@[i].chance is None
                        && tree.nodes@[i].leaf is None {
                        labels_of(*tree, tree.nodes@[i], (#[trigger] compiled.actions@[i])@)
                    } else {
                        compiled.actions@[i]@.len() == 0
                    }
            },
            Err(HoldemError::Compile(error)) => if !compilable(*tree, facts@) {
                tree_verdict(*tree, facts@, error)
            } else {
                first_public_problem(*tree, *payoff, 0) == Some(error)
            },
            Err(HoldemError::Game(error)) => {
                &&& compilable(*tree, facts@)
                &&& first_public_problem(*tree, *payoff, 0) is None
                &&& exists|nodes: Vec<GameNode>|
                    {
                        &&& nodes@.len() == tree.nodes@.len()
                        &&& forall|i: int|
                            0 <= i < tree.nodes@.len() ==> public_copy(
                                tree.nodes@[i],
                                *payoff,
                                #[trigger] nodes@[i],
                            )
                        &&& #[trigger] game_error(
                            (StaticGame { root: tree.root, nodes }),
                            sums_ok@,
                        ) == Some(error)
                    }
            },
            Err(HoldemError::Multiway(_)) => false,
        },
{
    match check_tree(tree, facts) {
        Ok(_) => {},
        Err(error) => {
            return Err(HoldemError::Compile(error));
        },
    }
    let mut nodes: Vec<GameNode> = Vec::new();
    let mut actions: Vec<Vec<Action>> = Vec::new();
    let mut tree_node_ids: Vec<Option<usize>> = Vec::new();
    let mut private_hands: Vec<Option<[Combo; 2]>> = Vec::new();
    let mut id: usize = 0;
    while id < tree.nodes.len()
        invariant
            id <= tree.nodes@.len(),
            compilable(*tree, facts@),
            tree_in_order(*tree),
            first_public_problem(*tree, *payoff, 0) == first_public_problem(
                *tree,
                *payoff,
                id as int,
            ),
            nodes@.len() == id,
            actions@.len() == id,
            tree_node_ids@ == Seq::new(id as nat, |i: int| Some(i as usize)),
            private_hands@ == Seq::new(id as nat, |i: int| None::<[Combo; 2]>),
            forall|i: int|
                0 <= i < id ==> public_copy(tree.nodes@[i], *payoff, #[trigger] nodes@[i]),
            forall|i: int|
                0 <= i < id ==> if tree.nodes@[i].chance is None && tree.nodes@[i].leaf is None {
                    labels_of(*tree, tree.nodes@[i], (#[trigger] actions@[i])@)
                } else {
                    actions@[i]@.len() == 0
                },
        decreases tree.nodes.len() - id,
    {
        let node = &tree.nodes[id];
        assert(tree.nodes@[id as int].id == id);
        let mut labels: Vec<Action> = Vec::new();
        let copy = if let Some(chance) = &node.chance {
            GameNode::Chance { outcomes: public_outcomes(node, &chance.outcomes) }
        } else {
            match node.leaf {
                Some(LeafKind::RoundComplete) => {
                    return Err(
                        HoldemError::Compile(CompileError::RoundComplete { node: node.id }),
                    );
                },
                Some(LeafKind::Terminal(_)) => match payoff.utility(node) {
                    Ok(utility) => GameNode::Terminal { utility },
                    Err(error) => {
                        return Err(HoldemError::Compile(CompileError::Payoff(error)));
                    },
                },
                None => {
                    let player = match node.state.actor {
                        None => {
                            return Err(
                                HoldemError::Compile(CompileError::NoActor { node: node.id }),
                            );
                        },
                        Some(player) => player,
                    };
                    if player > 1 {
                        return Err(
                            HoldemError::Compile(
                                CompileError::PlayerOutside { node: node.id, player },
                            ),
                        );
                    }
                    match child_labels(tree, node) {
                        Ok(found) => {
                            labels = found;
                        },
                        Err(error) => {
                            return Err(HoldemError::Compile(error));
                        },
                    }
                    if labels.len() == 0 {
                        return Err(
                            HoldemError::Compile(CompileError::NoActions { node: node.id }),
                        );
                    }
                    let children = node.children.clone();
                    assert(children@ =~= node.children@);
                    GameNode::Decision {
                        player,
                        infoset: perfect_information_infoset(node.id),
                        children,
                    }
                },
            }
        };
        nodes.push(copy);
        actions.push(labels);
        tree_node_ids.push(Some(id));
        private_hands.push(None);
        id = id + 1;
        assert(tree_node_ids@ =~= Seq::new(id as nat, |i: int| Some(i as usize)));
        assert(private_hands@ =~= Seq::new(id as nat, |i: int| None::<[Combo; 2]>));
    }
    let ghost made = nodes;
    match StaticGame::new(tree.root, nodes, sums_ok) {
        Ok(game) => Ok(CompiledHoldemGame { game, actions, tree_node_ids, private_hands }),
        Err(error) => {
            assert(game_error((StaticGame { root: tree.root, nodes: made }), sums_ok@) == Some(
                error,
            ));
            Err(HoldemError::Game(error))
        },
    }
}

/// What is wrong with the deals of a table of `players` seats, from `from` on.
pub open spec fn deals_error(
    deals: Seq<MultiwayPrivateDeal>,
    players: usize,
    from: int,
) -> Option<CompileError>
    decreases deals.len() - from,
{
    if from >= deals.len() {
        None
    } else if deals[from].hands@.len() != players {
        Some(CompileError::DealHands { hands: deals[from].hands@.len() as usize, players })
    } else if !(finite(deals[from].probability) && above_zero(deals[from].probability)) {
        Some(CompileError::DealProbability)
    } else if !disjoint_hands(deals[from].hands@) {
        Some(CompileError::Payoff(PayoffError::DuplicateCards))
    } else {
        deals_error(deals, players, from + 1)
    }
}

/// A draft holds, behind its root, the copies of the tree for the first deals,
/// one after the other, with information sets numbered as they are completed.
pub open spec fn deals_copied<P: MultiwayTerminalPayoff>(
    draft: Draft,
    tree: GameTree,
    hands: Seq<Seq<Combo>>,
    payoffs: Seq<P>,
    ids: Seq<usize>,
) -> bool {
    &&& draft.wf()
    &&& draft.nodes@.len() > 0
    &&& ids.len() <= hands.len()
    &&& hands.len() == payoffs.len()
    &&& numbered_in_order(draft)
    &&& ids.len() == 0 ==> draft.nodes@.len() == 1
    &&& ids.len() > 0 ==> ids[0] == 1 && draft.ends@[ids.last() as int] == draft.nodes@.len()
    &&& forall|k: int|
        0 <= k < ids.len() ==> deal_copied(
            draft,
            tree,
            hands[k],
            payoffs[k],
            #[trigger] ids[k] as int,
        )
    &&& forall|k: int| 0 < k < ids.len() ==> #[trigger] ids[k] == draft.ends@[ids[k - 1] as int]
}

/// The copy of the tree for one deal starts at `at`.
pub open spec fn deal_copied<P: MultiwayTerminalPayoff>(
    draft: Draft,
    tree: GameTree,
    hands: Seq<Combo>,
    payoff: P,
    at: int,
) -> bool {
    &&& 0 < at < draft.ends@[at] <= draft.nodes@.len()
    &&& is_copy(draft, at, tree.root, hands)
    &&& forall|j: int|
        at <= j < draft.ends@[at] ==> #[trigger] copied(draft, tree, j, hands, payoff)
}

proof fn lemma_deal_kept<P: MultiwayTerminalPayoff>(
    a: Draft,
    b: Draft,
    tree: GameTree,
    hands: Seq<Combo>,
    payoff: P,
    at: int,
)
    requires
        deal_copied(a, tree, hands, payoff, at),
        kept_from(a, b, 1),
    ensures
        deal_copied(b, tree, hands, payoff, at),
        b.ends@[at] == a.ends@[at],
{
    assert(kept_at(a, b, at));
    assert forall|j: int| at <= j < b.ends@[at] implies #[trigger] copied(
        b,
        tree,
        j,
        hands,
        payoff,
    ) by {
        assert(copied(a, tree, j, hands, payoff));
        assert(kept_from(a, b, j));
        crate::compile::lemma_copied_kept(a, b, tree, j, hands, payoff);
    }
}

proof fn lemma_deal_appended<P: MultiwayTerminalPayoff>(
    before: Draft,
    after: Draft,
    tree: GameTree,
    hands: Seq<Seq<Combo>>,
    payoffs: Seq<P>,
    ids: Seq<usize>,
)
    requires
        deals_copied(before, tree, hands, payoffs, ids),
        ids.len() < hands.len(),
        before.nodes@.len() <= usize::MAX,
        appended(
            before,
            after,
            tree,
            tree.root,
            hands[ids.len() as int],
            payoffs[ids.len() as int],
        ),
    ensures
        deals_copied(after, tree, hands, payoffs, ids.push(before.nodes@.len() as usize)),
{
    let more = ids.push(before.nodes@.len() as usize);
    assert(kept_from(before, after, 1));
    assert forall|k: int| 0 <= k < more.len() implies deal_copied(
        after,
        tree,
        hands[k],
        payoffs[k],
        #[trigger] more[k] as int,
    ) by {
        if k < ids.len() {
            assert(deal_copied(before, tree, hands[k], payoffs[k], ids[k] as int));
            lemma_deal_kept(before, after, tree, hands[k], payoffs[k], ids[k] as int);
        }
    }
    assert forall|k: int| 0 < k < more.len() implies #[trigger] more[k] == after.ends@[more[k - 1]
        as int] by {
        assert(deal_copied(before, tree, hands[k - 1], payoffs[k - 1], ids[k - 1] as int));
        lemma_deal_kept(before, after, tree, hands[k - 1], payoffs[k - 1], ids[k - 1] as int);
        if k < ids.len() {
            assert(ids[k] == before.ends@[ids[k - 1] as int]);
        }
    }
}

pub open spec fn deal_hands(deals: Seq<MultiwayPrivateDeal>) -> Seq<Seq<Combo>> {
    deals.map(|i: int, deal: MultiwayPrivateDeal| deal.hands@)
}

/// The deals of a draft: the root deals the hands of each deal with the given
/// probability, and the copies of the tree follow in the order of the deals.
pub open spec fn draft_of_deals<P: MultiwayTerminalPayoff>(
    draft: Draft,
    tree: GameTree,
    hands: Seq<Seq<Combo>>,
    probabilities: Seq<u64>,
    payoffs: Seq<P>,
) -> bool {
    &&& draft.nodes@.len() > 0
    &&& draft.nodes@[0] matches MultiwayGameNode::Chance { outcomes }
    &&& outcomes@.len() == hands.len()
    &&& forall|k: int|
        0 <= k < outcomes@.len() ==> (#[trigger] outcomes@[k]).0 == probabilities[k]
    &&& deals_copied(
        draft,
        tree,
        hands,
        payoffs,
        outcomes@.map(|i: int, outcome: (u64, usize)| outcome.1),
    )
}

/// An empty draft with a place for the deal.
fn start_draft() -> (draft: Draft)
    ensures
        draft.wf(),
        draft.nodes@.len() == 1,
        draft.infosets.entries@.len() == 0,
        draft.nodes@[0] is Chance,
        numbered_in_order(draft),
        draft.actions@[0]@.len() == 0,
        draft.tree_node_ids@[0] is None,
        draft.private_hands@[0] is None,
{
    let ghost ends: Seq<int> = seq![0int];
    let mut nodes: Vec<MultiwayGameNode> = Vec::new();
    nodes.push(MultiwayGameNode::Chance { outcomes: Vec::new() });
    let mut actions: Vec<Vec<Action>> = Vec::new();
    actions.push(Vec::new());
    let mut tree_node_ids: Vec<Option<usize>> = Vec::new();
    tree_node_ids.push(None);
    let mut private_hands: Vec<Option<Vec<Combo>>> = Vec::new();
    private_hands.push(None);
    Draft {
        nodes,
        actions,
        tree_node_ids,
        private_hands,
        infosets: Table::new(),
        ends: Ghost(ends),
    }
}

/// Appends the copies of the tree for all deals.
pub fn append_deals<P: MultiwayTerminalPayoff>(
    tree: &GameTree,
    deals: &[MultiwayPrivateDeal],
    payoffs: &[P],
) -> (result: Result<Draft, CompileError>)
    requires
        tree_in_order(*tree),
        tree.root < tree.nodes@.len(),
        exists|ranks: Seq<nat>| #[trigger] ranked(tree_graph(*tree), ranks),
        deals@.len() == payoffs@.len(),
        forall|k: int| 0 <= k < deals@.len() ==> all_valid((#[trigger] deals@[k]).hands@),
    ensures
        match result {
            Ok(draft) => {
                &&& draft_of_deals(
                    draft,
                    *tree,
                    deal_hands(deals@),
                    deals@.map(|i: int, deal: MultiwayPrivateDeal| deal.probability),
                    payoffs@,
                )
                &&& draft.actions@[0]@.len() == 0
                &&& draft.tree_node_ids@[0] is None
                &&& draft.private_hands@[0] is None
                &&& forall|k: int|
                    0 <= k < deals@.len() ==> copies_cleanly(
                        *tree,
                        tree.root,
                        (#[trigger] deals@[k]).hands@,
                        payoffs@[k],
                    )
            },
            Err(error) => exists|k: int|
                {
                    &&& 0 <= k < deals@.len()
                    &&& copy_fails(
                        *tree,
                        tree.root,
                        (#[trigger] deals@[k]).hands@,
                        payoffs@[k],
                        error,
                    )
                    &&& forall|i: int|
                        0 <= i < k ==> copies_cleanly(
                            *tree,
                            tree.root,
                            (#[trigger] deals@[i]).hands@,
                            payoffs@[i],
                        )
                },
        },
{
    let ghost hands = deal_hands(deals@);
    let ghost mut ids: Seq<usize> = Seq::empty();
    let mut draft = start_draft();
    let mut outcomes: Vec<(u64, usize)> = Vec::new();
    let mut index: usize = 0;
    while index < deals.len()
        invariant
            index <= deals@.len(),
            tree_in_order(*tree),
            descends(*tree),
            tree.root < tree.nodes@.len(),
            deals@.len() == payoffs@.len(),
            forall|k: int| 0 <= k < deals@.len() ==> all_valid((#[trigger] deals@[k]).hands@),
            hands == deal_hands(deals@),
            ids.len() == index,
            outcomes@.len() == index,
            forall|k: int|
                0 <= k < index ==> (#[trigger] outcomes@[k]).0 == deals@[k].probability
                    && outcomes@[k].1 == ids[k],
            deals_copied(draft, *tree, hands, payoffs@, ids),
            draft.nodes@[0] is Chance,
            draft.actions@[0]@.len() == 0,
            draft.tree_node_ids@[0] is None,
            draft.private_hands@[0] is None,
            forall|k: int|
                0 <= k < index ==> copies_cleanly(
                    *tree,
                    tree.root,
                    (#[trigger] deals@[k]).hands@,
                    payoffs@[k],
                ),
        decreases deals.len() - index,
    {
        let ghost before = draft;
        assert(all_valid(deals@[index as int].hands@));
        match append_node(
            tree,
            tree.root,
            &deals[index].hands,
            &payoffs[index],
            &mut draft,
        ) {
            Err(error) => {
                assert(copy_fails(
                    *tree,
                    tree.root,
                    deals@[index as int].hands@,
                    payoffs@[index as int],
                    error,
                ));
                return Err(error);
            },
            Ok(id) => {
                proof {
                    assert(hands[index as int] == deals@[index as int].hands@);
                    lemma_deal_appended(before, draft, *tree, hands, payoffs@, ids);
                    assert(kept_at(before, draft, 0));
                    ids = ids.push(id);
                }
                outcomes.push((deals[index].probability, id));
            },
        }
        index = index + 1;
    }
    let ghost before = draft;
    let ghost listed = outcomes@;
    draft.nodes[0] = MultiwayGameNode::Chance { outcomes };
    proof {
        assert(listed.map(|i: int, outcome: (u64, usize)| outcome.1) =~= ids);
        assert(kept_from(before, draft, 1)) by {
            assert forall|i: int| 1 <= i < before.nodes@.len() implies #[trigger] kept_at(
                before,
                draft,
                i,
            ) by {}
        }
        assert forall|k: int| 0 <= k < ids.len() implies deal_copied(
            draft,
            *tree,
            hands[k],
            payoffs@[k],
            #[trigger] ids[k] as int,
        ) by {
            lemma_deal_kept(before, draft, *tree, hands[k], payoffs@[k], ids[k] as int);
        }
        assert forall|k: int| 0 < k < ids.len() implies #[trigger] ids[k] == draft.ends@[ids[k - 1]
            as int] by {
            lemma_deal_kept(
                before,
                draft,
                *tree,
                hands[k - 1],
                payoffs@[k - 1],
                ids[k - 1] as int,
            );
        }
        lemma_numbering_kept(before, draft);
        assert(deals_copied(draft, *tree, hands, payoffs@, ids));
    }
    Ok(draft)
}

/// Why deals cannot be compiled with a tree of three to eight seats, short of
/// the copies themselves.
pub open spec fn multiway_compile_error(
    tree: GameTree,
    deals: Seq<MultiwayPrivateDeal>,
) -> Option<CompileError> {
    let players = tree.nodes@[tree.root as int].state.table_size;
    if deals.len() == 0 {
        Some(CompileError::NoDeals)
    } else if !(3 <= players <= 8) {
        Some(CompileError::SeatCount { players })
    } else {
        deals_error(deals, players, 0)
    }
}

pub fn hands_disjoint(hands: &Vec<Combo>) -> (yes: bool)
    requires
        all_valid(hands@),
    ensures
        yes == disjoint_hands(hands@),
{
    let mut i: usize = 0;
    while i < hands.len()
        invariant
            i <= hands@.len(),
            all_valid(hands@),
            forall|a: int, b: int|
                0 <= a < i && a < b < hands@.len() ==> (#[trigger] hands@[a]).spec_mask() & (
                #[trigger] hands@[b]).spec_mask() == 0,
        decreases hands.len() - i,
    {
        assert(hands@[i as int].valid());
        let mask = hands[i].mask();
        let mut j: usize = i + 1;
        while j < hands.len()
            invariant
                i < j <= hands@.len(),
                all_valid(hands@),
                mask == hands@[i as int].spec_mask(),
                forall|b: int|
                    i < b < j ==> mask & (#[trigger] hands@[b]).spec_mask() == 0,
            decreases hands.len() - j,
        {
            assert(hands@[j as int].valid());
            if mask & hands[j].mask() != 0 {
                assert(hands@[i as int].spec_mask() & hands@[j as int].spec_mask() != 0);
                return false;
            }
            j = j + 1;
        }
        i = i + 1;
    }
    true
}

/// Compiles a public tree of three to eight seats for a list of deals.
///
/// Information sets are shared by public node, acting player and own hand, and
/// never depend on the hands of others. Public cards that a deal holds are left
/// out. The probabilities in the draft are those of the deals and of the public
/// tree: [`finish_multiway`] takes the scaled ones. Each deal is settled by the
/// payoff of its own hands.
pub fn compile_multiway_holdem_tree(
    tree: &GameTree,
    facts: &[NodeFacts],
    deals: &[MultiwayPrivateDeal],
    payoffs: &[MultiwayHoldemChipEvPayoff],
) -> (result: Result<Draft, CompileError>)
    requires
        facts@.len() == tree.nodes@.len(),
        deals@.len() == payoffs@.len(),
        forall|k: int| 0 <= k < deals@.len() ==> all_valid((#[trigger] deals@[k]).hands@),
        forall|k: int|
            0 <= k < deals@.len() ==> (#[trigger] payoffs@[k]).hands@ == deals@[k].hands@,
    ensures
        compilable(*tree, facts@) ==> descends(*tree),
        match result {
            Ok(draft) => {
                &&& compilable(*tree, facts@)
                &&& multiway_compile_error(*tree, deals@) is None
                &&& draft_of_deals(
                    draft,
                    *tree,
                    deal_hands(deals@),
                    deals@.map(|i: int, deal: MultiwayPrivateDeal| deal.probability),
                    payoffs@,
                )
                &&& draft.actions@[0]@.len() == 0
                &&& draft.tree_node_ids@[0] is None
                &&& draft.private_hands@[0] is None
                &&& forall|k: int|
                    0 <= k < deals@.len() ==> copies_cleanly(
                        *tree,
                        tree.root,
                        (#[trigger] deals@[k]).hands@,
                        payoffs@[k],
                    )
            },
            Err(error) => if !compilable(*tree, facts@) {
                tree_verdict(*tree, facts@, error)
            } else if multiway_compile_error(*tree, deals@) is Some {
                multiway_compile_error(*tree, deals@) == Some(error)
            } else {
                exists|k: int|
                    {
                        &&& 0 <= k < deals@.len()
                        &&& copy_fails(
                            *tree,
                            tree.root,
                            (#[trigger] deals@[k]).hands@,
                            payoffs@[k],
                            error,
                        )
                        &&& forall|i: int|
                            0 <= i < k ==> copies_cleanly(
                                *tree,
                                tree.root,
                                (#[trigger] deals@[i]).hands@,
                                payoffs@[i],
                            )
                    }
            },
        },
{
    match check_tree(tree, facts) {
        Ok(_) => {},
        Err(error) => {
            return Err(error);
        },
    }
    if deals.len() == 0 {
        return Err(CompileError::NoDeals);
    }
    let players = tree.nodes[tree.root].state.table_size;
    if players < 3 || players > 8 {
        return Err(CompileError::SeatCount { players });
    }
    let mut index: usize = 0;
    while index < deals.len()
        invariant
            descends(*tree),
            index <= deals@.len(),
            compilable(*tree, facts@),
            forall|k: int| 0 <= k < deals@.len() ==> all_valid((#[trigger] deals@[k]).hands@),
            multiway_compile_error(*tree, deals@) == deals_error(deals@, players, index as int),
        decreases deals.len() - index,
    {
        let deal = &deals[index];
        assert(all_valid(deals@[index as int].hands@));
        if deal.hands.len() != players {
            return Err(CompileError::DealHands { hands: deal.hands.len(), players });
        }
        if !is_above_zero(deal.probability) || !is_finite(deal.probability) {
            return Err(CompileError::DealProbability);
        }
        if !hands_disjoint(&deal.hands) {
            return Err(CompileError::Payoff(PayoffError::DuplicateCards));
        }
        index = index + 1;
    }
    append_deals(tree, deals, payoffs)
}

/// Two decisions of a draft share their information set exactly when they stem
/// from one public node and one player who holds the same hand: nobody's
/// strategy depends on the cards of others, and nobody forgets their own.
pub proof fn lemma_infosets_are_shared_by_own_hand<P: MultiwayTerminalPayoff>(
    draft: Draft,
    tree: GameTree,
    left: int,
    left_hands: Seq<Combo>,
    left_payoff: P,
    right: int,
    right_hands: Seq<Combo>,
    right_payoff: P,
)
    requires
        draft.wf(),
        all_valid(left_hands),
        all_valid(right_hands),
        copied(draft, tree, left, left_hands, left_payoff),
        copied(draft, tree, right, right_hands, right_payoff),
        draft.nodes@[left] is Decision,
        draft.nodes@[right] is Decision,
    ensures
        ({
            let a = draft.nodes@[left];
            let b = draft.nodes@[right];
            a->infoset == b->infoset <==> {
                &&& draft.tree_node_ids@[left] == draft.tree_node_ids@[right]
                &&& a->player == b->player
                &&& left_hands[a->player as int] == right_hands[b->player as int]
            }
        }),
{
    let a = draft.nodes@[left];
    let b = draft.nodes@[right];
    let hand_a = left_hands[a->player as int];
    let hand_b = right_hands[b->player as int];
    let key_a = decision_table_key(draft.tree_node_ids@[left]->Some_0, a->player, hand_a);
    let key_b = decision_table_key(draft.tree_node_ids@[right]->Some_0, b->player, hand_b);
    assert(draft.infosets.has(key_a) && draft.infosets.has(key_b));
    let entries = draft.infosets.entries@;
    let i = choose|i: int| 0 <= i < entries.len() && (#[trigger] entries[i]).0 == key_a;
    let j = choose|j: int| 0 <= j < entries.len() && (#[trigger] entries[j]).0 == key_b;
    lemma_entry(draft.infosets, i);
    lemma_entry(draft.infosets, j);
    if i < j {
        assert(entries[i].1 != entries[j].1);
    }
    if j < i {
        assert(entries[j].1 != entries[i].1);
    }
    assert(hand_a.valid() && hand_b.valid());
    assert(hand_code(hand_a) == hand_code(hand_b) ==> hand_a == hand_b);
}

/// A game of three to eight seats with the labels of its nodes.
#[derive(Debug, Clone)]
pub struct MultiwayCompiledHoldemGame {
    pub game: MultiwayStaticGame,
    pub actions: Vec<Vec<Action>>,
    pub tree_node_ids: Vec<Option<usize>>,
    pub private_hands: Vec<Option<Vec<Combo>>>,
}

/// Same node but for the probabilities of its outcomes, which are `scaled`.
pub open spec fn rescaled(
    before: MultiwayGameNode,
    after: MultiwayGameNode,
    scaled: Seq<u64>,
) -> bool {
    match before {
        MultiwayGameNode::Chance { outcomes } => {
            &&& after matches MultiwayGameNode::Chance { outcomes: changed }
            &&& changed@ == Seq::new(
                outcomes@.len(),
                |k: int| (scaled[k], outcomes@[k].1),
            )
        },
        _ => after == before,
    }
}

/// `scaled` has a probability for each outcome of each chance node.
pub open spec fn scales(nodes: Seq<MultiwayGameNode>, scaled: Seq<Vec<u64>>) -> bool {
    &&& scaled.len() == nodes.len()
    &&& forall|i: int|
        0 <= i < nodes.len() ==> (#[trigger] nodes[i] matches MultiwayGameNode::Chance { outcomes }
            ==> scaled[i]@.len() == outcomes@.len())
}

pub fn rescale_nodes(nodes: Vec<MultiwayGameNode>, scaled: &Vec<Vec<u64>>) -> (changed: Vec<
    MultiwayGameNode,
>)
    requires
        scales(nodes@, scaled@),
    ensures
        changed@.len() == nodes@.len(),
        forall|i: int|
            0 <= i < nodes@.len() ==> rescaled(nodes@[i], #[trigger] changed@[i], scaled@[i]@),
{
    let ghost before = nodes@;
    let mut changed = nodes;
    let mut index: usize = 0;
    while index < changed.len()
        invariant
            index <= changed@.len(),
            changed@.len() == before.len(),
            scales(before, scaled@),
            forall|i: int|
                0 <= i < index ==> rescaled(before[i], #[trigger] changed@[i], scaled@[i]@),
            forall|i: int| index <= i < before.len() ==> #[trigger] changed@[i] == before[i],
        decreases changed.len() - index,
    {
        let mut fresh: Option<Vec<(u64, usize)>> = None;
        if let MultiwayGameNode::Chance { outcomes } = &changed[index] {
            assert(changed@[index as int] == before[index as int]);
            let mut edges: Vec<(u64, usize)> = Vec::new();
            let mut k: usize = 0;
            while k < outcomes.len()
                invariant
                    k <= outcomes@.len(),
                    index < scaled@.len(),
                    scaled@[index as int]@.len() == outcomes@.len(),
                    edges@ == Seq::new(
                        k as nat,
                        |i: int| (scaled@[index as int]@[i], outcomes@[i].1),
                    ),
                decreases outcomes.len() - k,
            {
                edges.push((scaled[index][k], outcomes[k].1));
                k = k + 1;
                assert(edges@ =~= Seq::new(
                    k as nat,
                    |i: int| (scaled@[index as int]@[i], outcomes@[i].1),
                ));
            }
            fresh = Some(edges);
        }
        assert(changed@[index as int] == before[index as int]);
        if let Some(edges) = fresh {
            changed[index] = MultiwayGameNode::Chance { outcomes: edges };
        }
        index = index + 1;
    }
    changed
}

/// Makes the game of a draft, with scaled probabilities.
pub fn finish_multiway(
    draft: Draft,
    player_count: usize,
    scaled: &Vec<Vec<u64>>,
    sums_ok: &[bool],
) -> (result: Result<MultiwayCompiledHoldemGame, HoldemError>)
    requires
        draft.wf(),
        scales(draft.nodes@, scaled@),
        sums_ok@.len() == draft.nodes@.len(),
    ensures
        match result {
            Ok(compiled) => {
                &&& compiled.game.player_count == player_count
                &&& compiled.game.root == 0
                &&& compiled.game.nodes@.len() == draft.nodes@.len()
                &&& forall|i: int|
                    0 <= i < draft.nodes@.len() ==> rescaled(
                        draft.nodes@[i],
                        #[trigger] compiled.game.nodes@[i],
                        scaled@[i]@,
                    )
                &&& compiled.game.valid(sums_ok@)
                &&& compiled.actions == draft.actions
                &&& compiled.tree_node_ids == draft.tree_node_ids
                &&& compiled.private_hands == draft.private_hands
            },
            Err(HoldemError::Multiway(error)) => exists|game: MultiwayStaticGame|
                {
                    &&& game.player_count == player_count
                    &&& game.root == 0
                    &&& game.nodes@.len() == draft.nodes@.len()
                    &&& forall|i: int|
                        0 <= i < draft.nodes@.len() ==> rescaled(
                            draft.nodes@[i],
                            #[trigger] game.nodes@[i],
                            scaled@[i]@,
                        )
                    &&& !game.valid(sums_ok@)
                    &&& #[trigger] multiway_verdict(game, sums_ok@, Err(error))
                },
            Err(_) => false,
        },
{
    let Draft { nodes, actions, tree_node_ids, private_hands, .. } = draft;
    let nodes = rescale_nodes(nodes, scaled);
    let ghost made = MultiwayStaticGame { player_count, root: 0, nodes };
    match MultiwayStaticGame::new(player_count, 0, nodes, sums_ok) {
        Ok(game) => Ok(
            MultiwayCompiledHoldemGame { game, actions, tree_node_ids, private_hands },
        ),
        Err(error) => {
            assert(multiway_verdict(made, sums_ok@, Err(error)));
            Err(HoldemError::Multiway(error))
        },
    }
}

impl MultiwayCompiledHoldemGame {
    pub fn game(&self) -> (game: &MultiwayStaticGame)
        ensures
            *game == self.game,
    {
        &self.game
    }

    pub fn into_game(self) -> (game: MultiwayStaticGame)
        ensures
            game == self.game,
    {
        self.game
    }

    pub fn actions_at(&self, node_id: usize) -> (actions: Option<&[Action]>)
        ensures
            actions is Some <==> node_id < self.actions@.len(),
            actions matches Some(found) ==> found@ == self.actions@[node_id as int]@,
    {
        if node_id < self.actions.len() {
            Some(self.actions[node_id].as_slice())
        } else {
            None
        }
    }

    pub fn action(&self, node_id: usize, action_index: usize) -> (action: Option<&Action>)
        ensures
            action is Some <==> node_id < self.actions@.len() && action_index
                < self.actions@[node_id as int]@.len(),
            action matches Some(found) ==> *found
                == self.actions@[node_id as int]@[action_index as int],
    {
        if node_id < self.actions.len() && action_index < self.actions[node_id].len() {
            Some(&self.actions[node_id][action_index])
        } else {
            None
        }
    }

    pub fn tree_node_id(&self, solver_node_id: usize) -> (id: Option<usize>)
        ensures
            id == (if solver_node_id < self.tree_node_ids@.len() {
                self.tree_node_ids@[solver_node_id as int]
            } else {
                None
            }),
    {
        if solver_node_id < self.tree_node_ids.len() {
            self.tree_node_ids[solver_node_id]
        } else {
            None
        }
    }

    pub fn private_hands_at(&self, solver_node_id: usize) -> (hands: Option<&[Combo]>)
        ensures
            hands is Some <==> solver_node_id < self.private_hands@.len()
                && self.private_hands@[solver_node_id as int] is Some,
            hands matches Some(found) ==> found@
                == self.private_hands@[solver_node_id as int]->Some_0@,
    {
        if solver_node_id < self.private_hands.len() {
            match &self.private_hands[solver_node_id] {
                Some(hands) => Some(hands.as_slice()),
                None => None,
            }
        } else {
            None
        }
    }

    pub fn node_count(&self) -> (count: usize)
        ensures
            count == self.game.nodes@.len(),
    {
        self.game.nodes.len()
    }

    /// The number of deals at the root.
    pub fn private_deal_count(&self) -> (count: usize)
        ensures
            count == (if self.game.root < self.game.nodes@.len() {
                match self.game.nodes@[self.game.root as int] {
                    MultiwayGameNode::Chance { outcomes } => outcomes@.len(),
                    _ => 0,
                }
            } else {
                0
            }),
    {
        if self.game.root < self.game.nodes.len() {
            if let MultiwayGameNode::Chance { outcomes } = &self.game.nodes[self.game.root] {
                return outcomes.len();
            }
        }
        0
    }
}

/// A heads-up payoff with its utilities in a list.
pub struct PairPayoff<'a> {
    pub inner: &'a HoldemChipEvPayoff,
}

impl<'a> MultiwayTerminalPayoff for PairPayoff<'a> {
    open spec fn spec_utility(&self, node: TreeNode) -> Result<Seq<u64>, PayoffError> {
        match TerminalPayoff::spec_utility(self.inner, node) {
            Ok((first, second)) => Ok(seq![first, second]),
            Err(error) => Err(error),
        }
    }

    fn utility(&self, node: &TreeNode) -> (result: Result<Vec<u64>, PayoffError>) {
        match TerminalPayoff::utility(self.inner, node) {
            Ok(utility) => {
                let list = vec![utility[0], utility[1]];
                assert(list@ =~= seq![utility@[0], utility@[1]]);
                Ok(list)
            },
            Err(error) => Err(error),
        }
    }
}

} // verus!
