//! Public game trees: nodes, links, histories and structural validation.
use vstd::prelude::*;

use crate::cards::Card;
use crate::domain::{Action, GameState, Street, TerminalState};

verus! {

pub type NodeId = usize;

#[derive(Debug, Clone, Copy, PartialEq, Eq, Structural)]
pub enum LeafKind {
    RoundComplete,
    Terminal(TerminalState),
}

/// Cards that may come, with the bits of their probability.
#[derive(Debug)]
pub struct ChanceOutcome {
    pub cards: Vec<Card>,
    pub probability: u64,
}

impl ChanceOutcome {
    pub open spec fn same(self, other: Self) -> bool {
        self.cards@ == other.cards@ && self.probability == other.probability
    }

    pub fn new(cards: Vec<Card>, probability: u64) -> (outcome: Self)
        ensures
            outcome.cards == cards,
            outcome.probability == probability,
    {
        ChanceOutcome { cards, probability }
    }
}

impl Clone for ChanceOutcome {
    fn clone(&self) -> (copy: Self)
        ensures
            copy.same(*self),
    {
        let cards = self.cards.clone();
        assert(cards@ =~= self.cards@);
        ChanceOutcome { cards, probability: self.probability }
    }
}

pub open spec fn same_outcomes(a: Seq<ChanceOutcome>, b: Seq<ChanceOutcome>) -> bool {
    a.len() == b.len() && forall|i: int| 0 <= i < a.len() ==> (#[trigger] a[i]).same(b[i])
}

/// A copy of `outcomes`.
pub fn copy_outcomes(outcomes: &Vec<ChanceOutcome>) -> (copy: Vec<ChanceOutcome>)
    ensures
        same_outcomes(copy@, outcomes@),
{
    let mut copy: Vec<ChanceOutcome> = Vec::new();
    let mut index: usize = 0;
    while index < outcomes.len()
        invariant
            index <= outcomes@.len(),
            copy@.len() == index,
            forall|i: int| 0 <= i < index ==> (#[trigger] copy@[i]).same(outcomes@[i]),
        decreases outcomes.len() - index,
    {
        copy.push(outcomes[index].clone());
        index = index + 1;
    }
    copy
}

#[derive(Debug)]
pub struct ChanceNodeSpec {
    pub next_street: Street,
    pub outcomes: Vec<ChanceOutcome>,
}

#[derive(Debug)]
pub struct TreeNode {
    pub id: NodeId,
    pub parent: Option<NodeId>,
    pub action_from_parent: Option<Action>,
    pub state: GameState,
    pub children: Vec<NodeId>,
    pub leaf: Option<LeafKind>,
    pub chance: Option<ChanceNodeSpec>,
}

#[derive(Debug)]
pub struct GameTree {
    pub root: NodeId,
    pub nodes: Vec<TreeNode>,
}

/// A copy of a list of node or player numbers.
pub fn copy_ids(ids: &Vec<usize>) -> (copy: Vec<usize>)
    ensures
        copy@ == ids@,
{
    let copy = ids.clone();
    assert(copy@ =~= ids@);
    copy
}

impl ChanceNodeSpec {
    pub open spec fn same(self, other: Self) -> bool {
        &&& self.next_street == other.next_street
        &&& same_outcomes(self.outcomes@, other.outcomes@)
    }
}

impl Clone for ChanceNodeSpec {
    fn clone(&self) -> (copy: Self)
        ensures
            copy.same(*self),
    {
        ChanceNodeSpec {
            next_street: self.next_street,
            outcomes: copy_outcomes(&self.outcomes),
        }
    }
}

impl TreeNode {
    pub open spec fn same(self, other: Self) -> bool {
        &&& self.id == other.id
        &&& self.parent == other.parent
        &&& self.action_from_parent == other.action_from_parent
        &&& self.state.same(other.state)
        &&& self.children@ == other.children@
        &&& self.leaf == other.leaf
        &&& match (self.chance, other.chance) {
            (Some(left), Some(right)) => left.same(right),
            (None, None) => true,
            _ => false,
        }
    }
}

impl Clone for TreeNode {
    fn clone(&self) -> (copy: Self)
        ensures
            copy.same(*self),
    {
        let chance = match &self.chance {
            Some(chance) => Some(chance.clone()),
            None => None,
        };
        TreeNode {
            id: self.id,
            parent: self.parent,
            action_from_parent: self.action_from_parent,
            state: self.state.clone(),
            children: copy_ids(&self.children),
            leaf: self.leaf,
            chance,
        }
    }
}

impl GameTree {
    pub open spec fn same(self, other: Self) -> bool {
        &&& self.root == other.root
        &&& self.nodes@.len() == other.nodes@.len()
        &&& forall|i: int|
            0 <= i < self.nodes@.len() ==> (#[trigger] self.nodes@[i]).same(other.nodes@[i])
    }
}

impl Clone for GameTree {
    fn clone(&self) -> (copy: Self)
        ensures
            copy.same(*self),
    {
        let mut nodes: Vec<TreeNode> = Vec::new();
        let mut index: usize = 0;
        while index < self.nodes.len()
            invariant
                index <= self.nodes@.len(),
                nodes@.len() == index,
                forall|i: int| 0 <= i < index ==> (#[trigger] nodes@[i]).same(self.nodes@[i]),
            decreases self.nodes.len() - index,
        {
            nodes.push(self.nodes[index].clone());
            index = index + 1;
        }
        GameTree { root: self.root, nodes }
    }
}

/// What the caller found out about one node: whether its table state is
/// consistent, and whether its chance probabilities sum to one.
#[derive(Debug, Clone, Copy, PartialEq, Eq, Structural)]
pub struct NodeFacts {
    pub state_ok: bool,
    pub probabilities_ok: bool,
}

#[derive(Debug, Clone, Copy, PartialEq, Eq, Structural)]
pub enum TreeError {
    NoNodes,
    RootNotZero,
    IdMismatch { node: usize },
    InvalidState { node: usize },
    RootHasParent,
    MissingParent { node: usize },
    InvalidParent { node: usize, parent: usize },
    ParentMissesChild { parent: usize, node: usize },
    WrongEdge { node: usize },
    InvalidChild { node: usize, child: usize },
    WrongParent { child: usize },
    LeafAndChance { node: usize },
    LeafWithChildren { node: usize },
    LeafWithActor { node: usize },
    ChanceWithActor { node: usize },
    OutcomeMismatch { node: usize },
    BadProbabilities { node: usize },
    NoActor { node: usize },
    NoChildren { node: usize },
    UnknownNode { node: usize },
    ZeroMaxNodes,
    ZeroMaxDepth,
    InvalidInitialState,
    EmptyPostflopOrder,
    DepthLimit { node: usize },
    NodeLimit { limit: usize },
    NoLegalActions { node: usize },
}

/// A node that asks a player to act.
pub open spec fn is_decision(node: TreeNode) -> bool {
    node.leaf is None && node.chance is None
}

pub open spec fn is_chance(node: TreeNode) -> bool {
    node.chance is Some
}

pub open spec fn is_leaf(node: TreeNode) -> bool {
    node.leaf is Some
}

/// What is wrong with the edge into node `index`, if anything.
pub open spec fn edge_error(nodes: Seq<TreeNode>, root: usize, index: usize) -> Option<TreeError> {
    let node = nodes[index as int];
    if index == root {
        if node.parent is Some || node.action_from_parent is Some {
            Some(TreeError::RootHasParent)
        } else {
            None
        }
    } else {
        match node.parent {
            None => Some(TreeError::MissingParent { node: index }),
            Some(parent) => if parent >= nodes.len() {
                Some(TreeError::InvalidParent { node: index, parent })
            } else if !nodes[parent as int].children@.contains(index) {
                Some(TreeError::ParentMissesChild { parent, node: index })
            } else if nodes[parent as int].chance is Some != node.action_from_parent is None {
                Some(TreeError::WrongEdge { node: index })
            } else {
                None
            },
        }
    }
}

/// The first child link of node `index`, from position `from` on, that does
/// not lead to a child of it.
pub open spec fn child_error(nodes: Seq<TreeNode>, index: usize, from: int) -> Option<TreeError>
    decreases nodes[index as int].children@.len() - from,
{
    let children = nodes[index as int].children@;
    if from >= children.len() {
        None
    } else if children[from] >= nodes.len() {
        Some(TreeError::InvalidChild { node: index, child: children[from] })
    } else if nodes[children[from] as int].parent != Some(index) {
        Some(TreeError::WrongParent { child: children[from] })
    } else {
        child_error(nodes, index, from + 1)
    }
}

/// What keeps a node from being a leaf, a chance node or a decision node.
pub open spec fn kind_error(node: TreeNode, facts: NodeFacts, index: usize) -> Option<TreeError> {
    match (node.leaf, node.chance) {
        (Some(_), Some(_)) => Some(TreeError::LeafAndChance { node: index }),
        (Some(_), None) => if node.children@.len() > 0 {
            Some(TreeError::LeafWithChildren { node: index })
        } else if node.state.actor is Some {
            Some(TreeError::LeafWithActor { node: index })
        } else {
            None
        },
        (None, Some(chance)) => if node.state.actor is Some {
            Some(TreeError::ChanceWithActor { node: index })
        } else if chance.outcomes@.len() != node.children@.len() {
            Some(TreeError::OutcomeMismatch { node: index })
        } else if !facts.probabilities_ok {
            Some(TreeError::BadProbabilities { node: index })
        } else {
            None
        },
        (None, None) => if node.state.actor is None {
            Some(TreeError::NoActor { node: index })
        } else if node.children@.len() == 0 {
            Some(TreeError::NoChildren { node: index })
        } else {
            None
        },
    }
}

/// The first thing wrong with node `index`.
pub open spec fn node_error(
    nodes: Seq<TreeNode>,
    root: usize,
    facts: NodeFacts,
    index: usize,
) -> Option<TreeError> {
    let node = nodes[index as int];
    if node.id != index {
        Some(TreeError::IdMismatch { node: index })
    } else if !facts.state_ok {
        Some(TreeError::InvalidState { node: index })
    } else if edge_error(nodes, root, index) is Some {
        edge_error(nodes, root, index)
    } else if child_error(nodes, index, 0) is Some {
        child_error(nodes, index, 0)
    } else {
        kind_error(node, facts, index)
    }
}

/// The first thing wrong with the nodes from `from` on.
pub open spec fn nodes_error(
    nodes: Seq<TreeNode>,
    root: usize,
    facts: Seq<NodeFacts>,
    from: int,
) -> Option<TreeError>
    decreases nodes.len() - from,
{
    if from >= nodes.len() {
        None
    } else if node_error(nodes, root, facts[from], from as usize) is Some {
        node_error(nodes, root, facts[from], from as usize)
    } else {
        nodes_error(nodes, root, facts, from + 1)
    }
}

/// The first thing wrong with the tree.
pub open spec fn tree_error(tree: GameTree, facts: Seq<NodeFacts>) -> Option<TreeError> {
    if tree.nodes@.len() == 0 {
        Some(TreeError::NoNodes)
    } else if tree.root != 0 {
        Some(TreeError::RootNotZero)
    } else {
        nodes_error(tree.nodes@, tree.root, facts, 0)
    }
}

/// The node is at its own position, hangs below a parent that knows it (the
/// first node below none), its children know it, and it is a leaf, a chance
/// node or a decision node with what belongs to one.
pub open spec fn node_well_formed(nodes: Seq<TreeNode>, facts: NodeFacts, index: int) -> bool {
    let node = nodes[index];
    &&& node.id == index
    &&& facts.state_ok
    &&& if index == 0 {
        node.parent is None && node.action_from_parent is None
    } else {
        &&& node.parent matches Some(parent)
        &&& parent < nodes.len()
        &&& nodes[parent as int].children@.contains(index as usize)
        &&& nodes[parent as int].chance is Some == node.action_from_parent is None
    }
    &&& forall|k: int|
        0 <= k < node.children@.len() ==> {
            let child = #[trigger] node.children@[k];
            child < nodes.len() && nodes[child as int].parent == Some(index as usize)
        }
    &&& match (node.leaf, node.chance) {
        (Some(_), Some(_)) => false,
        (Some(_), None) => node.children@.len() == 0 && node.state.actor is None,
        (None, Some(chance)) => {
            &&& node.state.actor is None
            &&& chance.outcomes@.len() == node.children@.len()
            &&& facts.probabilities_ok
        },
        (None, None) => node.state.actor is Some && node.children@.len() > 0,
    }
}

/// The root comes first, and every node is well formed.
pub open spec fn well_formed(tree: GameTree, facts: Seq<NodeFacts>) -> bool {
    &&& tree.nodes@.len() > 0
    &&& tree.root == 0
    &&& forall|i: int|
        0 <= i < tree.nodes@.len() ==> node_well_formed(tree.nodes@, #[trigger] facts[i], i)
}

proof fn lemma_no_child_error(nodes: Seq<TreeNode>, index: usize, from: int)
    requires
        0 <= from,
    ensures
        child_error(nodes, index, from) is None <==> forall|k: int|
            from <= k < nodes[index as int].children@.len() ==> {
                let child = #[trigger] nodes[index as int].children@[k];
                child < nodes.len() && nodes[child as int].parent == Some(index)
            },
    decreases nodes[index as int].children@.len() - from,
{
    let children = nodes[index as int].children@;
    if from < children.len() {
        lemma_no_child_error(nodes, index, from + 1);
        let child = nodes[index as int].children@[from];
    }
}

proof fn lemma_no_nodes_error(
    nodes: Seq<TreeNode>,
    root: usize,
    facts: Seq<NodeFacts>,
    from: int,
)
    requires
        0 <= from,
    ensures
        nodes_error(nodes, root, facts, from) is None <==> forall|i: int|
            from <= i < nodes.len() ==> node_error(
                nodes,
                root,
                #[trigger] facts[i],
                i as usize,
            ) is None,
    decreases nodes.len() - from,
{
    if from < nodes.len() {
        lemma_no_nodes_error(nodes, root, facts, from + 1);
        let fact = facts[from];
    }
}

proof fn lemma_no_node_error(nodes: Seq<TreeNode>, facts: NodeFacts, index: int)
    requires
        0 <= index < nodes.len() <= usize::MAX,
    ensures
        node_error(nodes, 0, facts, index as usize) is None <==> node_well_formed(
            nodes,
            facts,
            index,
        ),
{
    lemma_no_child_error(nodes, index as usize, 0);
}

/// Validation accepts exactly the well-formed trees.
pub proof fn lemma_validation_is_exact(tree: GameTree, facts: Seq<NodeFacts>)
    requires
        tree.nodes@.len() <= usize::MAX,
        facts.len() == tree.nodes@.len(),
    ensures
        tree_error(tree, facts) is None <==> well_formed(tree, facts),
{
    let nodes = tree.nodes@;
    lemma_no_nodes_error(nodes, tree.root, facts, 0);
    assert forall|i: int| 0 <= i < nodes.len() implies (node_error(
        nodes,
        0,
        #[trigger] facts[i],
        i as usize,
    ) is None <==> node_well_formed(nodes, facts[i], i)) by {
        lemma_no_node_error(nodes, facts[i], i);
    }
}

/// The actions from the root to `id`, if at most `steps` parent links lead
/// there: the unknown node where the links leave the tree, otherwise.
pub open spec fn history_within(nodes: Seq<TreeNode>, id: usize, steps: nat) -> Option<
    Result<Seq<Action>, usize>,
>
    decreases steps,
{
    if id >= nodes.len() {
        Some(Err(id))
    } else {
        match nodes[id as int].parent {
            None => Some(Ok(own_action(nodes[id as int]))),
            Some(parent) => if steps == 0 {
                None
            } else {
                match history_within(nodes, parent, (steps - 1) as nat) {
                    None => None,
                    Some(Err(unknown)) => Some(Err(unknown)),
                    Some(Ok(actions)) => Some(Ok(actions + own_action(nodes[id as int]))),
                }
            },
        }
    }
}

/// The action that leads into a node, as a sequence of at most one.
pub open spec fn own_action(node: TreeNode) -> Seq<Action> {
    match node.action_from_parent {
        Some(action) => seq![action],
        None => Seq::empty(),
    }
}

impl GameTree {
    pub fn node(&self, id: NodeId) -> (node: Option<&TreeNode>)
        ensures
            node is Some <==> id < self.nodes@.len(),
            node matches Some(found) ==> *found == self.nodes@[id as int],
    {
        if id < self.nodes.len() {
            Some(&self.nodes[id])
        } else {
            None
        }
    }

    /// The nodes at which a player acts, in order.
    pub fn decision_nodes(&self) -> (found: Vec<&TreeNode>)
        ensures
            found@.len() == self.nodes@.filter(|node: TreeNode| is_decision(node)).len(),
            forall|i: int|
                0 <= i < found@.len() ==> *(#[trigger] found@[i]) == self.nodes@.filter(
                    |node: TreeNode| is_decision(node),
                )[i],
    {
        let mut found: Vec<&TreeNode> = Vec::new();
        let mut index: usize = 0;
        let ghost keep = |node: TreeNode| is_decision(node);
        assert(self.nodes@.take(0) =~= Seq::<TreeNode>::empty());
        while index < self.nodes.len()
            invariant
                index <= self.nodes@.len(),
                keep == (|node: TreeNode| is_decision(node)),
                found@.len() == self.nodes@.take(index as int).filter(keep).len(),
                forall|i: int|
                    0 <= i < found@.len() ==> *(#[trigger] found@[i]) == self.nodes@.take(
                        index as int,
                    ).filter(keep)[i],
            decreases self.nodes.len() - index,
        {
            let node = &self.nodes[index];
            if node.leaf.is_none() && node.chance.is_none() {
                found.push(node);
            }
            proof {
                lemma_filter_step(self.nodes@, keep, index as int);
            }
            index = index + 1;
        }
        assert(self.nodes@.take(index as int) =~= self.nodes@);
        found
    }

    /// The nodes at which cards come, in order.
    pub fn chance_nodes(&self) -> (found: Vec<&TreeNode>)
        ensures
            found@.len() == self.nodes@.filter(|node: TreeNode| is_chance(node)).len(),
            forall|i: int|
                0 <= i < found@.len() ==> *(#[trigger] found@[i]) == self.nodes@.filter(
                    |node: TreeNode| is_chance(node),
                )[i],
    {
        let mut found: Vec<&TreeNode> = Vec::new();
        let mut index: usize = 0;
        let ghost keep = |node: TreeNode| is_chance(node);
        assert(self.nodes@.take(0) =~= Seq::<TreeNode>::empty());
        while index < self.nodes.len()
            invariant
                index <= self.nodes@.len(),
                keep == (|node: TreeNode| is_chance(node)),
                found@.len() == self.nodes@.take(index as int).filter(keep).len(),
                forall|i: int|
                    0 <= i < found@.len() ==> *(#[trigger] found@[i]) == self.nodes@.take(
                        index as int,
                    ).filter(keep)[i],
            decreases self.nodes.len() - index,
        {
            let node = &self.nodes[index];
            if node.chance.is_some() {
                found.push(node);
            }
            proof {
                lemma_filter_step(self.nodes@, keep, index as int);
            }
            index = index + 1;
        }
        assert(self.nodes@.take(index as int) =~= self.nodes@);
        found
    }

    /// The leaves, in order.
    pub fn leaf_nodes(&self) -> (found: Vec<&TreeNode>)
        ensures
            found@.len() == self.nodes@.filter(|node: TreeNode| is_leaf(node)).len(),
            forall|i: int|
                0 <= i < found@.len() ==> *(#[trigger] found@[i]) == self.nodes@.filter(
                    |node: TreeNode| is_leaf(node),
                )[i],
    {
        let mut found: Vec<&TreeNode> = Vec::new();
        let mut index: usize = 0;
        let ghost keep = |node: TreeNode| is_leaf(node);
        assert(self.nodes@.take(0) =~= Seq::<TreeNode>::empty());
        while index < self.nodes.len()
            invariant
                index <= self.nodes@.len(),
                keep == (|node: TreeNode| is_leaf(node)),
                found@.len() == self.nodes@.take(index as int).filter(keep).len(),
                forall|i: int|
                    0 <= i < found@.len() ==> *(#[trigger] found@[i]) == self.nodes@.take(
                        index as int,
                    ).filter(keep)[i],
            decreases self.nodes.len() - index,
        {
            let node = &self.nodes[index];
            if node.leaf.is_some() {
                found.push(node);
            }
            proof {
                lemma_filter_step(self.nodes@, keep, index as int);
            }
            index = index + 1;
        }
        assert(self.nodes@.take(index as int) =~= self.nodes@);
        found
    }

    /// The actions on the way from the root to `node_id`.
    ///
    /// The parent links must lead out of the tree or to a node without parent.
    pub fn history(&self, node_id: NodeId) -> (result: Result<Vec<Action>, TreeError>)
        requires
            exists|steps: nat| #[trigger] history_within(self.nodes@, node_id, steps) is Some,
        ensures
            forall|steps: nat|
                (#[trigger] history_within(self.nodes@, node_id, steps)) matches Some(found)
                    ==> match found {
                    Ok(actions) => result matches Ok(given) && given@ == actions,
                    Err(unknown) => result == Err::<Vec<Action>, TreeError>(
                        TreeError::UnknownNode { node: unknown },
                    ),
                },
    {
        let mut actions: Vec<Action> = Vec::new();
        let mut id: usize = node_id;
        let ghost mut left: nat = choose|steps: nat|
            #[trigger] history_within(self.nodes@, node_id, steps) is Some;
        let ghost budget = left;
        proof {
            assert forall|steps: nat| #[trigger]
                history_within(self.nodes@, node_id, steps) is Some implies history_within(
                self.nodes@,
                node_id,
                steps,
            ) == history_within(self.nodes@, node_id, budget) by {
                lemma_history_budget(self.nodes@, node_id, steps, budget);
            }
        }
        assert(actions@.reverse() =~= Seq::<Action>::empty());
        loop
            invariant
                forall|steps: nat| #[trigger]
                    history_within(self.nodes@, node_id, steps) is Some ==> history_within(
                        self.nodes@,
                        node_id,
                        steps,
                    ) == history_within(self.nodes@, node_id, budget),
                match (
                    history_within(self.nodes@, node_id, budget),
                    history_within(self.nodes@, id, left),
                ) {
                    (Some(Ok(all)), Some(Ok(rest))) => all =~= rest + actions@.reverse(),
                    (Some(Err(a)), Some(Err(b))) => a == b,
                    _ => false,
                },
            decreases left,
        {
            if id >= self.nodes.len() {
                return Err(TreeError::UnknownNode { node: id });
            }
            let node = &self.nodes[id];
            let ghost before = actions@;
            match node.action_from_parent {
                Some(action) => {
                    actions.push(action);
                },
                None => {},
            }
            assert(actions@.reverse() =~= own_action(*node) + before.reverse());
            match node.parent {
                None => {
                    assert(actions@.reverse() =~= own_action(*node) + before.reverse());
                    return Ok(reversed_actions(&actions));
                },
                Some(parent) => {
                    id = parent;
                    proof {
                        left = (left - 1) as nat;
                    }
                },
            }
        }
    }

    /// Checks structural links and the distinction between decision, chance and
    /// terminal nodes.
    pub fn validate(&self, facts: &[NodeFacts]) -> (result: Result<(), TreeError>)
        requires
            facts@.len() == self.nodes@.len(),
        ensures
            match result {
                Ok(_) => tree_error(*self, facts@) is None,
                Err(error) => tree_error(*self, facts@) == Some(error),
            },
    {
        if self.nodes.len() == 0 {
            return Err(TreeError::NoNodes);
        }
        if self.root != 0 {
            return Err(TreeError::RootNotZero);
        }
        let mut index: usize = 0;
        while index < self.nodes.len()
            invariant
                index <= self.nodes@.len(),
                self.nodes@.len() > 0,
                self.root == 0,
                facts@.len() == self.nodes@.len(),
                tree_error(*self, facts@) == nodes_error(
                    self.nodes@,
                    self.root,
                    facts@,
                    index as int,
                ),
            decreases self.nodes.len() - index,
        {
            let node = &self.nodes[index];
            let fact = facts[index];
            if node.id != index {
                return Err(TreeError::IdMismatch { node: index });
            }
            if !fact.state_ok {
                return Err(TreeError::InvalidState { node: index });
            }
            match self.check_edge(index) {
                Ok(_) => {},
                Err(error) => {
                    return Err(error);
                },
            }
            match self.check_children(index) {
                Ok(_) => {},
                Err(error) => {
                    return Err(error);
                },
            }
            match check_kind(node, fact, index) {
                Ok(_) => {},
                Err(error) => {
                    return Err(error);
                },
            }
            index = index + 1;
        }
        Ok(())
    }

    fn check_edge(&self, index: usize) -> (result: Result<(), TreeError>)
        requires
            index < self.nodes@.len(),
        ensures
            match result {
                Ok(_) => edge_error(self.nodes@, self.root, index) is None,
                Err(error) => edge_error(self.nodes@, self.root, index) == Some(error),
            },
    {
        let node = &self.nodes[index];
        if index == self.root {
            if node.parent.is_some() || node.action_from_parent.is_some() {
                return Err(TreeError::RootHasParent);
            }
            return Ok(());
        }
        match node.parent {
            None => Err(TreeError::MissingParent { node: index }),
            Some(parent) => {
                if parent >= self.nodes.len() {
                    return Err(TreeError::InvalidParent { node: index, parent });
                }
                let parent_node = &self.nodes[parent];
                if !contains_id(&parent_node.children, index) {
                    return Err(TreeError::ParentMissesChild { parent, node: index });
                }
                if parent_node.chance.is_some() != node.action_from_parent.is_none() {
                    return Err(TreeError::WrongEdge { node: index });
                }
                Ok(())
            },
        }
    }

    fn check_children(&self, index: usize) -> (result: Result<(), TreeError>)
        requires
            index < self.nodes@.len(),
        ensures
            match result {
                Ok(_) => child_error(self.nodes@, index, 0) is None,
                Err(error) => child_error(self.nodes@, index, 0) == Some(error),
            },
    {
        let children = &self.nodes[index].children;
        let mut k: usize = 0;
        while k < children.len()
            invariant
                index < self.nodes@.len(),
                children == self.nodes@[index as int].children,
                k <= children@.len(),
                child_error(self.nodes@, index, 0) == child_error(self.nodes@, index, k as int),
            decreases children.len() - k,
        {
            let child = children[k];
            if child >= self.nodes.len() {
                return Err(TreeError::InvalidChild { node: index, child });
            }
            match self.nodes[child].parent {
                Some(parent) if parent == index => {},
                _ => {
                    return Err(TreeError::WrongParent { child });
                },
            }
            k = k + 1;
        }
        Ok(())
    }
}

fn check_kind(node: &TreeNode, facts: NodeFacts, index: usize) -> (result: Result<(), TreeError>)
    ensures
        match result {
            Ok(_) => kind_error(*node, facts, index) is None,
            Err(error) => kind_error(*node, facts, index) == Some(error),
        },
{
    match (&node.leaf, &node.chance) {
        (Some(_), Some(_)) => Err(TreeError::LeafAndChance { node: index }),
        (Some(_), None) => {
            if node.children.len() > 0 {
                Err(TreeError::LeafWithChildren { node: index })
            } else if node.state.actor.is_some() {
                Err(TreeError::LeafWithActor { node: index })
            } else {
                Ok(())
            }
        },
        (None, Some(chance)) => {
            if node.state.actor.is_some() {
                Err(TreeError::ChanceWithActor { node: index })
            } else if chance.outcomes.len() != node.children.len() {
                Err(TreeError::OutcomeMismatch { node: index })
            } else if !facts.probabilities_ok {
                Err(TreeError::BadProbabilities { node: index })
            } else {
                Ok(())
            }
        },
        (None, None) => {
            if node.state.actor.is_none() {
                Err(TreeError::NoActor { node: index })
            } else if node.children.len() == 0 {
                Err(TreeError::NoChildren { node: index })
            } else {
                Ok(())
            }
        },
    }
}

/// `ids` holds `id`.
pub fn contains_id(ids: &Vec<usize>, id: usize) -> (found: bool)
    ensures
        found == ids@.contains(id),
{
    let mut index: usize = 0;
    while index < ids.len()
        invariant
            index <= ids@.len(),
            forall|i: int| 0 <= i < index ==> ids@[i] != id,
        decreases ids.len() - index,
    {
        if ids[index] == id {
            assert(ids@[index as int] == id);
            return true;
        }
        index = index + 1;
    }
    false
}

fn reversed_actions(actions: &Vec<Action>) -> (reversed: Vec<Action>)
    ensures
        reversed@ == actions@.reverse(),
{
    let mut reversed: Vec<Action> = Vec::new();
    let mut left: usize = actions.len();
    while left > 0
        invariant
            left <= actions@.len(),
            reversed@.len() == actions@.len() - left,
            forall|i: int|
                0 <= i < reversed@.len() ==> reversed@[i] == actions@[actions@.len() - 1 - i],
        decreases left,
    {
        left = left - 1;
        reversed.push(actions[left]);
    }
    assert(reversed@ =~= actions@.reverse());
    reversed
}

pub proof fn lemma_filter_step<T>(items: Seq<T>, keep: spec_fn(T) -> bool, index: int)
    requires
        0 <= index < items.len(),
    ensures
        items.take(index + 1).filter(keep) == if keep(items[index]) {
            items.take(index).filter(keep).push(items[index])
        } else {
            items.take(index).filter(keep)
        },
{
    reveal(Seq::filter);
    assert(items.take(index + 1).drop_last() =~= items.take(index));
}

/// Any two sufficient numbers of steps give one history.
pub proof fn lemma_history_budget(nodes: Seq<TreeNode>, id: usize, left: nat, right: nat)
    requires
        history_within(nodes, id, left) is Some,
        history_within(nodes, id, right) is Some,
    ensures
        history_within(nodes, id, left) == history_within(nodes, id, right),
    decreases left,
{
    if id < nodes.len() {
        if let Some(parent) = nodes[id as int].parent {
            lemma_history_budget(nodes, parent, (left - 1) as nat, (right - 1) as nat);
        }
    }
}

/// Where every parent comes before its children, every node has a history.
pub proof fn lemma_history_exists(nodes: Seq<TreeNode>, id: usize)
    requires
        id < nodes.len(),
        forall|i: int|
            0 <= i < nodes.len() ==> ((#[trigger] nodes[i]).parent matches Some(parent) ==> parent
                < i),
    ensures
        history_within(nodes, id, id as nat) matches Some(Ok(_)),
    decreases id,
{
    if let Some(parent) = nodes[id as int].parent {
        lemma_history_exists(nodes, parent);
        lemma_history_grows(nodes, parent, parent as nat, (id - 1) as nat);
    }
}

proof fn lemma_history_grows(nodes: Seq<TreeNode>, id: usize, few: nat, many: nat)
    requires
        few <= many,
        history_within(nodes, id, few) is Some,
    ensures
        history_within(nodes, id, many) == history_within(nodes, id, few),
    decreases few,
{
    if id < nodes.len() {
        if let Some(parent) = nodes[id as int].parent {
            lemma_history_grows(nodes, parent, (few - 1) as nat, (many - 1) as nat);
        }
    }
}

} // verus!
