//! Building betting trees depth first.
//!
//! The builder decides what a node is, numbers the nodes, links them and keeps
//! the limits. What a table state allows and how it changes is asked of the
//! caller, one step at a time.
use vstd::prelude::*;

use crate::action_abstraction::{hash_words, word_encoding, ActionAbstraction};
use crate::chance::ChanceConfig;
use crate::domain::{Action, ActionSizes, GameState, PlayerId, Street, TerminalState};
use crate::hash::{
    concat_words, flag_word, fnv_words, lemma_concat_step, list_words, Fingerprint, FNV_OFFSET,
};
use crate::tree::{
    copy_ids, lemma_validation_is_exact, node_well_formed, tree_error, well_formed, ChanceNodeSpec,
    ChanceOutcome, GameTree, LeafKind, NodeFacts, NodeId, TreeError, TreeNode,
};

verus! {

#[derive(Debug)]
pub struct TreeBuildConfig {
    pub action_sizes: ActionSizes,
    pub abstraction: Option<ActionAbstraction>,
    pub max_nodes: usize,
    pub max_depth: usize,
}

impl TreeBuildConfig {
    pub open spec fn same(self, other: Self) -> bool {
        &&& self.action_sizes.bet_to@ == other.action_sizes.bet_to@
        &&& self.action_sizes.raise_to@ == other.action_sizes.raise_to@
        &&& self.action_sizes.include_all_in == other.action_sizes.include_all_in
        &&& match (self.abstraction, other.abstraction) {
            (Some(left), Some(right)) => left.same(right),
            (None, None) => true,
            _ => false,
        }
        &&& self.max_nodes == other.max_nodes
        &&& self.max_depth == other.max_depth
    }
}

impl Clone for TreeBuildConfig {
    fn clone(&self) -> (copy: Self)
        ensures
            copy.same(*self),
    {
        let abstraction = match &self.abstraction {
            Some(abstraction) => Some(abstraction.clone()),
            None => None,
        };
        TreeBuildConfig {
            action_sizes: self.action_sizes.clone(),
            abstraction,
            max_nodes: self.max_nodes,
            max_depth: self.max_depth,
        }
    }
}

impl Default for TreeBuildConfig {
    fn default() -> (config: Self)
        ensures
            config.action_sizes.bet_to@.len() == 0,
            config.action_sizes.raise_to@.len() == 0,
            !config.action_sizes.include_all_in,
            config.abstraction is None,
            config.max_nodes == 100_000,
            config.max_depth == 128,
    {
        TreeBuildConfig {
            action_sizes: ActionSizes::default(),
            abstraction: None,
            max_nodes: 100_000,
            max_depth: 128,
        }
    }
}

impl TreeBuildConfig {
    pub open spec fn words(self) -> Seq<u64> {
        list_words(self.action_sizes.bet_to@, word_encoding()) + list_words(
            self.action_sizes.raise_to@,
            word_encoding(),
        ) + seq![flag_word(self.action_sizes.include_all_in), flag_word(self.abstraction is Some)]
            + (match self.abstraction {
            Some(abstraction) => seq![abstraction.spec_fingerprint()],
            None => Seq::empty(),
        }) + seq![self.max_nodes as u64, self.max_depth as u64]
    }

    pub open spec fn spec_fingerprint(self) -> u64 {
        fnv_words(FNV_OFFSET, self.words())
    }

    /// Deterministic hash of sizing and tree expansion limits.
    pub fn fingerprint(&self) -> (hash: u64)
        ensures
            hash == self.spec_fingerprint(),
    {
        let mut fingerprint = Fingerprint::new();
        hash_words(&mut fingerprint, &self.action_sizes.bet_to);
        hash_words(&mut fingerprint, &self.action_sizes.raise_to);
        fingerprint.flag(self.action_sizes.include_all_in);
        fingerprint.flag(self.abstraction.is_some());
        if let Some(abstraction) = &self.abstraction {
            fingerprint.word(abstraction.fingerprint());
        }
        fingerprint.word(self.max_nodes as u64);
        fingerprint.word(self.max_depth as u64);
        assert(fingerprint.words@ =~= self.words());
        fingerprint.hash
    }

    fn validate_limits(&self) -> (result: Result<(), TreeError>)
        ensures
            match result {
                Ok(_) => self.max_nodes > 0 && self.max_depth > 0,
                Err(error) => error == (if self.max_nodes == 0 {
                    TreeError::ZeroMaxNodes
                } else {
                    TreeError::ZeroMaxDepth
                }) && (self.max_nodes == 0 || self.max_depth == 0),
            },
    {
        if self.max_nodes == 0 {
            return Err(TreeError::ZeroMaxNodes);
        }
        if self.max_depth == 0 {
            return Err(TreeError::ZeroMaxDepth);
        }
        Ok(())
    }
}

#[derive(Debug)]
pub struct FullTreeBuildConfig {
    pub round: TreeBuildConfig,
    pub chance: ChanceConfig,
    pub postflop_order: Vec<PlayerId>,
}

impl FullTreeBuildConfig {
    pub open spec fn same(self, other: Self) -> bool {
        &&& self.round.same(other.round)
        &&& self.chance.same(other.chance)
        &&& self.postflop_order@ == other.postflop_order@
    }
}

impl Clone for FullTreeBuildConfig {
    fn clone(&self) -> (copy: Self)
        ensures
            copy.same(*self),
    {
        FullTreeBuildConfig {
            round: self.round.clone(),
            chance: self.chance.clone(),
            postflop_order: copy_ids(&self.postflop_order),
        }
    }
}

pub open spec fn id_encoding() -> spec_fn(usize) -> Seq<u64> {
    |id: usize| seq![id as u64]
}

/// Mixes in a list of player or node numbers.
pub fn hash_ids(fingerprint: &mut Fingerprint, ids: &Vec<usize>)
    requires
        old(fingerprint).wf(),
    ensures
        final(fingerprint).wf(),
        final(fingerprint).words@ == old(fingerprint).words@ + list_words(ids@, id_encoding()),
{
    let ghost start = fingerprint.words@;
    fingerprint.word(ids.len() as u64);
    let mut index: usize = 0;
    assert(ids@.take(0) =~= Seq::<usize>::empty());
    assert(fingerprint.words@ =~= start.push(ids@.len() as u64) + concat_words(
        ids@.take(0),
        id_encoding(),
    ));
    while index < ids.len()
        invariant
            index <= ids@.len(),
            fingerprint.wf(),
            fingerprint.words@ == start.push(ids@.len() as u64) + concat_words(
                ids@.take(index as int),
                id_encoding(),
            ),
        decreases ids.len() - index,
    {
        proof {
            lemma_concat_step(ids@, id_encoding(), index as int);
        }
        fingerprint.word(ids[index] as u64);
        index = index + 1;
        assert(fingerprint.words@ =~= start.push(ids@.len() as u64) + concat_words(
            ids@.take(index as int),
            id_encoding(),
        ));
    }
    assert(ids@.take(index as int) =~= ids@);
    assert(fingerprint.words@ =~= start + list_words(ids@, id_encoding()));
}

impl FullTreeBuildConfig {
    pub open spec fn words(self) -> Seq<u64> {
        seq![self.round.spec_fingerprint(), fnv_words(FNV_OFFSET, self.chance.words())]
            + list_words(self.postflop_order@, id_encoding())
    }

    pub open spec fn spec_fingerprint(self) -> u64 {
        fnv_words(FNV_OFFSET, self.words())
    }

    pub fn fingerprint(&self) -> (hash: u64)
        ensures
            hash == self.spec_fingerprint(),
    {
        let mut fingerprint = Fingerprint::new();
        fingerprint.word(self.round.fingerprint());
        fingerprint.word(self.chance.fingerprint());
        hash_ids(&mut fingerprint, &self.postflop_order);
        assert(fingerprint.words@ =~= self.words());
        fingerprint.hash
    }
}

/// What the builder finds at a new node.
pub enum Arrival {
    Leaf(LeafKind),
    Decision,
    Deal(Street),
}

/// A terminal state is a leaf. Where a player is to act, the node is a
/// decision. Otherwise the betting round is over: a leaf of a single round,
/// a showdown after the river, new cards before it.
pub open spec fn arrival_of(state: GameState, full: bool) -> Arrival {
    match state.terminal {
        Some(terminal) => Arrival::Leaf(LeafKind::Terminal(terminal)),
        None => if state.actor is Some {
            Arrival::Decision
        } else if !full {
            Arrival::Leaf(LeafKind::RoundComplete)
        } else {
            match state.street.spec_next() {
                None => Arrival::Leaf(LeafKind::Terminal(TerminalState::Showdown)),
                Some(next_street) => Arrival::Deal(next_street),
            }
        },
    }
}

fn arrival(state: &GameState, full: bool) -> (found: Arrival)
    ensures
        found == arrival_of(*state, full),
{
    match state.terminal {
        Some(terminal) => Arrival::Leaf(LeafKind::Terminal(terminal)),
        None => {
            if state.actor.is_some() {
                Arrival::Decision
            } else if !full {
                Arrival::Leaf(LeafKind::RoundComplete)
            } else {
                match state.street.next() {
                    None => Arrival::Leaf(LeafKind::Terminal(TerminalState::Showdown)),
                    Some(next_street) => Arrival::Deal(next_street),
                }
            }
        },
    }
}

/// A node whose children are being built: `next` of `count` are there.
#[derive(Debug)]
pub struct Frame {
    pub node: NodeId,
    pub next: usize,
    pub count: usize,
    /// The actions of a decision node; empty at a chance node.
    pub actions: Vec<Action>,
    pub deals: bool,
}

/// What the builder needs next.
#[derive(Debug, Clone, Copy, PartialEq, Eq, Structural)]
pub enum BuildStep {
    /// The legal actions at `node`.
    ChooseActions { node: usize },
    /// The state at `node` after `action`.
    ApplyAction { node: usize, action: Action },
    /// The outcomes of the cards of `next_street` at `node`.
    DealCards { node: usize, next_street: Street },
    /// The state at `node` after the cards of its outcome `outcome`.
    AdvanceStreet { node: usize, outcome: usize },
    /// Nothing: every node is built.
    Finished,
}

/// The frames that still miss a child, down from the root.
pub open spec fn settled(stack: Seq<Frame>) -> Seq<Frame>
    decreases stack.len(),
{
    if stack.len() == 0 || stack.last().next < stack.last().count {
        stack
    } else {
        settled(stack.drop_last())
    }
}

/// The step that the innermost frame asks for.
pub open spec fn top_step(stack: Seq<Frame>) -> BuildStep {
    if stack.len() == 0 {
        BuildStep::Finished
    } else {
        let frame = stack.last();
        if frame.deals {
            BuildStep::AdvanceStreet { node: frame.node, outcome: frame.next }
        } else {
            BuildStep::ApplyAction { node: frame.node, action: frame.actions@[frame.next as int] }
        }
    }
}

/// Same node but for the leaf mark.
pub open spec fn marked(before: TreeNode, after: TreeNode, kind: LeafKind) -> bool {
    after == (TreeNode { leaf: Some(kind), ..before })
}

pub struct TreeBuilder {
    pub tree: GameTree,
    pub stack: Vec<Frame>,
    /// A node that was added and not looked at.
    pub pending: Option<NodeId>,
    pub full: bool,
    pub max_nodes: usize,
    pub max_depth: usize,
    /// For each node the number of nodes above it.
    pub depths: Ghost<Seq<nat>>,
    /// For each decision node the actions that were offered.
    pub offers: Ghost<Map<int, Seq<Action>>>,
}

/// The node at `index` hangs where it belongs.
pub open spec fn linked(nodes: Seq<TreeNode>, index: int) -> bool {
    let node = nodes[index];
    &&& node.id == index
    &&& if index == 0 {
        node.parent is None && node.action_from_parent is None
    } else {
        &&& node.parent matches Some(parent)
        &&& parent < index
        &&& nodes[parent as int].children@.contains(index as usize)
        &&& nodes[parent as int].chance is Some == node.action_from_parent is None
    }
    &&& forall|k: int|
        0 <= k < node.children@.len() ==> {
            let child = #[trigger] node.children@[k];
            index < child < nodes.len() && nodes[child as int].parent == Some(index as usize)
        }
}

/// The children of `node` came by the actions of `actions`, in order.
pub open spec fn follows(nodes: Seq<TreeNode>, node: TreeNode, actions: Seq<Action>) -> bool {
    &&& node.children@.len() <= actions.len()
    &&& forall|k: int|
        0 <= k < node.children@.len() ==> nodes[(#[trigger] node.children@[k])
            as int].action_from_parent == Some(actions[k])
}

/// Nodes that keep their incoming actions keep what their parents follow.
proof fn lemma_follows_kept(
    was: Seq<TreeNode>,
    nodes: Seq<TreeNode>,
    index: int,
    actions: Seq<Action>,
)
    requires
        0 <= index < was.len() <= nodes.len(),
        linked(was, index),
        follows(was, was[index], actions),
        nodes[index].children@ == was[index].children@,
        forall|i: int|
            0 <= i < was.len() ==> (#[trigger] nodes[i]).action_from_parent
                == was[i].action_from_parent,
    ensures
        follows(nodes, nodes[index], actions),
{
    let node = was[index];
    assert forall|k: int| 0 <= k < nodes[index].children@.len() implies nodes[(
    #[trigger] nodes[index].children@[k]) as int].action_from_parent == Some(actions[k]) by {
        let child = node.children@[k];
        assert(child < was.len());
        assert(was[child as int].action_from_parent == Some(actions[k]));
    }
}

/// The legal actions of the pending decision node were taken.
pub open spec fn actions_taken(
    before: TreeBuilder,
    after: TreeBuilder,
    actions: Vec<Action>,
    result: Result<(), TreeError>,
) -> bool {
    &&& after.tree == before.tree
    &&& after.full == before.full
    &&& after.max_nodes == before.max_nodes
    &&& after.max_depth == before.max_depth
    &&& ({
        let node = before.pending->Some_0;
        if actions@.len() == 0 {
            &&& result == Err::<(), TreeError>(TreeError::NoLegalActions { node })
            &&& after == before
        } else {
            &&& result is Ok
            &&& after.pending is None
            &&& after.stack@ == before.stack@.push(
                (Frame { node, next: 0, count: actions.len(), actions, deals: false }),
            )
            &&& after.offers@ == before.offers@.insert(node as int, actions@)
            &&& after.awaits_child()
        }
    })
}

/// The outcomes of the pending node were taken.
pub open spec fn outcomes_taken(
    before: TreeBuilder,
    after: TreeBuilder,
    outcomes: Vec<ChanceOutcome>,
) -> bool {
    &&& after.full == before.full
    &&& after.max_nodes == before.max_nodes
    &&& after.max_depth == before.max_depth
    &&& after.offers == before.offers
    &&& after.pending is None
    &&& ({
        let node = before.pending->Some_0;
        let was = before.tree.nodes@;
        let nodes = after.tree.nodes@;
        &&& nodes.len() == was.len()
        &&& forall|i: int|
            0 <= i < was.len() && i != node ==> #[trigger] nodes[i] == was[i]
        &&& nodes[node as int].chance matches Some(chance)
        &&& chance.outcomes == outcomes
        &&& arrival_of(was[node as int].state, before.full) == Arrival::Deal(
            chance.next_street,
        )
        &&& nodes[node as int] == (TreeNode {
            chance: nodes[node as int].chance,
            ..was[node as int]
        })
        &&& after.stack@.len() == before.stack@.len() + 1
        &&& after.stack@.drop_last() == before.stack@
        &&& after.stack@.last().node == node
        &&& after.stack@.last().deals
        &&& after.stack@.last().next == 0
        &&& after.stack@.last().count == outcomes@.len()
    })
}

/// The child that was asked for was added.
pub open spec fn child_added(
    before: TreeBuilder,
    after: TreeBuilder,
    state: GameState,
    result: Result<NodeId, TreeError>,
) -> bool {
    &&& after.full == before.full
    &&& after.max_nodes == before.max_nodes
    &&& after.max_depth == before.max_depth
    &&& after.offers == before.offers
    &&& ({
        let was = before.tree.nodes@;
        let nodes = after.tree.nodes@;
        let frame = before.stack@.last();
        let parent = frame.node as int;
        if was.len() >= before.max_nodes {
            &&& result == Err::<NodeId, TreeError>(
                TreeError::NodeLimit { limit: before.max_nodes },
            )
            &&& after == before
        } else {
            &&& result == Ok::<NodeId, TreeError>(was.len() as usize)
            &&& after.pending == Some(was.len() as usize)
            &&& nodes.len() == was.len() + 1
            &&& forall|i: int|
                0 <= i < was.len() && i != parent ==> #[trigger] nodes[i] == was[i]
            &&& nodes[parent] == (TreeNode {
                children: nodes[parent].children,
                ..was[parent]
            })
            &&& nodes[parent].children@ == was[parent].children@.push(was.len() as usize)
            &&& nodes[was.len() as int].id == was.len()
            &&& nodes[was.len() as int].parent == Some(frame.node)
            &&& nodes[was.len() as int].state == state
            &&& nodes[was.len() as int].action_from_parent == (if frame.deals {
                None
            } else {
                Some(frame.actions@[frame.next as int])
            })
            &&& after.stack@.len() == before.stack@.len()
            &&& after.stack@.drop_last() == before.stack@.drop_last()
            &&& after.stack@.last() == (Frame {
                next: (frame.next + 1) as usize,
                ..frame
            })
        }
    })
}

impl TreeBuilder {
    pub open spec fn on_stack(self, index: int) -> bool {
        exists|s: int| 0 <= s < self.stack@.len() && (#[trigger] self.stack@[s]).node == index
    }

    /// A frame fits the node that it belongs to.
    pub open spec fn frame_ok(self, s: int) -> bool {
        let frame = self.stack@[s];
        let nodes = self.tree.nodes@;
        let node = nodes[frame.node as int];
        &&& frame.node < nodes.len()
        &&& self.depths@[frame.node as int] == s
        &&& node.leaf is None
        &&& frame.next == node.children@.len()
        &&& frame.next <= frame.count
        &&& arrival_of(node.state, self.full) == (if frame.deals {
            Arrival::Deal(node.chance->Some_0.next_street)
        } else {
            Arrival::Decision
        })
        &&& if frame.deals {
            node.chance matches Some(chance) && chance.outcomes@.len() == frame.count
        } else {
            &&& node.chance is None
            &&& frame.count == frame.actions@.len()
            &&& frame.count > 0
            &&& s < self.max_depth
            &&& self.offers@.dom().contains(frame.node as int)
            &&& self.offers@[frame.node as int] == frame.actions@
            &&& follows(nodes, node, frame.actions@)
        }
        &&& if s == 0 {
            frame.node == 0
        } else {
            node.parent == Some(self.stack@[s - 1].node)
        }
    }

    /// A node that is built has all that belongs to its kind.
    pub open spec fn built(self, index: int) -> bool {
        let nodes = self.tree.nodes@;
        let node = nodes[index];
        match arrival_of(node.state, self.full) {
            Arrival::Leaf(kind) => {
                node.leaf == Some(kind) && node.chance is None && node.children@.len() == 0
            },
            Arrival::Decision => {
                &&& node.leaf is None
                &&& node.chance is None
                &&& node.children@.len() > 0
                &&& self.depths@[index] < self.max_depth
                &&& self.offers@.dom().contains(index)
                &&& node.children@.len() == self.offers@[index].len()
                &&& follows(nodes, node, self.offers@[index])
            },
            Arrival::Deal(next_street) => {
                &&& node.leaf is None
                &&& node.chance matches Some(chance)
                &&& chance.next_street == next_street
                &&& chance.outcomes@.len() == node.children@.len()
            },
        }
    }

    pub open spec fn pending_ok(self) -> bool {
        let nodes = self.tree.nodes@;
        match self.pending {
            None => true,
            Some(pending) => {
                &&& pending == nodes.len() - 1
                &&& nodes[pending as int].leaf is None
                &&& nodes[pending as int].chance is None
                &&& nodes[pending as int].children@.len() == 0
                &&& self.depths@[pending as int] == self.stack@.len()
                &&& if self.stack@.len() == 0 {
                    pending == 0
                } else {
                    nodes[pending as int].parent == Some(self.stack@.last().node)
                }
            },
        }
    }

    pub open spec fn wf(self) -> bool {
        let nodes = self.tree.nodes@;
        &&& self.tree.root == 0
        &&& 0 < nodes.len() <= self.max_nodes
        &&& self.max_depth > 0
        &&& self.depths@.len() == nodes.len()
        &&& self.depths@[0] == 0
        &&& forall|i: int| 0 <= i < nodes.len() ==> #[trigger] linked(nodes, i)
        &&& forall|i: int|
            0 < i < nodes.len() ==> #[trigger] self.depths@[i]
                == self.depths@[nodes[i].parent->Some_0 as int] + 1
        &&& forall|s: int| 0 <= s < self.stack@.len() ==> #[trigger] self.frame_ok(s)
        &&& self.pending_ok()
        &&& forall|i: int|
            0 <= i < nodes.len() && !self.on_stack(i) && self.pending != Some(i as usize)
                ==> #[trigger] self.built(i)
    }

    /// All nodes are built.
    pub open spec fn finished(self) -> bool {
        self.stack@.len() == 0 && self.pending is None
    }

    /// A child is awaited.
    pub open spec fn awaits_child(self) -> bool {
        &&& self.pending is None
        &&& self.stack@.len() > 0
        &&& self.stack@.last().next < self.stack@.last().count
    }

    spec fn started(initial: GameState, full: bool, config: TreeBuildConfig, builder: Self) -> bool {
        &&& builder.wf()
        &&& builder.full == full
        &&& builder.max_nodes == config.max_nodes
        &&& builder.max_depth == config.max_depth
        &&& builder.pending == Some(0usize)
        &&& builder.stack@.len() == 0
        &&& builder.tree.nodes@.len() == 1
        &&& builder.tree.nodes@[0].state == initial
    }

    /// Starts the tree of one betting round.
    pub fn build_round(initial: GameState, initial_ok: bool, config: &TreeBuildConfig) -> (result:
        Result<Self, TreeError>)
        ensures
            if config.max_nodes == 0 {
                result == Err::<Self, TreeError>(TreeError::ZeroMaxNodes)
            } else if config.max_depth == 0 {
                result == Err::<Self, TreeError>(TreeError::ZeroMaxDepth)
            } else if !initial_ok {
                result == Err::<Self, TreeError>(TreeError::InvalidInitialState)
            } else {
                result matches Ok(builder) && builder.wf() && !builder.full && builder.max_nodes
                    == config.max_nodes && builder.max_depth == config.max_depth && builder.pending
                    == Some(0usize) && builder.stack@.len() == 0 && builder.tree.nodes@.len() == 1
                    && builder.tree.nodes@[0].state == initial
            },
    {
        match config.validate_limits() {
            Ok(_) => {},
            Err(error) => {
                return Err(error);
            },
        }
        if !initial_ok {
            return Err(TreeError::InvalidInitialState);
        }
        Ok(Self::start(initial, false, config))
    }

    /// Starts a tree over all streets.
    pub fn build_full(initial: GameState, initial_ok: bool, config: &FullTreeBuildConfig) -> (result:
        Result<Self, TreeError>)
        ensures
            if config.round.max_nodes == 0 {
                result == Err::<Self, TreeError>(TreeError::ZeroMaxNodes)
            } else if config.round.max_depth == 0 {
                result == Err::<Self, TreeError>(TreeError::ZeroMaxDepth)
            } else if !initial_ok {
                result == Err::<Self, TreeError>(TreeError::InvalidInitialState)
            } else if config.postflop_order@.len() == 0 {
                result == Err::<Self, TreeError>(TreeError::EmptyPostflopOrder)
            } else {
                result matches Ok(builder) && builder.wf() && builder.full && builder.max_nodes
                    == config.round.max_nodes && builder.max_depth == config.round.max_depth
                    && builder.pending == Some(0usize) && builder.stack@.len() == 0
                    && builder.tree.nodes@.len() == 1 && builder.tree.nodes@[0].state == initial
            },
    {
        match config.round.validate_limits() {
            Ok(_) => {},
            Err(error) => {
                return Err(error);
            },
        }
        if !initial_ok {
            return Err(TreeError::InvalidInitialState);
        }
        if config.postflop_order.len() == 0 {
            return Err(TreeError::EmptyPostflopOrder);
        }
        Ok(Self::start(initial, true, &config.round))
    }

    fn start(initial: GameState, full: bool, config: &TreeBuildConfig) -> (builder: Self)
        requires
            config.max_nodes > 0,
            config.max_depth > 0,
        ensures
            Self::started(initial, full, *config, builder),
    {
        let ghost depths: Seq<nat> = seq![0nat];
        let root = TreeNode {
            id: 0,
            parent: None,
            action_from_parent: None,
            state: initial,
            children: Vec::new(),
            leaf: None,
            chance: None,
        };
        let mut nodes: Vec<TreeNode> = Vec::new();
        nodes.push(root);
        TreeBuilder {
            tree: GameTree { root: 0, nodes },
            stack: Vec::new(),
            pending: Some(0),
            full,
            max_nodes: config.max_nodes,
            max_depth: config.max_depth,
            depths: Ghost(depths),
            offers: Ghost(Map::empty()),
        }
    }

    /// Drops the frames that have all their children.
    fn settle(&mut self)
        requires
            old(self).wf(),
            old(self).pending is None,
        ensures
            final(self).wf(),
            final(self).stack@ == settled(old(self).stack@),
            final(self).tree == old(self).tree,
            final(self).pending == old(self).pending,
            final(self).full == old(self).full,
            final(self).max_nodes == old(self).max_nodes,
            final(self).max_depth == old(self).max_depth,
            final(self).offers == old(self).offers,
            final(self).depths == old(self).depths,
    {
        loop
            invariant
                self.wf(),
                self.pending is None,
                settled(self.stack@) == settled(old(self).stack@),
                self.tree == old(self).tree,
                self.pending == old(self).pending,
                self.full == old(self).full,
                self.max_nodes == old(self).max_nodes,
                self.max_depth == old(self).max_depth,
                self.offers == old(self).offers,
                self.depths == old(self).depths,
            decreases self.stack@.len(),
        {
            let length = self.stack.len();
            if length == 0 {
                return ;
            }
            let open = self.stack[length - 1].next < self.stack[length - 1].count;
            if open {
                return ;
            }
            let ghost before = *self;
            assert(self.frame_ok(length - 1));
            self.stack.pop();
            proof {
                let done = before.stack@.last().node as int;
                assert(self.stack@ =~= before.stack@.drop_last());
                assert forall|s: int| 0 <= s < self.stack@.len() implies #[trigger] self.frame_ok(
                    s,
                ) by {
                    assert(before.frame_ok(s));
                }
                assert forall|i: int|
                    0 <= i < self.tree.nodes@.len() && !self.on_stack(i) && self.pending != Some(
                        i as usize,
                    ) implies #[trigger] self.built(i) by {
                    if i == done {
                        assert(before.frame_ok(length - 1));
                        assert(self.built(i));
                    } else {
                        if before.on_stack(i) {
                            let s = choose|s: int|
                                0 <= s < before.stack@.len() && (#[trigger] before.stack@[s]).node
                                    == i;
                            assert(self.stack@[s].node == i);
                        }
                        assert(before.built(i));
                    }
                }
            }
        }
    }

    /// Looks at the pending node, closes what is complete, and says what is
    /// needed next.
    pub fn next_step(&mut self) -> (result: Result<BuildStep, TreeError>)
        requires
            old(self).wf(),
        ensures
            final(self).wf(),
            final(self).full == old(self).full,
            final(self).max_nodes == old(self).max_nodes,
            final(self).max_depth == old(self).max_depth,
            final(self).offers == old(self).offers,
            match old(self).pending {
                None => {
                    &&& final(self).tree == old(self).tree
                    &&& final(self).pending is None
                    &&& final(self).stack@ == settled(old(self).stack@)
                    &&& result == Ok::<BuildStep, TreeError>(top_step(final(self).stack@))
                },
                Some(node) => match arrival_of(
                    old(self).tree.nodes@[node as int].state,
                    old(self).full,
                ) {
                    Arrival::Leaf(kind) => {
                        &&& final(self).tree.nodes@.len() == old(self).tree.nodes@.len()
                        &&& forall|i: int|
                            0 <= i < old(self).tree.nodes@.len() && i != node
                                ==> #[trigger] final(self).tree.nodes@[i] == old(
                                self,
                            ).tree.nodes@[i]
                        &&& marked(
                            old(self).tree.nodes@[node as int],
                            final(self).tree.nodes@[node as int],
                            kind,
                        )
                        &&& final(self).pending is None
                        &&& final(self).stack@ == settled(old(self).stack@)
                        &&& result == Ok::<BuildStep, TreeError>(top_step(final(self).stack@))
                    },
                    Arrival::Decision => {
                        &&& *final(self) == *old(self)
                        &&& if old(self).stack@.len() >= old(self).max_depth {
                            result == Err::<BuildStep, TreeError>(TreeError::DepthLimit { node })
                        } else {
                            result == Ok::<BuildStep, TreeError>(BuildStep::ChooseActions { node })
                        }
                    },
                    Arrival::Deal(next_street) => {
                        &&& *final(self) == *old(self)
                        &&& result == Ok::<BuildStep, TreeError>(
                            BuildStep::DealCards { node, next_street },
                        )
                    },
                },
            },
    {
        if let Some(node) = self.pending {
            match arrival(&self.tree.nodes[node].state, self.full) {
                Arrival::Decision => {
                    if self.stack.len() >= self.max_depth {
                        return Err(TreeError::DepthLimit { node });
                    }
                    return Ok(BuildStep::ChooseActions { node });
                },
                Arrival::Deal(next_street) => {
                    return Ok(BuildStep::DealCards { node, next_street });
                },
                Arrival::Leaf(kind) => {
                    self.mark_leaf(node, kind);
                },
            }
        }
        self.settle();
        let length = self.stack.len();
        if length == 0 {
            return Ok(BuildStep::Finished);
        }
        assert(self.frame_ok(length - 1));
        proof {
            lemma_settled(old(self).stack@);
        }
        let frame = &self.stack[length - 1];
        if frame.deals {
            Ok(BuildStep::AdvanceStreet { node: frame.node, outcome: frame.next })
        } else {
            Ok(BuildStep::ApplyAction { node: frame.node, action: frame.actions[frame.next] })
        }
    }

    fn mark_leaf(&mut self, node: NodeId, kind: LeafKind)
        requires
            old(self).wf(),
            old(self).pending == Some(node),
            arrival_of(old(self).tree.nodes@[node as int].state, old(self).full) == Arrival::Leaf(
                kind,
            ),
        ensures
            final(self).wf(),
            final(self).pending is None,
            final(self).stack == old(self).stack,
            final(self).full == old(self).full,
            final(self).max_nodes == old(self).max_nodes,
            final(self).max_depth == old(self).max_depth,
            final(self).offers == old(self).offers,
            final(self).tree.nodes@.len() == old(self).tree.nodes@.len(),
            forall|i: int|
                0 <= i < old(self).tree.nodes@.len() && i != node
                    ==> #[trigger] final(self).tree.nodes@[i] == old(self).tree.nodes@[i],
            marked(
                old(self).tree.nodes@[node as int],
                final(self).tree.nodes@[node as int],
                kind,
            ),
    {
        let ghost before = *self;
        self.tree.nodes[node].leaf = Some(kind);
        self.pending = None;
        proof {
            let nodes = self.tree.nodes@;
            let was = before.tree.nodes@;
            assert forall|i: int| 0 <= i < nodes.len() implies #[trigger] linked(nodes, i) by {
                assert(linked(was, i));
            }
            assert forall|s: int| 0 <= s < self.stack@.len() implies #[trigger] self.frame_ok(s) by {
                assert(before.frame_ok(s));
                let at = self.stack@[s].node as int;
                assert(at != node) by {
                    assert(before.depths@[at] == s);
                }
                if !self.stack@[s].deals {
                    assert(linked(was, at));
                    lemma_follows_kept(was, nodes, at, self.stack@[s].actions@);
                }
            }
            assert forall|i: int|
                0 <= i < nodes.len() && !self.on_stack(i) && self.pending != Some(
                    i as usize,
                ) implies #[trigger] self.built(i) by {
                if i != node {
                    assert(linked(was, i));
                    assert(!before.on_stack(i)) by {
                        if before.on_stack(i) {
                            let s = choose|s: int|
                                0 <= s < before.stack@.len() && (#[trigger] before.stack@[s]).node
                                    == i;
                            assert(self.stack@[s].node == i);
                        }
                    }
                    assert(before.built(i));
                    if arrival_of(was[i].state, self.full) == Arrival::Decision {
                        lemma_follows_kept(was, nodes, i, self.offers@[i]);
                    }
                }
            }
        }
    }

    /// Takes the legal actions of the pending decision node.
    pub fn offer_actions(&mut self, actions: Vec<Action>) -> (result: Result<(), TreeError>)
        requires
            old(self).wf(),
            old(self).pending matches Some(node) && arrival_of(
                old(self).tree.nodes@[node as int].state,
                old(self).full,
            ) == Arrival::Decision,
            old(self).stack@.len() < old(self).max_depth,
        ensures
            final(self).wf(),
            actions_taken(*old(self), *final(self), actions, result),
    {
        let node = match self.pending {
            Some(node) => node,
            None => {
                return Ok(());
            },
        };
        let count = actions.len();
        if count == 0 {
            return Err(TreeError::NoLegalActions { node });
        }
        let ghost before = *self;
        let ghost offered = actions@;
        let frame = Frame { node, next: 0, count, actions, deals: false };
        self.stack.push(frame);
        self.pending = None;
        self.offers = Ghost(self.offers@.insert(node as int, offered));
        proof {
            self.lemma_opened(before, node);
        }
        Ok(())
    }

    /// Takes the outcomes of the cards that come at the pending node.
    pub fn offer_outcomes(&mut self, outcomes: Vec<ChanceOutcome>)
        requires
            old(self).wf(),
            old(self).pending matches Some(node) && arrival_of(
                old(self).tree.nodes@[node as int].state,
                old(self).full,
            ) is Deal,
        ensures
            final(self).wf(),
            outcomes_taken(*old(self), *final(self), outcomes),
    {
        let node = match self.pending {
            Some(node) => node,
            None => {
                return ;
            },
        };
        let next_street = match arrival(&self.tree.nodes[node].state, self.full) {
            Arrival::Deal(next_street) => next_street,
            _ => {
                return ;
            },
        };
        let ghost before = *self;
        let count = outcomes.len();
        self.tree.nodes[node].chance = Some(ChanceNodeSpec { next_street, outcomes });
        let frame = Frame { node, next: 0, count, actions: Vec::new(), deals: true };
        self.stack.push(frame);
        self.pending = None;
        proof {
            assert(self.stack@.drop_last() =~= before.stack@);
            self.lemma_opened(before, node);
        }
    }

    /// Opening the pending node keeps the builder in order.
    proof fn lemma_opened(self, before: Self, node: usize)
        requires
            before.wf(),
            before.pending == Some(node),
            self.pending is None,
            self.tree.root == before.tree.root,
            self.full == before.full,
            self.max_nodes == before.max_nodes,
            self.max_depth == before.max_depth,
            self.depths == before.depths,
            self.tree.nodes@.len() == before.tree.nodes@.len(),
            forall|i: int|
                0 <= i < before.tree.nodes@.len() && i != node ==> #[trigger] self.tree.nodes@[i]
                    == before.tree.nodes@[i],
            self.tree.nodes@[node as int] == (TreeNode {
                chance: self.tree.nodes@[node as int].chance,
                ..before.tree.nodes@[node as int]
            }),
            self.stack@.len() > 0,
            self.stack@ == before.stack@.push(self.stack@.last()),
            self.stack@.last().node == node,
            self.stack@.last().next == 0,
            self.frame_ok(self.stack@.len() - 1),
            forall|i: int|
                i != node && #[trigger] before.offers@.dom().contains(i)
                    ==> self.offers@.dom().contains(i) && self.offers@[i] == before.offers@[i],
        ensures
            self.wf(),
    {
        let nodes = self.tree.nodes@;
        let was = before.tree.nodes@;
        assert forall|i: int| 0 <= i < nodes.len() implies #[trigger] linked(nodes, i) by {
            assert(linked(was, i));
            if i > 0 {
                let parent = was[i].parent->Some_0;
                assert(parent < i);
                assert(nodes[parent as int].chance is Some == was[parent as int].chance is Some);
            }
        }
        assert forall|s: int| 0 <= s < self.stack@.len() implies #[trigger] self.frame_ok(s) by {
            if s < before.stack@.len() {
                assert(before.frame_ok(s));
                assert(self.stack@[s] == before.stack@[s]);
                assert(self.stack@[s].node != node) by {
                    assert(before.depths@[before.stack@[s].node as int] == s);
                }
                if s > 0 {
                    assert(self.stack@[s - 1] == before.stack@[s - 1]);
                }
                if !self.stack@[s].deals {
                    assert(linked(was, self.stack@[s].node as int));
                    lemma_follows_kept(
                        was,
                        nodes,
                        self.stack@[s].node as int,
                        self.stack@[s].actions@,
                    );
                }
            }
        }
        assert forall|i: int|
            0 <= i < nodes.len() && !self.on_stack(i) && self.pending != Some(
                i as usize,
            ) implies #[trigger] self.built(i) by {
            assert(self.stack@[self.stack@.len() - 1].node == node);
            assert(!before.on_stack(i)) by {
                if before.on_stack(i) {
                    let s = choose|s: int|
                        0 <= s < before.stack@.len() && (#[trigger] before.stack@[s]).node == i;
                    assert(self.stack@[s].node == i);
                }
            }
            assert(before.built(i));
            assert(linked(was, i));
            if arrival_of(was[i].state, self.full) == Arrival::Decision {
                assert(before.offers@.dom().contains(i));
                lemma_follows_kept(was, nodes, i, self.offers@[i]);
            }
        }
    }

    /// Takes the state of the child that was asked for and adds it.
    pub fn add_child(&mut self, state: GameState) -> (result: Result<NodeId, TreeError>)
        requires
            old(self).wf(),
            old(self).awaits_child(),
        ensures
            final(self).wf(),
            child_added(*old(self), *final(self), state, result),
    {
        let length = self.stack.len();
        let child = self.tree.nodes.len();
        if child >= self.max_nodes {
            return Err(TreeError::NodeLimit { limit: self.max_nodes });
        }
        let ghost before = *self;
        assert(self.frame_ok(length - 1));
        let parent = self.stack[length - 1].node;
        let action = if self.stack[length - 1].deals {
            None
        } else {
            Some(self.stack[length - 1].actions[self.stack[length - 1].next])
        };
        let node = TreeNode {
            id: child,
            parent: Some(parent),
            action_from_parent: action,
            state,
            children: Vec::new(),
            leaf: None,
            chance: None,
        };
        self.tree.nodes.push(node);
        self.tree.nodes[parent].children.push(child);
        self.stack[length - 1].next = self.stack[length - 1].next + 1;
        self.pending = Some(child);
        self.depths = Ghost(self.depths@.push(length as nat));
        proof {
            let nodes = self.tree.nodes@;
            let was = before.tree.nodes@;
            let added = nodes[parent as int].children@;
            assert(added == was[parent as int].children@.push(child));
            assert(added[was[parent as int].children@.len() as int] == child);
            assert forall|i: int| 0 <= i < nodes.len() implies #[trigger] linked(nodes, i) by {
                if i < child {
                    assert(linked(was, i));
                    if i > 0 {
                        let above = was[i].parent->Some_0 as int;
                        let k = choose|k: int|
                            0 <= k < was[above].children@.len() && was[above].children@[k] == i;
                        assert(nodes[above].children@[k] == i);
                    }
                    assert forall|k: int| 0 <= k < nodes[i].children@.len() implies {
                        let below = #[trigger] nodes[i].children@[k];
                        i < below < nodes.len() && nodes[below as int].parent == Some(i as usize)
                    } by {
                        if i == parent && k == was[parent as int].children@.len() {
                        } else {
                            assert(was[i].children@[k] == nodes[i].children@[k]);
                        }
                    }
                }
            }
            assert(self.stack@.drop_last() =~= before.stack@.drop_last());
            assert forall|i: int| 0 < i < nodes.len() implies #[trigger] self.depths@[i]
                == self.depths@[nodes[i].parent->Some_0 as int] + 1 by {
                if i < child {
                    assert(linked(was, i));
                    assert(before.depths@[i] == before.depths@[was[i].parent->Some_0 as int] + 1);
                }
            }
            assert forall|s: int| 0 <= s < self.stack@.len() implies #[trigger] self.frame_ok(s) by {
                assert(before.frame_ok(s));
                if s < length - 1 {
                    assert(self.stack@[s] == before.stack@[s]);
                    assert(self.stack@[s].node != parent) by {
                        assert(before.depths@[before.stack@[s].node as int] == s);
                        assert(before.frame_ok(length - 1));
                    }
                    assert(linked(was, self.stack@[s].node as int));
                }
                if s > 0 {
                    assert(self.stack@[s - 1].node == before.stack@[s - 1].node);
                }
                if s == length - 1 && !self.stack@[s].deals {
                    assert(linked(was, parent as int));
                    assert forall|k: int| 0 <= k < added.len() implies nodes[(#[trigger] added[k])
                        as int].action_from_parent == Some(self.stack@[s].actions@[k]) by {
                        if k < was[parent as int].children@.len() {
                            assert(was[parent as int].children@[k] == added[k]);
                        }
                    }
                }
            }
            assert forall|i: int|
                0 <= i < nodes.len() && !self.on_stack(i) && self.pending != Some(
                    i as usize,
                ) implies #[trigger] self.built(i) by {
                assert(self.stack@[length - 1].node == parent);
                assert(i != parent);
                assert(!before.on_stack(i)) by {
                    if before.on_stack(i) {
                        let s = choose|s: int|
                            0 <= s < before.stack@.len() && (#[trigger] before.stack@[s]).node
                                == i;
                        assert(self.stack@[s].node == i);
                    }
                }
                assert(before.built(i));
                assert(linked(was, i));
            }
        }
        Ok(child)
    }

    /// Checks the finished tree and hands it over.
    pub fn finish(self, facts: &[NodeFacts]) -> (result: Result<GameTree, TreeError>)
        requires
            self.wf(),
            self.finished(),
            facts@.len() == self.tree.nodes@.len(),
        ensures
            match result {
                Ok(tree) => tree == self.tree && tree_error(self.tree, facts@) is None,
                Err(error) => tree_error(self.tree, facts@) == Some(error),
            },
    {
        match self.tree.validate(facts) {
            Ok(_) => Ok(self.tree),
            Err(error) => Err(error),
        }
    }
}

proof fn lemma_settled(stack: Seq<Frame>)
    ensures
        settled(stack).len() > 0 ==> settled(stack).last().next < settled(stack).last().count,
        settled(stack).len() <= stack.len(),
        settled(stack) == stack.take(settled(stack).len() as int),
    decreases stack.len(),
{
    if stack.len() == 0 || stack.last().next < stack.last().count {
        assert(stack.take(stack.len() as int) =~= stack);
    } else {
        lemma_settled(stack.drop_last());
        let kept = settled(stack.drop_last()).len() as int;
        assert(stack.drop_last().take(kept) =~= stack.take(kept));
    }
}

/// A finished build is rejected only for what the builder does not decide: an
/// inconsistent table state, a terminal state with a player to act, or
/// probabilities that do not sum to one.
pub proof fn lemma_finished_tree_is_well_formed(builder: TreeBuilder, facts: Seq<NodeFacts>)
    requires
        builder.wf(),
        builder.finished(),
        facts.len() == builder.tree.nodes@.len(),
        builder.max_nodes <= usize::MAX,
        forall|i: int|
            0 <= i < facts.len() ==> (#[trigger] facts[i]).state_ok && facts[i].probabilities_ok,
        forall|i: int|
            0 <= i < builder.tree.nodes@.len() ==> ((
            #[trigger] builder.tree.nodes@[i]).state.terminal is Some
                ==> builder.tree.nodes@[i].state.actor is None),
    ensures
        well_formed(builder.tree, facts),
        tree_error(builder.tree, facts) is None,
{
    let nodes = builder.tree.nodes@;
    assert forall|i: int| 0 <= i < nodes.len() implies node_well_formed(
        nodes,
        #[trigger] facts[i],
        i,
    ) by {
        assert(linked(nodes, i));
        assert(!builder.on_stack(i));
        assert(builder.built(i));
        assert(facts[i].state_ok && facts[i].probabilities_ok);
        assert(nodes[i].state.terminal is Some ==> nodes[i].state.actor is None);
    }
    lemma_validation_is_exact(builder.tree, facts);
}

/// A finished tree keeps its limits, every decision node offers exactly the
/// legal actions it was given, one child for each and in their order, and no
/// round tree deals cards.
pub proof fn lemma_finished_tree_is_complete(builder: TreeBuilder, index: int)
    requires
        builder.wf(),
        builder.finished(),
        0 <= index < builder.tree.nodes@.len(),
    ensures
        ({
            let nodes = builder.tree.nodes@;
            let node = nodes[index];
            &&& nodes.len() <= builder.max_nodes
            &&& node.parent matches Some(parent) ==> parent < index
            &&& !builder.full ==> node.chance is None
            &&& node.leaf is None && node.chance is None ==> {
                &&& builder.depths@[index] < builder.max_depth
                &&& node.children@.len() == builder.offers@[index].len()
                &&& forall|k: int|
                    0 <= k < node.children@.len() ==> nodes[(#[trigger] node.children@[k])
                        as int].action_from_parent == Some(builder.offers@[index][k])
            }
        }),
{
    assert(!builder.on_stack(index));
    assert(builder.built(index));
    assert(linked(builder.tree.nodes@, index));
}

} // verus!
