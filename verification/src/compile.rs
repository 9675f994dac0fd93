//! Copying a public tree for fixed private hands.
//!
//! The copy leaves out the public cards that a player holds. Its decisions are
//! keyed by the public node, the acting player and the acting player's own
//! hand, and by nothing else.
use vstd::prelude::*;

use crate::cards::{cards_mask, first_card_error, mask_from_cards, CardError, Combo};
use crate::domain::Action;
use crate::multiway::MultiwayGameNode;
use crate::payoff::{all_valid, hands_mask, mask_of_hands, MultiwayTerminalPayoff, PayoffError};
use crate::reach::{is_path, leads, ranked};
use crate::table::{Key, Place, Table};
use crate::tree::{ChanceOutcome, GameTree, LeafKind, TreeError, TreeNode};

verus! {

#[derive(Debug, Clone, Copy, PartialEq, Eq, Structural)]
pub enum CompileError {
    Tree(TreeError),
    Cycle { node: usize },
    Unreachable,
    NoDeals,
    SeatCount { players: usize },
    DealHands { hands: usize, players: usize },
    DealProbability,
    Payoff(PayoffError),
    Cards(CardError),
    BoardConflict { node: usize },
    NoLegalOutcomes { node: usize },
    RoundComplete { node: usize },
    NoActor { node: usize },
    PlayerOutside { node: usize, player: usize },
    MissingAction { node: usize, child: usize },
    DuplicateAction { node: usize, action: Action },
    NoActions { node: usize },
}

/// The children of every node.
pub open spec fn tree_graph(tree: GameTree) -> Seq<Seq<usize>> {
    tree.nodes@.map(|i: int, node: TreeNode| node.children@)
}

/// The outcomes of the first `count` whose cards nobody in `mask` holds, with
/// the nodes that they lead to.
pub open spec fn allowed_outcomes(
    outcomes: Seq<ChanceOutcome>,
    children: Seq<usize>,
    mask: u64,
    count: int,
) -> Seq<(u64, usize)>
    decreases count,
{
    if count <= 0 {
        Seq::empty()
    } else {
        let rest = allowed_outcomes(outcomes, children, mask, count - 1);
        if cards_mask(outcomes[count - 1].cards@) & mask != 0 {
            rest
        } else {
            rest.push((outcomes[count - 1].probability, children[count - 1]))
        }
    }
}

/// The outcomes of a node that the hands leave possible.
pub open spec fn open_outcomes(node: TreeNode, mask: u64) -> Seq<(u64, usize)> {
    let outcomes = node.chance->Some_0.outcomes@;
    allowed_outcomes(outcomes, node.children@, mask, outcomes.len() as int)
}

/// The nodes that a copy of `node` leads to.
pub open spec fn copy_targets(node: TreeNode, mask: u64) -> Seq<usize> {
    if node.chance is Some {
        open_outcomes(node, mask).map(|i: int, outcome: (u64, usize)| outcome.1)
    } else if node.leaf is Some {
        Seq::empty()
    } else {
        node.children@
    }
}

pub open spec fn copy_graph(tree: GameTree, mask: u64) -> Seq<Seq<usize>> {
    tree.nodes@.map(|i: int, node: TreeNode| copy_targets(node, mask))
}

/// The first card error among the outcomes from `from` on.
pub open spec fn outcome_card_error(outcomes: Seq<ChanceOutcome>, from: int) -> Option<CardError>
    decreases outcomes.len() - from,
{
    if from >= outcomes.len() {
        None
    } else {
        match first_card_error(outcomes[from].cards@, 0) {
            Some(error) => Some(error),
            None => outcome_card_error(outcomes, from + 1),
        }
    }
}

/// What is wrong with the action that leads to child `k`: it is missing, or repeats
/// an earlier one.
pub open spec fn edge_error(tree: GameTree, node: TreeNode, k: int) -> Option<CompileError> {
    let child = node.children@[k];
    match tree.nodes@[child as int].action_from_parent {
        None => Some(CompileError::MissingAction { node: node.id, child }),
        Some(action) => if exists|j: int|
            0 <= j < k && tree.nodes@[(#[trigger] node.children@[j]) as int].action_from_parent
                == Some(action) {
            Some(CompileError::DuplicateAction { node: node.id, action })
        } else {
            None
        },
    }
}

/// The first child from `from` on whose incoming action is missing or repeats
/// an earlier one.
pub open spec fn label_error(tree: GameTree, node: TreeNode, from: int) -> Option<CompileError>
    decreases node.children@.len() - from,
{
    if from >= node.children@.len() {
        None
    } else {
        match edge_error(tree, node, from) {
            Some(error) => Some(error),
            None => label_error(tree, node, from + 1),
        }
    }
}

/// What keeps node `at` itself from being copied for `hands`.
pub open spec fn copy_problem<P: MultiwayTerminalPayoff>(
    tree: GameTree,
    at: usize,
    hands: Seq<Combo>,
    payoff: P,
) -> Option<CompileError> {
    let node = tree.nodes@[at as int];
    let mask = hands_mask(hands);
    match first_card_error(node.state.board@, 0) {
        Some(error) => Some(CompileError::Cards(error)),
        None => if mask & cards_mask(node.state.board@) != 0 {
            Some(CompileError::BoardConflict { node: node.id })
        } else {
            match (node.chance, node.leaf) {
                (Some(chance), _) => match outcome_card_error(chance.outcomes@, 0) {
                    Some(error) => Some(CompileError::Cards(error)),
                    None => if open_outcomes(node, mask).len() == 0 {
                        Some(CompileError::NoLegalOutcomes { node: node.id })
                    } else {
                        None
                    },
                },
                (None, Some(LeafKind::RoundComplete)) => Some(
                    CompileError::RoundComplete { node: node.id },
                ),
                (None, Some(LeafKind::Terminal(_))) => match payoff.spec_utility(node) {
                    Ok(_) => None,
                    Err(error) => Some(CompileError::Payoff(error)),
                },
                (None, None) => match node.state.actor {
                    None => Some(CompileError::NoActor { node: node.id }),
                    Some(player) => if player >= hands.len() {
                        Some(CompileError::PlayerOutside { node: node.id, player })
                    } else if label_error(tree, node, 0) is Some {
                        label_error(tree, node, 0)
                    } else if node.children@.len() == 0 {
                        Some(CompileError::NoActions { node: node.id })
                    } else {
                        None
                    },
                },
            }
        },
    }
}

/// What the copying counts on: nodes at their positions, children and outcomes
/// in step.
pub open spec fn tree_in_order(tree: GameTree) -> bool {
    forall|i: int|
        0 <= i < tree.nodes@.len() ==> {
            let node = #[trigger] tree.nodes@[i];
            &&& node.id == i
            &&& forall|k: int|
                0 <= k < node.children@.len() ==> (#[trigger] node.children@[k])
                    < tree.nodes@.len()
            &&& node.chance matches Some(chance) ==> chance.outcomes@.len()
                == node.children@.len()
        }
}

/// The key of a decision: public node, player, own hand.
pub open spec fn decision_table_key(node: usize, player: usize, hand: Combo) -> Key {
    Key { major: node as u64, middle: player as u64, minor: hand_code(hand) }
}

pub open spec fn hand_code(hand: Combo) -> u64 {
    (256 * hand.first + hand.second) as u64
}

/// The ids of a table are the numbers below its size, each used once.
pub open spec fn numbered(table: Table<u64>) -> bool {
    &&& forall|i: int|
        0 <= i < table.entries@.len() ==> (#[trigger] table.entries@[i]).1 < table.entries@.len()
    &&& forall|i: int, j: int|
        0 <= i < j < table.entries@.len() ==> (#[trigger] table.entries@[i]).1 != (
        #[trigger] table.entries@[j]).1
}

/// Solver nodes under construction. Chance nodes carry the probabilities of
/// their outcomes in the public tree.
pub struct Draft {
    pub nodes: Vec<MultiwayGameNode>,
    pub actions: Vec<Vec<Action>>,
    pub tree_node_ids: Vec<Option<usize>>,
    pub private_hands: Vec<Option<Vec<Combo>>>,
    /// The information set of each decision key.
    pub infosets: Table<u64>,
    /// For each node the number after the last node of its copy.
    pub ends: Ghost<Seq<int>>,
}

/// Position `at` holds the copy of `target` for `hands`.
pub open spec fn is_copy(draft: Draft, at: int, target: usize, hands: Seq<Combo>) -> bool {
    &&& 0 <= at < draft.nodes@.len()
    &&& draft.tree_node_ids@[at] == Some(target)
    &&& draft.private_hands@[at] matches Some(held)
    &&& held@ == hands
}

/// The copies `ids` follow `at` and each other without a gap: the numbering is
/// depth first.
pub open spec fn laid_out(draft: Draft, at: int, ids: Seq<usize>) -> bool {
    &&& ids.len() > 0
    &&& ids[0] == at + 1
    &&& forall|k: int| 0 < k < ids.len() ==> #[trigger] ids[k] == draft.ends@[ids[k - 1] as int]
    &&& forall|k: int| 0 <= k < ids.len() ==> at < (#[trigger] ids[k]) < draft.nodes@.len()
    &&& draft.ends@[at] == draft.ends@[ids.last() as int]
}

pub open spec fn copies_of(
    draft: Draft,
    ids: Seq<usize>,
    targets: Seq<usize>,
    hands: Seq<Combo>,
) -> bool {
    &&& ids.len() == targets.len()
    &&& forall|k: int|
        0 <= k < ids.len() ==> is_copy(draft, (#[trigger] ids[k]) as int, targets[k], hands)
}

/// `labels` are the actions that lead to the children of `node`.
pub open spec fn labels_of(tree: GameTree, node: TreeNode, labels: Seq<Action>) -> bool {
    &&& labels.len() == node.children@.len()
    &&& forall|k: int|
        0 <= k < labels.len() ==> tree.nodes@[node.children@[k] as int].action_from_parent == Some(
            #[trigger] labels[k],
        )
}

/// The solver node at `at` is a faithful copy of the public node it came from.
pub open spec fn copied<P: MultiwayTerminalPayoff>(
    draft: Draft,
    tree: GameTree,
    at: int,
    hands: Seq<Combo>,
    payoff: P,
) -> bool {
    &&& draft.tree_node_ids@[at] matches Some(target)
    &&& target < tree.nodes@.len()
    &&& is_copy(draft, at, target, hands)
    &&& {
        let node = tree.nodes@[target as int];
        let mask = hands_mask(hands);
        if node.chance is Some {
            &&& draft.nodes@[at] matches MultiwayGameNode::Chance { outcomes }
            &&& {
                let ids = outcomes@.map(|i: int, outcome: (u64, usize)| outcome.1);
                &&& laid_out(draft, at, ids)
                &&& copies_of(draft, ids, copy_targets(node, mask), hands)
                &&& forall|k: int|
                    0 <= k < outcomes@.len() ==> (#[trigger] outcomes@[k]).0 == open_outcomes(
                        node,
                        mask,
                    )[k].0
            }
            &&& draft.actions@[at]@.len() == 0
        } else if node.leaf is Some {
            &&& draft.nodes@[at] matches MultiwayGameNode::Terminal { utility }
            &&& payoff.spec_utility(node) == Ok::<Seq<u64>, PayoffError>(utility@)
            &&& draft.ends@[at] == at + 1
            &&& draft.actions@[at]@.len() == 0
        } else {
            &&& draft.nodes@[at] matches MultiwayGameNode::Decision { player, infoset, children }
            &&& node.state.actor == Some(player)
            &&& player < hands.len()
            &&& laid_out(draft, at, children@)
            &&& copies_of(draft, children@, node.children@, hands)
            &&& labels_of(tree, node, draft.actions@[at]@)
            &&& ({
                let key = decision_table_key(target, player, hands[player as int]);
                draft.infosets@.dom().contains(key) && draft.infosets@[key] == infoset
            })
        }
    }
}

impl Draft {
    pub open spec fn wf(self) -> bool {
        &&& self.actions@.len() == self.nodes@.len()
        &&& self.tree_node_ids@.len() == self.nodes@.len()
        &&& self.private_hands@.len() == self.nodes@.len()
        &&& self.ends@.len() == self.nodes@.len()
        &&& self.infosets.wf()
        &&& numbered(self.infosets)
    }
}

/// The decision at `at` belongs to information set `number`.
pub open spec fn decides(draft: Draft, at: int, number: int) -> bool {
    &&& 0 <= at < draft.nodes@.len()
    &&& draft.nodes@[at] matches MultiwayGameNode::Decision { player, infoset, children }
    &&& infoset == number
}

/// The copy at `a` was completed before the copy at `b`: it ends earlier, or it is
/// the last part of the copy at `b`.
pub open spec fn completed_before(draft: Draft, a: int, b: int) -> bool {
    draft.ends@[a] < draft.ends@[b] || draft.ends@[a] == draft.ends@[b] && a > b
}

/// Some decision belongs to information set `number`.
pub open spec fn decided(draft: Draft, number: int) -> bool {
    exists|a: int| #[trigger] decides(draft, a, number)
}

/// Some decision of information set `number` was completed before the copy at
/// `at`.
pub open spec fn decided_before(draft: Draft, number: int, at: int) -> bool {
    exists|a: int| #[trigger] decides(draft, a, number) && completed_before(draft, a, at)
}

/// Information sets are numbered from zero in the order in which their first
/// decisions are completed.
pub open spec fn numbered_in_order(draft: Draft) -> bool {
    &&& forall|at: int, number: int| #[trigger]
        decides(draft, at, number) ==> number < draft.infosets.entries@.len() && draft.ends@[at]
            <= draft.nodes@.len()
    &&& forall|number: int|
        0 <= number < draft.infosets.entries@.len() ==> #[trigger] decided(draft, number)
    &&& forall|at: int, number: int, lower: int|
        #![trigger decides(draft, at, number), decided_before(draft, lower, at)]
        decides(draft, at, number) && 0 <= lower < number ==> decided_before(draft, lower, at)
}

/// A draft in which every decision stays where it was, with its end, and in which
/// no decision is new keeps its numbering.
pub proof fn lemma_numbering_kept(a: Draft, b: Draft)
    requires
        numbered_in_order(a),
        a.nodes@.len() <= b.nodes@.len(),
        b.infosets.entries@.len() == a.infosets.entries@.len(),
        forall|at: int, number: int| #[trigger]
            decides(b, at, number) ==> decides(a, at, number),
        forall|at: int, number: int| #[trigger]
            decides(a, at, number) ==> decides(b, at, number) && b.ends@[at] == a.ends@[at],
    ensures
        numbered_in_order(b),
{
    assert forall|number: int| 0 <= number < b.infosets.entries@.len() implies #[trigger] decided(
        b,
        number,
    ) by {
        assert(decided(a, number));
        let at = choose|at: int| #[trigger] decides(a, at, number);
        assert(decides(b, at, number));
    }
    assert forall|at: int, number: int, lower: int|
        #![trigger decides(b, at, number), decided_before(b, lower, at)]
        decides(b, at, number) && 0 <= lower < number implies decided_before(b, lower, at) by {
        assert(decides(a, at, number));
        assert(decided_before(a, lower, at));
        let found = choose|found: int| #[trigger]
            decides(a, found, lower) && completed_before(a, found, at);
        assert(decides(b, found, lower) && completed_before(b, found, at));
    }
}

/// A completed decision takes the next place in the numbering: the number of its
/// key, or the next one.
proof fn lemma_numbering_grows(origin: Draft, grown: Draft, keyed: Draft, after: Draft, infoset: u64)
    requires
        numbered_in_order(origin),
        numbered_in_order(grown),
        kept_from(origin, grown, 0),
        origin.nodes@.len() < grown.nodes@.len(),
        !(grown.nodes@[origin.nodes@.len() as int] is Decision),
        keyed.nodes == grown.nodes,
        keyed.ends == grown.ends,
        after.infosets == keyed.infosets,
        after.nodes@.len() == grown.nodes@.len(),
        grown.ends@.len() == grown.nodes@.len(),
        after.ends@ == grown.ends@.update(
            origin.nodes@.len() as int,
            grown.nodes@.len() as int,
        ),
        forall|j: int|
            0 <= j < after.nodes@.len() && j != origin.nodes@.len() ==> #[trigger] after.nodes@[j]
                == grown.nodes@[j],
        decides(after, origin.nodes@.len() as int, infoset as int),
        ({
            ||| keyed.infosets.entries@.len() == grown.infosets.entries@.len() && infoset
                < grown.infosets.entries@.len()
            ||| keyed.infosets.entries@.len() == grown.infosets.entries@.len() + 1 && infoset
                == grown.infosets.entries@.len()
        }),
    ensures
        numbered_in_order(after),
{
    let new = origin.nodes@.len() as int;
    assert forall|at: int, number: int| #[trigger] decides(after, at, number) && at != new implies
        decides(grown, at, number) && after.ends@[at] == grown.ends@[at] by {
        assert(after.nodes@[at] == grown.nodes@[at]);
    }
    assert forall|at: int, number: int| #[trigger] decides(grown, at, number) implies decides(
        after,
        at,
        number,
    ) && at != new && completed_before(after, at, new) by {
        assert(at != new);
        assert(after.nodes@[at] == grown.nodes@[at]);
        if at < new {
            assert(kept_at(origin, grown, at));
            assert(decides(origin, at, number));
        }
    }
    assert forall|number: int| 0 <= number < after.infosets.entries@.len() implies #[trigger]
        decided(after, number) by {
        if number < grown.infosets.entries@.len() {
            assert(decided(grown, number));
            let at = choose|at: int| #[trigger] decides(grown, at, number);
            assert(decides(after, at, number));
        } else {
            assert(decides(after, new, number));
        }
    }
    assert forall|at: int, number: int, lower: int|
        #![trigger decides(after, at, number), decided_before(after, lower, at)]
        decides(after, at, number) && 0 <= lower < number implies decided_before(
        after,
        lower,
        at,
    ) by {
        if at == new {
            assert(decided(grown, lower));
            let found = choose|found: int| #[trigger] decides(grown, found, lower);
            assert(decides(after, found, lower) && completed_before(after, found, at));
        } else {
            assert(decides(grown, at, number));
            assert(decided_before(grown, lower, at));
            let found = choose|found: int| #[trigger]
                decides(grown, found, lower) && completed_before(grown, found, at);
            assert(decides(after, found, lower));
            assert(found != new);
            assert(completed_before(after, found, at));
        }
    }
}

/// Position `at` is the same in `a` and `b`.
pub open spec fn kept_at(a: Draft, b: Draft, at: int) -> bool {
    &&& b.nodes@[at] == a.nodes@[at]
    &&& b.actions@[at] == a.actions@[at]
    &&& b.tree_node_ids@[at] == a.tree_node_ids@[at]
    &&& b.private_hands@[at] == a.private_hands@[at]
    &&& b.ends@[at] == a.ends@[at]
}

/// From position `from` on, the nodes of `a` stay in `b`, and so do its
/// information sets.
pub open spec fn kept_from(a: Draft, b: Draft, from: int) -> bool {
    &&& a.nodes@.len() <= b.nodes@.len()
    &&& forall|i: int| from <= i < a.nodes@.len() ==> #[trigger] kept_at(a, b, i)
    &&& forall|key: Key| #[trigger]
        a.infosets@.dom().contains(key) ==> b.infosets@.dom().contains(key) && b.infosets@[key]
            == a.infosets@[key]
}

proof fn lemma_kept_trans(a: Draft, b: Draft, c: Draft, from: int)
    requires
        kept_from(a, b, from),
        kept_from(b, c, from),
    ensures
        kept_from(a, c, from),
{
    assert forall|i: int| from <= i < a.nodes@.len() implies #[trigger] kept_at(a, c, i) by {
        assert(kept_at(a, b, i) && kept_at(b, c, i));
    }
}

proof fn lemma_laid_out_kept(a: Draft, b: Draft, at: int, ids: Seq<usize>)
    requires
        0 <= at < a.nodes@.len(),
        laid_out(a, at, ids),
        kept_from(a, b, at),
    ensures
        laid_out(b, at, ids),
{
    assert(kept_at(a, b, at));
    assert(at < ids[ids.len() - 1] < a.nodes@.len());
    assert(kept_at(a, b, ids.last() as int));
    assert forall|k: int| 0 < k < ids.len() implies #[trigger] ids[k] == b.ends@[ids[k - 1]
        as int] by {
        assert(at < ids[k - 1] < a.nodes@.len());
        assert(kept_at(a, b, ids[k - 1] as int));
    }
}

proof fn lemma_copies_kept(
    a: Draft,
    b: Draft,
    from: int,
    ids: Seq<usize>,
    targets: Seq<usize>,
    hands: Seq<Combo>,
)
    requires
        copies_of(a, ids, targets, hands),
        kept_from(a, b, from),
        forall|k: int| 0 <= k < ids.len() ==> from <= #[trigger] ids[k],
    ensures
        copies_of(b, ids, targets, hands),
{
    assert forall|k: int| 0 <= k < ids.len() implies is_copy(
        b,
        (#[trigger] ids[k]) as int,
        targets[k],
        hands,
    ) by {
        assert(is_copy(a, ids[k] as int, targets[k], hands));
        assert(kept_at(a, b, ids[k] as int));
    }
}

/// A copy stays a copy while nodes are added behind it.
pub proof fn lemma_copied_kept<P: MultiwayTerminalPayoff>(
    a: Draft,
    b: Draft,
    tree: GameTree,
    at: int,
    hands: Seq<Combo>,
    payoff: P,
)
    requires
        copied(a, tree, at, hands, payoff),
        kept_from(a, b, at),
    ensures
        copied(b, tree, at, hands, payoff),
{
    let target = a.tree_node_ids@[at]->Some_0;
    let node = tree.nodes@[target as int];
    let mask = hands_mask(hands);
    assert(kept_at(a, b, at));
    match a.nodes@[at] {
        MultiwayGameNode::Chance { outcomes } => {
            if node.chance is Some {
                let ids = outcomes@.map(|i: int, outcome: (u64, usize)| outcome.1);
                lemma_laid_out_kept(a, b, at, ids);
                lemma_copies_kept(a, b, at, ids, copy_targets(node, mask), hands);
            }
        },
        MultiwayGameNode::Terminal { .. } => {},
        MultiwayGameNode::Decision { player, infoset, children } => {
            if node.chance is None && node.leaf is None {
                lemma_laid_out_kept(a, b, at, children@);
                lemma_copies_kept(a, b, at, children@, node.children@, hands);
                let key = decision_table_key(target, player, hands[player as int]);
                assert(a.infosets@.dom().contains(key));
            }
        },
    }
}

proof fn lemma_leads_self(graph: Seq<Seq<usize>>, at: usize)
    ensures
        leads(graph, at, at),
{
    let path = seq![at];
    assert(is_path(graph, path) && path[0] == at && path.last() == at);
}

/// What an edge leads to leads on.
proof fn lemma_leads_front(graph: Seq<Seq<usize>>, at: usize, k: int, to: usize)
    requires
        at < graph.len(),
        0 <= k < graph[at as int].len(),
        leads(graph, graph[at as int][k], to),
    ensures
        leads(graph, at, to),
{
    let next = graph[at as int][k];
    let path = choose|path: Seq<usize>| #[trigger]
        is_path(graph, path) && path[0] == next && path.last() == to;
    let longer = seq![at] + path;
    assert(graph[at as int].contains(next));
    assert forall|i: int| 0 <= i < longer.len() - 1 implies (#[trigger] longer[i]) < graph.len()
        && graph[longer[i] as int].contains(longer[i + 1]) by {
        if i > 0 {
            assert(longer[i] == path[i - 1]);
            assert(longer[i + 1] == path[i]);
        }
    }
    assert(is_path(graph, longer) && longer[0] == at && longer.last() == to);
}

/// What a node leads to is the node itself or lies behind one of its edges.
proof fn lemma_leads_step(graph: Seq<Seq<usize>>, at: usize, to: usize) -> (k: int)
    requires
        leads(graph, at, to),
        at < graph.len(),
        to != at,
    ensures
        0 <= k < graph[at as int].len(),
        leads(graph, graph[at as int][k], to),
{
    let path = choose|path: Seq<usize>| #[trigger]
        is_path(graph, path) && path[0] == at && path.last() == to;
    assert(path.len() > 1);
    assert(path[0] < graph.len());
    let next = path[1];
    let k = choose|k: int| 0 <= k < graph[at as int].len() && graph[at as int][k] == next;
    let rest = path.skip(1);
    assert forall|i: int| 0 <= i < rest.len() - 1 implies (#[trigger] rest[i]) < graph.len()
        && graph[rest[i] as int].contains(rest[i + 1]) by {
        assert(rest[i] == path[i + 1]);
        assert(rest[i + 1] == path[i + 2]);
    }
    assert(is_path(graph, rest) && rest[0] == next && rest.last() == to);
    k
}

/// Nothing behind `at` keeps the tree from being copied.
pub open spec fn copies_cleanly<P: MultiwayTerminalPayoff>(
    tree: GameTree,
    at: usize,
    hands: Seq<Combo>,
    payoff: P,
) -> bool {
    forall|x: usize| #[trigger]
        leads(copy_graph(tree, hands_mask(hands)), at, x) ==> copy_problem(tree, x, hands, payoff)
            is None
}

/// What keeps node `at` from being copied before any node behind it is looked at.
pub open spec fn entry_problem<P: MultiwayTerminalPayoff>(
    tree: GameTree,
    at: usize,
    hands: Seq<Combo>,
    payoff: P,
) -> Option<CompileError> {
    let node = tree.nodes@[at as int];
    let board_free = first_card_error(node.state.board@, 0) is None && hands_mask(hands)
        & cards_mask(node.state.board@) == 0;
    if board_free && node.chance is None && node.leaf is None {
        match node.state.actor {
            None => Some(CompileError::NoActor { node: node.id }),
            Some(player) => if player >= hands.len() {
                Some(CompileError::PlayerOutside { node: node.id, player })
            } else {
                None
            },
        }
    } else {
        copy_problem(tree, at, hands, payoff)
    }
}

/// Ranks by which every edge of the tree goes down, where it has such.
pub open spec fn tree_ranks(tree: GameTree) -> Seq<nat> {
    choose|ranks: Seq<nat>| #[trigger] ranked(tree_graph(tree), ranks)
}

/// Every edge of the tree goes down.
pub open spec fn descends(tree: GameTree) -> bool {
    ranked(tree_graph(tree), tree_ranks(tree))
}

/// What keeps the tree below `at` from being copied: the first problem that a walk
/// meets that goes depth first, child by child.
pub open spec fn copy_failure<P: MultiwayTerminalPayoff>(
    tree: GameTree,
    at: usize,
    hands: Seq<Combo>,
    payoff: P,
) -> Option<CompileError>
    decreases
            tree_ranks(tree)[at as int],
            copy_targets(tree.nodes@[at as int], hands_mask(hands)).len() + 1,
{
    match entry_problem(tree, at, hands, payoff) {
        Some(error) => Some(error),
        None => failure_behind(tree, at, 0, hands, payoff),
    }
}

/// The first problem behind `at`, from child `from` on: the action that leads to a
/// child comes before the child itself.
pub open spec fn failure_behind<P: MultiwayTerminalPayoff>(
    tree: GameTree,
    at: usize,
    from: nat,
    hands: Seq<Combo>,
    payoff: P,
) -> Option<CompileError>
    decreases
            tree_ranks(tree)[at as int],
            copy_targets(tree.nodes@[at as int], hands_mask(hands)).len() - from,
{
    let node = tree.nodes@[at as int];
    let targets = copy_targets(node, hands_mask(hands));
    let decides = node.chance is None && node.leaf is None;
    if from >= targets.len() {
        if decides && targets.len() == 0 {
            Some(CompileError::NoActions { node: node.id })
        } else {
            None
        }
    } else if decides && edge_error(tree, node, from as int) is Some {
        edge_error(tree, node, from as int)
    } else {
        let child = targets[from as int];
        let below = if tree_ranks(tree)[child as int] < tree_ranks(tree)[at as int] {
            copy_failure(tree, child, hands, payoff)
        } else {
            None
        };
        match below {
            Some(error) => Some(error),
            None => failure_behind(tree, at, from + 1, hands, payoff),
        }
    }
}

/// Copying the tree below `at` fails with `error`.
pub open spec fn copy_fails<P: MultiwayTerminalPayoff>(
    tree: GameTree,
    at: usize,
    hands: Seq<Combo>,
    payoff: P,
    error: CompileError,
) -> bool {
    copy_failure(tree, at, hands, payoff) == Some(error)
}

/// Whatever keeps the tree from being copied is the problem of a node that the copy
/// leads to.
pub proof fn lemma_failure_has_a_node<P: MultiwayTerminalPayoff>(
    tree: GameTree,
    at: usize,
    hands: Seq<Combo>,
    payoff: P,
) -> (x: usize)
    requires
        tree_in_order(tree),
        at < tree.nodes@.len(),
        copy_failure(tree, at, hands, payoff) is Some,
    ensures
        leads(copy_graph(tree, hands_mask(hands)), at, x),
        copy_problem(tree, x, hands, payoff) == copy_failure(tree, at, hands, payoff),
    decreases
            tree_ranks(tree)[at as int],
            copy_targets(tree.nodes@[at as int], hands_mask(hands)).len() + 1,
{
    if entry_problem(tree, at, hands, payoff) is Some {
        lemma_leads_self(copy_graph(tree, hands_mask(hands)), at);
        at
    } else {
        lemma_failure_behind_has_a_node(tree, at, 0, hands, payoff)
    }
}

proof fn lemma_failure_behind_has_a_node<P: MultiwayTerminalPayoff>(
    tree: GameTree,
    at: usize,
    from: nat,
    hands: Seq<Combo>,
    payoff: P,
) -> (x: usize)
    requires
        tree_in_order(tree),
        at < tree.nodes@.len(),
        entry_problem(tree, at, hands, payoff) is None,
        failure_behind(tree, at, from, hands, payoff) is Some,
        label_error(tree, tree.nodes@[at as int], 0) == label_error(
            tree,
            tree.nodes@[at as int],
            from as int,
        ) || tree.nodes@[at as int].chance is Some || tree.nodes@[at as int].leaf is Some,
    ensures
        leads(copy_graph(tree, hands_mask(hands)), at, x),
        copy_problem(tree, x, hands, payoff) == failure_behind(tree, at, from, hands, payoff),
    decreases
            tree_ranks(tree)[at as int],
            copy_targets(tree.nodes@[at as int], hands_mask(hands)).len() - from,
{
    let graph = copy_graph(tree, hands_mask(hands));
    let node = tree.nodes@[at as int];
    let targets = copy_targets(node, hands_mask(hands));
    let decides = node.chance is None && node.leaf is None;
    if from >= targets.len() || decides && edge_error(tree, node, from as int) is Some {
        lemma_leads_self(graph, at);
        at
    } else {
        let child = targets[from as int];
        if tree_ranks(tree)[child as int] < tree_ranks(tree)[at as int] && copy_failure(
            tree,
            child,
            hands,
            payoff,
        ) is Some {
            lemma_targets_are_children(tree, at, hands_mask(hands), from as int);
            let x = lemma_failure_has_a_node(tree, child, hands, payoff);
            assert(graph[at as int][from as int] == child);
            lemma_leads_front(graph, at, from as int, x);
            x
        } else {
            lemma_failure_behind_has_a_node(tree, at, from + 1, hands, payoff)
        }
    }
}

/// A child that can be copied is passed.
proof fn lemma_child_passes<P: MultiwayTerminalPayoff>(
    tree: GameTree,
    at: usize,
    k: nat,
    hands: Seq<Combo>,
    payoff: P,
)
    requires
        tree_in_order(tree),
        at < tree.nodes@.len(),
        k < copy_targets(tree.nodes@[at as int], hands_mask(hands)).len(),
        tree.nodes@[at as int].chance is Some || tree.nodes@[at as int].leaf is Some || edge_error(
            tree,
            tree.nodes@[at as int],
            k as int,
        ) is None,
        copies_cleanly(
            tree,
            copy_targets(tree.nodes@[at as int], hands_mask(hands))[k as int],
            hands,
            payoff,
        ),
    ensures
        failure_behind(tree, at, k, hands, payoff) == failure_behind(
            tree,
            at,
            k + 1,
            hands,
            payoff,
        ),
{
    let child = copy_targets(tree.nodes@[at as int], hands_mask(hands))[k as int];
    lemma_targets_are_children(tree, at, hands_mask(hands), k as int);
    if copy_failure(tree, child, hands, payoff) is Some {
        let x = lemma_failure_has_a_node(tree, child, hands, payoff);
        assert(leads(copy_graph(tree, hands_mask(hands)), child, x));
    }
}

/// A child that cannot be copied decides what the copy fails with.
proof fn lemma_fails_behind<P: MultiwayTerminalPayoff>(
    tree: GameTree,
    at: usize,
    k: nat,
    hands: Seq<Combo>,
    payoff: P,
    error: CompileError,
)
    requires
        tree_in_order(tree),
        descends(tree),
        at < tree.nodes@.len(),
        k < copy_targets(tree.nodes@[at as int], hands_mask(hands)).len(),
        tree.nodes@[at as int].chance is Some || tree.nodes@[at as int].leaf is Some || edge_error(
            tree,
            tree.nodes@[at as int],
            k as int,
        ) is None,
        entry_problem(tree, at, hands, payoff) is None,
        failure_behind(tree, at, 0, hands, payoff) == failure_behind(tree, at, k, hands, payoff),
        copy_fails(
            tree,
            copy_targets(tree.nodes@[at as int], hands_mask(hands))[k as int],
            hands,
            payoff,
            error,
        ),
    ensures
        copy_fails(tree, at, hands, payoff, error),
{
    let child = copy_targets(tree.nodes@[at as int], hands_mask(hands))[k as int];
    lemma_targets_are_children(tree, at, hands_mask(hands), k as int);
    let children = tree.nodes@[at as int].children@;
    let j = choose|j: int| 0 <= j < children.len() && children[j] == child;
    assert(tree_graph(tree)[at as int][j] == child);
}

proof fn lemma_clean_from_children<P: MultiwayTerminalPayoff>(
    tree: GameTree,
    at: usize,
    hands: Seq<Combo>,
    payoff: P,
)
    requires
        at < tree.nodes@.len(),
        copy_problem(tree, at, hands, payoff) is None,
        forall|k: int|
            0 <= k < copy_targets(tree.nodes@[at as int], hands_mask(hands)).len()
                ==> copies_cleanly(
                tree,
                #[trigger] copy_targets(tree.nodes@[at as int], hands_mask(hands))[k],
                hands,
                payoff,
            ),
    ensures
        copies_cleanly(tree, at, hands, payoff),
{
    let graph = copy_graph(tree, hands_mask(hands));
    assert forall|x: usize| #[trigger] leads(graph, at, x) implies copy_problem(
        tree,
        x,
        hands,
        payoff,
    ) is None by {
        if x != at {
            let k = lemma_leads_step(graph, at, x);
            let next = copy_targets(tree.nodes@[at as int], hands_mask(hands))[k];
            assert(graph[at as int][k] == next);
            assert(copies_cleanly(tree, next, hands, payoff));
        }
    }
}

proof fn lemma_allowed(
    outcomes: Seq<ChanceOutcome>,
    children: Seq<usize>,
    mask: u64,
    count: int,
)
    requires
        0 <= count <= outcomes.len(),
        outcomes.len() == children.len(),
    ensures
        forall|k: int|
            0 <= k < allowed_outcomes(outcomes, children, mask, count).len() ==> children.contains(
                (#[trigger] allowed_outcomes(outcomes, children, mask, count)[k]).1,
            ),
    decreases count,
{
    if count > 0 {
        lemma_allowed(outcomes, children, mask, count - 1);
        let rest = allowed_outcomes(outcomes, children, mask, count - 1);
        let all = allowed_outcomes(outcomes, children, mask, count);
        assert forall|k: int| 0 <= k < all.len() implies children.contains(
            (#[trigger] all[k]).1,
        ) by {
            if k < rest.len() {
                assert(children.contains(rest[k].1));
            } else {
                assert(children[count - 1] == all[k].1);
            }
        }
    }
}

/// Every target of a copy is a child.
proof fn lemma_targets_are_children(tree: GameTree, at: usize, mask: u64, k: int)
    requires
        tree_in_order(tree),
        at < tree.nodes@.len(),
        0 <= k < copy_targets(tree.nodes@[at as int], mask).len(),
    ensures
        tree.nodes@[at as int].children@.contains(copy_targets(tree.nodes@[at as int], mask)[k]),
        copy_targets(tree.nodes@[at as int], mask)[k] < tree.nodes@.len(),
{
    let node = tree.nodes@[at as int];
    let target = copy_targets(node, mask)[k];
    if node.chance is Some {
        let outcomes = node.chance->Some_0.outcomes@;
        lemma_allowed(outcomes, node.children@, mask, outcomes.len() as int);
        assert(target == open_outcomes(node, mask)[k].1);
    } else {
        assert(node.children@[k] == target);
    }
    let j = choose|j: int| 0 <= j < node.children@.len() && node.children@[j] == target;
    assert(node.children@[j] < tree.nodes@.len());
}

/// The possible outcomes of a chance node.
pub fn list_open_outcomes(node: &TreeNode, outcomes: &Vec<ChanceOutcome>, mask: u64) -> (result: Result<
    Vec<(u64, usize)>,
    CardError,
>)
    requires
        node.chance matches Some(chance) && chance.outcomes == outcomes,
        outcomes@.len() == node.children@.len(),
    ensures
        match result {
            Ok(open) => outcome_card_error(outcomes@, 0) is None && open@ == open_outcomes(
                *node,
                mask,
            ),
            Err(error) => outcome_card_error(outcomes@, 0) == Some(error),
        },
{
    let mut open: Vec<(u64, usize)> = Vec::new();
    let mut index: usize = 0;
    while index < outcomes.len()
        invariant
            index <= outcomes@.len(),
            outcomes@.len() == node.children@.len(),
            outcome_card_error(outcomes@, 0) == outcome_card_error(outcomes@, index as int),
            open@ == allowed_outcomes(outcomes@, node.children@, mask, index as int),
        decreases outcomes.len() - index,
    {
        let outcome_mask = match mask_from_cards(outcomes[index].cards.as_slice()) {
            Ok(outcome_mask) => outcome_mask,
            Err(error) => {
                return Err(error);
            },
        };
        if outcome_mask & mask == 0 {
            open.push((outcomes[index].probability, node.children[index]));
        }
        index = index + 1;
    }
    Ok(open)
}

fn contains_action(actions: &Vec<Action>, action: Action) -> (found: bool)
    ensures
        found == actions@.contains(action),
{
    let mut index: usize = 0;
    while index < actions.len()
        invariant
            index <= actions@.len(),
            forall|i: int| 0 <= i < index ==> actions@[i] != action,
        decreases actions.len() - index,
    {
        if actions[index] == action {
            assert(actions@[index as int] == action);
            return true;
        }
        index = index + 1;
    }
    false
}

/// A copy of `hands`.
pub fn copy_hands(hands: &Vec<Combo>) -> (copy: Vec<Combo>)
    ensures
        copy@ == hands@,
{
    let copy = hands.clone();
    assert(copy@ =~= hands@);
    copy
}

impl Draft {
    /// Reserves the next position for a copy of `target`.
    fn reserve(&mut self, target: usize, hands: &Vec<Combo>) -> (at: usize)
        requires
            old(self).wf(),
        ensures
            final(self).wf(),
            at == old(self).nodes@.len(),
            final(self).nodes@.len() == at + 1,
            kept_from(*old(self), *final(self), 0),
            is_copy(*final(self), at as int, target, hands@),
            final(self).actions@[at as int]@.len() == 0,
            final(self).infosets == old(self).infosets,
            !(final(self).nodes@[at as int] is Decision),
            numbered_in_order(*old(self)) ==> numbered_in_order(*final(self)),
    {
        let ghost before = *self;
        let at = self.nodes.len();
        self.nodes.push(MultiwayGameNode::Terminal { utility: Vec::new() });
        self.actions.push(Vec::new());
        self.tree_node_ids.push(Some(target));
        self.private_hands.push(Some(copy_hands(hands)));
        self.ends = Ghost(self.ends@.push(0));
        proof {
            if numbered_in_order(before) {
                lemma_numbering_kept(before, *self);
            }
        }
        at
    }

    /// Fills a reserved position.
    fn settle_node(&mut self, at: usize, node: MultiwayGameNode, Ghost(end): Ghost<int>)
        requires
            old(self).wf(),
            at < old(self).nodes@.len(),
        ensures
            final(self).wf(),
            final(self).nodes@.len() == old(self).nodes@.len(),
            kept_from(*old(self), *final(self), at as int + 1),
            final(self).nodes@ == old(self).nodes@.update(at as int, node),
            final(self).actions == old(self).actions,
            final(self).tree_node_ids == old(self).tree_node_ids,
            final(self).private_hands == old(self).private_hands,
            final(self).infosets == old(self).infosets,
            final(self).ends@ == old(self).ends@.update(at as int, end),
            numbered_in_order(*old(self)) && !(node is Decision) && !(old(
                self,
            ).nodes@[at as int] is Decision) ==> numbered_in_order(*final(self)),
    {
        let ghost before = *self;
        self.nodes[at] = node;
        self.ends = Ghost(self.ends@.update(at as int, end));
        assert(self.nodes@ =~= old(self).nodes@.update(at as int, node));
        proof {
            if numbered_in_order(before) && !(node is Decision) && !(
            before.nodes@[at as int] is Decision) {
                lemma_numbering_kept(before, *self);
            }
        }
    }

    /// The information set of a decision: that of an equal key, or the next
    /// number.
    fn infoset_for(&mut self, node: usize, player: usize, hand: Combo) -> (infoset: u64)
        requires
            old(self).wf(),
        ensures
            final(self).wf(),
            kept_from(*old(self), *final(self), 0),
            final(self).nodes == old(self).nodes,
            final(self).actions == old(self).actions,
            final(self).tree_node_ids == old(self).tree_node_ids,
            final(self).private_hands == old(self).private_hands,
            final(self).ends == old(self).ends,
            ({
                let key = decision_table_key(node, player, hand);
                &&& final(self).infosets@.dom().contains(key)
                &&& final(self).infosets@[key] == infoset
                &&& if old(self).infosets@.dom().contains(key) {
                    final(self).infosets == old(self).infosets && infoset < old(
                        self,
                    ).infosets.entries@.len()
                } else {
                    &&& infoset == old(self).infosets.entries@.len()
                    &&& final(self).infosets@ == old(self).infosets@.insert(key, infoset)
                    &&& final(self).infosets.entries@.len() == old(self).infosets.entries@.len() + 1
                }
            }),
    {
        let key = Key {
            major: node as u64,
            middle: player as u64,
            minor: 256 * hand.first as u64 + hand.second as u64,
        };
        match self.infosets.find(key) {
            Place::Found(index) => self.infosets.entries[index].1,
            Place::Missing(index) => {
                let next = self.infosets.entries.len() as u64;
                let ghost before = self.infosets.entries@;
                self.infosets.insert_at(index, key, next);
                proof {
                    let after = self.infosets.entries@;
                    assert forall|i: int| 0 <= i < after.len() implies (#[trigger] after[i]).1
                        < after.len() by {
                        if i < index {
                            assert(after[i] == before[i]);
                        } else if i > index {
                            assert(after[i] == before[i - 1]);
                        }
                    }
                    assert forall|i: int, j: int| 0 <= i < j < after.len() implies (
                    #[trigger] after[i]).1 != (#[trigger] after[j]).1 by {
                        let x = if i < index { i } else { i - 1 };
                        let y = if j < index { j } else { j - 1 };
                        if i != index {
                            assert(after[i] == before[x]);
                        }
                        if j != index {
                            assert(after[j] == before[y]);
                        }
                    }
                }
                next
            },
        }
    }
}

/// What appending a copy does to a draft.
pub open spec fn appended<P: MultiwayTerminalPayoff>(
    before: Draft,
    after: Draft,
    tree: GameTree,
    target: usize,
    hands: Seq<Combo>,
    payoff: P,
) -> bool {
    let at = before.nodes@.len() as int;
    &&& after.wf()
    &&& at < after.nodes@.len()
    &&& kept_from(before, after, 0)
    &&& is_copy(after, at, target, hands)
    &&& after.ends@[at] == after.nodes@.len()
    &&& forall|j: int|
        at <= j < after.nodes@.len() ==> #[trigger] copied(after, tree, j, hands, payoff)
    &&& numbered_in_order(before) ==> numbered_in_order(after)
}

/// The new nodes of `after` behind `at` stay copies, and the ids so far stay in
/// place, when the copy of one more target is appended.
proof fn lemma_child_appended<P: MultiwayTerminalPayoff>(
    reserved: Draft,
    before: Draft,
    after: Draft,
    tree: GameTree,
    at: int,
    ids: Seq<usize>,
    targets: Seq<usize>,
    hands: Seq<Combo>,
    payoff: P,
)
    requires
        0 <= at,
        reserved.nodes@.len() == at + 1,
        kept_from(reserved, before, 0),
        before.wf(),
        at < before.nodes@.len(),
        ids.len() < targets.len(),
        children_so_far(before, tree, at, ids, targets, hands, payoff),
        appended(before, after, tree, targets[ids.len() as int], hands, payoff),
        before.nodes@.len() <= usize::MAX,
    ensures
        kept_from(reserved, after, 0),
        children_so_far(
            after,
            tree,
            at,
            ids.push(before.nodes@.len() as usize),
            targets,
            hands,
            payoff,
        ),
{
    lemma_kept_trans(reserved, before, after, 0);
    let new = before.nodes@.len() as usize;
    let more = ids.push(new);
    assert forall|j: int| at < j < after.nodes@.len() implies #[trigger] copied(
        after,
        tree,
        j,
        hands,
        payoff,
    ) by {
        if j < before.nodes@.len() {
            assert(copied(before, tree, j, hands, payoff));
            assert(kept_from(before, after, j));
            lemma_copied_kept(before, after, tree, j, hands, payoff);
        }
    }
    assert forall|k: int| 0 <= k < more.len() implies is_copy(
        after,
        (#[trigger] more[k]) as int,
        targets[k],
        hands,
    ) && at < more[k] by {
        if k < ids.len() {
            assert(is_copy(before, ids[k] as int, targets[k], hands));
            assert(kept_at(before, after, ids[k] as int));
        }
    }
    assert forall|k: int| 0 < k < more.len() implies #[trigger] more[k] == after.ends@[more[k - 1]
        as int] by {
        assert(is_copy(before, ids[k - 1] as int, targets[k - 1], hands));
        assert(kept_at(before, after, ids[k - 1] as int));
        if k == ids.len() {
            assert(before.ends@[ids.last() as int] == before.nodes@.len());
        } else {
            assert(ids[k] == before.ends@[ids[k - 1] as int]);
        }
    }
}

/// The copies of the first targets stand behind `at`, in order and without a
/// gap, and nothing else does.
pub open spec fn children_so_far<P: MultiwayTerminalPayoff>(
    draft: Draft,
    tree: GameTree,
    at: int,
    ids: Seq<usize>,
    targets: Seq<usize>,
    hands: Seq<Combo>,
    payoff: P,
) -> bool {
    &&& draft.wf()
    &&& ids.len() <= targets.len()
    &&& ids.len() == 0 ==> draft.nodes@.len() == at + 1
    &&& ids.len() > 0 ==> ids[0] == at + 1 && draft.ends@[ids.last() as int] == draft.nodes@.len()
    &&& forall|k: int|
        0 <= k < ids.len() ==> is_copy(draft, (#[trigger] ids[k]) as int, targets[k], hands) && at
            < ids[k]
    &&& forall|k: int| 0 < k < ids.len() ==> #[trigger] ids[k] == draft.ends@[ids[k - 1] as int]
    &&& forall|j: int|
        at < j < draft.nodes@.len() ==> #[trigger] copied(draft, tree, j, hands, payoff)
}

/// Filling the reserved position completes the copy.
proof fn lemma_node_settled<P: MultiwayTerminalPayoff>(
    origin: Draft,
    before: Draft,
    after: Draft,
    tree: GameTree,
    target: usize,
    hands: Seq<Combo>,
    payoff: P,
)
    requires
        origin.wf(),
        before.wf(),
        after.wf(),
        origin.nodes@.len() < before.nodes@.len(),
        before.nodes@.len() == after.nodes@.len(),
        kept_from(origin, before, 0),
        kept_from(before, after, origin.nodes@.len() as int + 1),
        forall|i: int| 0 <= i < origin.nodes@.len() ==> #[trigger] kept_at(before, after, i),
        after.tree_node_ids == before.tree_node_ids,
        after.private_hands == before.private_hands,
        is_copy(before, origin.nodes@.len() as int, target, hands),
        after.ends@[origin.nodes@.len() as int] == after.nodes@.len(),
        forall|j: int|
            origin.nodes@.len() < j < before.nodes@.len() ==> #[trigger] copied(
                before,
                tree,
                j,
                hands,
                payoff,
            ),
        copied(after, tree, origin.nodes@.len() as int, hands, payoff),
        numbered_in_order(origin) ==> numbered_in_order(after),
    ensures
        appended(origin, after, tree, target, hands, payoff),
{
    let at = origin.nodes@.len() as int;
    assert forall|i: int| 0 <= i < origin.nodes@.len() implies #[trigger] kept_at(
        origin,
        after,
        i,
    ) by {
        assert(kept_at(origin, before, i) && kept_at(before, after, i));
    }
    assert(kept_from(origin, after, 0)) by {
        assert forall|key: Key| #[trigger] origin.infosets@.dom().contains(key) implies
            after.infosets@.dom().contains(key) && after.infosets@[key]
            == origin.infosets@[key] by {
            assert(before.infosets@.dom().contains(key));
        }
    }
    assert forall|j: int| at <= j < after.nodes@.len() implies #[trigger] copied(
        after,
        tree,
        j,
        hands,
        payoff,
    ) by {
        if j > at {
            assert(copied(before, tree, j, hands, payoff));
            assert(kept_from(before, after, j));
            lemma_copied_kept(before, after, tree, j, hands, payoff);
        }
    }
}

/// Appends the copy of the tree below `target` for `hands`.
pub(crate) fn append_node<P: MultiwayTerminalPayoff>(
    tree: &GameTree,
    target: usize,
    hands: &Vec<Combo>,
    payoff: &P,
    draft: &mut Draft,
) -> (result: Result<usize, CompileError>)
    requires
        tree_in_order(*tree),
        descends(*tree),
        target < tree.nodes@.len(),
        all_valid(hands@),
        old(draft).wf(),
    ensures
        match result {
            Ok(at) => {
                &&& at == old(draft).nodes@.len()
                &&& appended(*old(draft), *final(draft), *tree, target, hands@, *payoff)
                &&& copies_cleanly(*tree, target, hands@, *payoff)
            },
            Err(error) => copy_fails(*tree, target, hands@, *payoff, error),
        },
    decreases tree_ranks(*tree)[target as int], 1int,
{
    let node = &tree.nodes[target];
    assert(tree.nodes@[target as int].id == target);
    let mask = mask_of_hands(hands);
    let board_mask = match mask_from_cards(node.state.board.as_slice()) {
        Ok(board_mask) => board_mask,
        Err(error) => {
            return Err(CompileError::Cards(error));
        },
    };
    if mask & board_mask != 0 {
        return Err(CompileError::BoardConflict { node: node.id });
    }
    if node.chance.is_some() {
        append_chance(tree, target, hands, payoff, draft, mask)
    } else if node.leaf.is_some() {
        append_leaf(tree, target, hands, payoff, draft, mask)
    } else {
        append_decision(tree, target, hands, payoff, draft, mask)
    }
}

/// The board of `target` is a set of cards that nobody holds.
pub open spec fn board_free(tree: GameTree, target: usize, hands: Seq<Combo>) -> bool {
    &&& first_card_error(tree.nodes@[target as int].state.board@, 0) is None
    &&& hands_mask(hands) & cards_mask(tree.nodes@[target as int].state.board@) == 0
}

fn append_leaf<P: MultiwayTerminalPayoff>(
    tree: &GameTree,
    target: usize,
    hands: &Vec<Combo>,
    payoff: &P,
    draft: &mut Draft,
    mask: u64,
) -> (result: Result<usize, CompileError>)
    requires
        tree_in_order(*tree),
        target < tree.nodes@.len(),
        all_valid(hands@),
        old(draft).wf(),
        mask == hands_mask(hands@),
        board_free(*tree, target, hands@),
        tree.nodes@[target as int].chance is None,
        tree.nodes@[target as int].leaf is Some,
    ensures
        match result {
            Ok(at) => {
                &&& at == old(draft).nodes@.len()
                &&& appended(*old(draft), *final(draft), *tree, target, hands@, *payoff)
                &&& copies_cleanly(*tree, target, hands@, *payoff)
            },
            Err(error) => copy_fails(*tree, target, hands@, *payoff, error),
        },
{
    let node = &tree.nodes[target];
    assert(tree.nodes@[target as int].id == target);
    let ghost origin = *draft;
    if let Some(LeafKind::RoundComplete) = node.leaf {
        return Err(CompileError::RoundComplete { node: node.id });
    }
    let at = draft.reserve(target, hands);
    let utility = match payoff.utility(node) {
        Ok(utility) => utility,
        Err(error) => {
            return Err(CompileError::Payoff(error));
        },
    };
    let ghost before = *draft;
    draft.settle_node(at, MultiwayGameNode::Terminal { utility }, Ghost(at as int + 1));
    proof {
        assert(copied(*draft, *tree, at as int, hands@, *payoff));
        lemma_node_settled(origin, before, *draft, *tree, target, hands@, *payoff);
        lemma_clean_from_children(*tree, target, hands@, *payoff);
    }
    Ok(at)
}

fn append_chance<P: MultiwayTerminalPayoff>(
    tree: &GameTree,
    target: usize,
    hands: &Vec<Combo>,
    payoff: &P,
    draft: &mut Draft,
    mask: u64,
) -> (result: Result<usize, CompileError>)
    requires
        tree_in_order(*tree),
        descends(*tree),
        target < tree.nodes@.len(),
        all_valid(hands@),
        old(draft).wf(),
        mask == hands_mask(hands@),
        board_free(*tree, target, hands@),
        tree.nodes@[target as int].chance is Some,
    ensures
        match result {
            Ok(at) => {
                &&& at == old(draft).nodes@.len()
                &&& appended(*old(draft), *final(draft), *tree, target, hands@, *payoff)
                &&& copies_cleanly(*tree, target, hands@, *payoff)
            },
            Err(error) => copy_fails(*tree, target, hands@, *payoff, error),
        },
    decreases tree_ranks(*tree)[target as int], 0int,
{
    let node = &tree.nodes[target];
    assert(tree.nodes@[target as int].id == target);
    let ghost origin = *draft;
    let at = draft.reserve(target, hands);
    let ghost reserved = *draft;
    let chance = match &node.chance {
        Some(chance) => chance,
        None => {
            return Ok(at);
        },
    };
    let open = match list_open_outcomes(node, &chance.outcomes, mask) {
        Ok(open) => open,
        Err(error) => {
            return Err(CompileError::Cards(error));
        },
    };
    if open.len() == 0 {
        return Err(CompileError::NoLegalOutcomes { node: node.id });
    }
    let ghost targets = copy_targets(*node, mask);
    let ghost mut ids: Seq<usize> = Seq::empty();
    let mut outcomes: Vec<(u64, usize)> = Vec::new();
    let mut index: usize = 0;
    assert(copy_problem(*tree, target, hands@, *payoff) is None);
    while index < open.len()
        invariant
            index <= open@.len(),
            tree_in_order(*tree),
            descends(*tree),
            target < tree.nodes@.len(),
            *node == tree.nodes@[target as int],
            node.chance is Some,
            all_valid(hands@),
            mask == hands_mask(hands@),
            open@ == open_outcomes(*node, mask),
            targets == copy_targets(*node, mask),
            at == reserved.nodes@.len() - 1,
            at == origin.nodes@.len(),
            draft.wf(),
            kept_from(origin, reserved, 0),
            kept_from(reserved, *draft, 0),
            !(reserved.nodes@[at as int] is Decision),
            numbered_in_order(origin) ==> numbered_in_order(*draft),
            at < draft.nodes@.len(),
            ids.len() == index,
            outcomes@.len() == index,
            forall|k: int|
                0 <= k < index ==> (#[trigger] outcomes@[k]).0 == open@[k].0 && outcomes@[k].1
                    == ids[k],
            children_so_far(*draft, *tree, at as int, ids, targets, hands@, *payoff),
            forall|k: int|
                0 <= k < index ==> copies_cleanly(*tree, #[trigger] targets[k], hands@, *payoff),
            entry_problem(*tree, target, hands@, *payoff) is None,
            failure_behind(*tree, target, 0, hands@, *payoff) == failure_behind(
                *tree,
                target,
                index as nat,
                hands@,
                *payoff,
            ),
        decreases open.len() - index,
    {
        let (probability, child) = open[index];
        assert(targets[index as int] == child);
        proof {
            lemma_targets_are_children(*tree, target, mask, index as int);
            let j = choose|j: int| 0 <= j < node.children@.len() && node.children@[j] == child;
            assert(tree_graph(*tree)[target as int][j] == child);
        }
        let ghost before = *draft;
        match append_node(tree, child, hands, payoff, draft) {
            Err(error) => {
                proof {
                    lemma_fails_behind(*tree, target, index as nat, hands@, *payoff, error);
                }
                return Err(error);
            },
            Ok(id) => {
                proof {
                    lemma_child_appended(
                        reserved,
                        before,
                        *draft,
                        *tree,
                        at as int,
                        ids,
                        targets,
                        hands@,
                        *payoff,
                    );
                    lemma_child_passes(*tree, target, index as nat, hands@, *payoff);
                    ids = ids.push(id);
                }
                outcomes.push((probability, id));
            },
        }
        index = index + 1;
    }
    let ghost before = *draft;
    let ghost end = draft.nodes@.len() as int;
    let ghost filled = outcomes@;
    draft.settle_node(at, MultiwayGameNode::Chance { outcomes }, Ghost(end));
    proof {
        assert(filled.map(|i: int, outcome: (u64, usize)| outcome.1) =~= ids);
        assert(kept_at(reserved, before, at as int));
        assert(is_copy(before, at as int, target, hands@));
        assert(laid_out(*draft, at as int, ids)) by {
            assert forall|k: int| 0 <= k < ids.len() implies at < (#[trigger] ids[k])
                < draft.nodes@.len() by {
                assert(is_copy(before, ids[k] as int, targets[k], hands@));
            }
            assert forall|k: int| 0 < k < ids.len() implies #[trigger] ids[k]
                == draft.ends@[ids[k - 1] as int] by {
                assert(is_copy(before, ids[k - 1] as int, targets[k - 1], hands@));
            }
            assert(is_copy(before, ids[ids.len() - 1] as int, targets[ids.len() - 1], hands@));
        }
        assert(copies_of(*draft, ids, targets, hands@)) by {
            assert forall|k: int| 0 <= k < ids.len() implies is_copy(
                *draft,
                (#[trigger] ids[k]) as int,
                targets[k],
                hands@,
            ) by {
                assert(is_copy(before, ids[k] as int, targets[k], hands@));
            }
        }
        assert(copied(*draft, *tree, at as int, hands@, *payoff));
        lemma_kept_trans(origin, reserved, before, 0);
        lemma_node_settled(origin, before, *draft, *tree, target, hands@, *payoff);
        lemma_clean_from_children(*tree, target, hands@, *payoff);
    }
    Ok(at)
}

fn append_decision<P: MultiwayTerminalPayoff>(
    tree: &GameTree,
    target: usize,
    hands: &Vec<Combo>,
    payoff: &P,
    draft: &mut Draft,
    mask: u64,
) -> (result: Result<usize, CompileError>)
    requires
        tree_in_order(*tree),
        descends(*tree),
        target < tree.nodes@.len(),
        all_valid(hands@),
        old(draft).wf(),
        mask == hands_mask(hands@),
        board_free(*tree, target, hands@),
        tree.nodes@[target as int].chance is None,
        tree.nodes@[target as int].leaf is None,
    ensures
        match result {
            Ok(at) => {
                &&& at == old(draft).nodes@.len()
                &&& appended(*old(draft), *final(draft), *tree, target, hands@, *payoff)
                &&& copies_cleanly(*tree, target, hands@, *payoff)
            },
            Err(error) => copy_fails(*tree, target, hands@, *payoff, error),
        },
    decreases tree_ranks(*tree)[target as int], 0int,
{
    let node = &tree.nodes[target];
    assert(tree.nodes@[target as int].id == target);
    let ghost origin = *draft;
    let player = match node.state.actor {
        None => {
            return Err(CompileError::NoActor { node: node.id });
        },
        Some(player) => player,
    };
    if player >= hands.len() {
        return Err(CompileError::PlayerOutside { node: node.id, player });
    }
    let at = draft.reserve(target, hands);
    let ghost reserved = *draft;
    let ghost targets = copy_targets(*node, mask);
    let mut ids: Vec<usize> = Vec::new();
    let mut labels: Vec<Action> = Vec::new();
    let mut index: usize = 0;
    while index < node.children.len()
        invariant
            index <= node.children@.len(),
            tree_in_order(*tree),
            descends(*tree),
            target < tree.nodes@.len(),
            *node == tree.nodes@[target as int],
            node.chance is None,
            node.leaf is None,
            node.state.actor == Some(player),
            player < hands@.len(),
            all_valid(hands@),
            mask == hands_mask(hands@),
            board_free(*tree, target, hands@),
            targets == copy_targets(*node, mask),
            targets == node.children@,
            at == reserved.nodes@.len() - 1,
            at == origin.nodes@.len(),
            draft.wf(),
            kept_from(origin, reserved, 0),
            kept_from(reserved, *draft, 0),
            !(reserved.nodes@[at as int] is Decision),
            numbered_in_order(origin) ==> numbered_in_order(*draft),
            at < draft.nodes@.len(),
            ids@.len() == index,
            labels@.len() == index,
            forall|k: int|
                0 <= k < index ==> tree.nodes@[node.children@[k] as int].action_from_parent == Some(
                    #[trigger] labels@[k],
                ),
            label_error(*tree, *node, 0) == label_error(*tree, *node, index as int),
            children_so_far(*draft, *tree, at as int, ids@, targets, hands@, *payoff),
            forall|k: int|
                0 <= k < index ==> copies_cleanly(*tree, #[trigger] targets[k], hands@, *payoff),
            entry_problem(*tree, target, hands@, *payoff) is None,
            failure_behind(*tree, target, 0, hands@, *payoff) == failure_behind(
                *tree,
                target,
                index as nat,
                hands@,
                *payoff,
            ),
        decreases node.children.len() - index,
    {
        let child = node.children[index];
        assert(node.children@[index as int] < tree.nodes@.len());
        let action = match tree.nodes[child].action_from_parent {
            None => {
                return Err(CompileError::MissingAction { node: node.id, child });
            },
            Some(action) => action,
        };
        let repeated = contains_action(&labels, action);
        proof {
            if repeated {
                let j = choose|j: int| 0 <= j < labels@.len() && labels@[j] == action;
                assert(tree.nodes@[node.children@[j] as int].action_from_parent == Some(
                    labels@[j],
                ));
            } else {
                assert forall|j: int| 0 <= j < index implies tree.nodes@[(
                #[trigger] node.children@[j]) as int].action_from_parent != Some(action) by {
                    assert(labels@[j] != action);
                }
            }
        }
        if repeated {
            return Err(CompileError::DuplicateAction { node: node.id, action });
        }
        proof {
            assert(tree_graph(*tree)[target as int][index as int] == child);
        }
        let ghost before = *draft;
        let ghost known = ids@;
        labels.push(action);
        match append_node(tree, child, hands, payoff, draft) {
            Err(error) => {
                proof {
                    lemma_fails_behind(*tree, target, index as nat, hands@, *payoff, error);
                }
                return Err(error);
            },
            Ok(id) => {
                proof {
                    lemma_child_appended(
                        reserved,
                        before,
                        *draft,
                        *tree,
                        at as int,
                        known,
                        targets,
                        hands@,
                        *payoff,
                    );
                    lemma_child_passes(*tree, target, index as nat, hands@, *payoff);
                }
                ids.push(id);
            },
        }
        index = index + 1;
    }
    if labels.len() == 0 {
        return Err(CompileError::NoActions { node: node.id });
    }
    let ghost grown = *draft;
    let infoset = draft.infoset_for(node.id, player, hands[player]);
    let ghost keyed = *draft;
    let ghost given = ids@;
    let ghost end = draft.nodes@.len() as int;
    draft.settle_node(
        at,
        MultiwayGameNode::Decision { player, infoset, children: ids },
        Ghost(end),
    );
    draft.actions[at] = labels;
    proof {
        assert(kept_at(reserved, grown, at as int));
        assert(is_copy(grown, at as int, target, hands@));
        assert forall|j: int| at < j < keyed.nodes@.len() implies #[trigger] copied(
            keyed,
            *tree,
            j,
            hands@,
            *payoff,
        ) by {
            assert(copied(grown, *tree, j, hands@, *payoff));
            assert(kept_from(grown, keyed, j));
            lemma_copied_kept(grown, keyed, *tree, j, hands@, *payoff);
        }
        assert(laid_out(*draft, at as int, given)) by {
            assert forall|k: int| 0 <= k < given.len() implies at < (#[trigger] given[k])
                < draft.nodes@.len() by {
                assert(is_copy(grown, given[k] as int, targets[k], hands@));
            }
            assert forall|k: int| 0 < k < given.len() implies #[trigger] given[k]
                == draft.ends@[given[k - 1] as int] by {
                assert(is_copy(grown, given[k - 1] as int, targets[k - 1], hands@));
            }
            assert(is_copy(
                grown,
                given[given.len() - 1] as int,
                targets[given.len() - 1],
                hands@,
            ));
        }
        assert(copies_of(*draft, given, targets, hands@)) by {
            assert forall|k: int| 0 <= k < given.len() implies is_copy(
                *draft,
                (#[trigger] given[k]) as int,
                targets[k],
                hands@,
            ) by {
                assert(is_copy(grown, given[k] as int, targets[k], hands@));
            }
        }
        assert(labels_of(*tree, *node, draft.actions@[at as int]@));
        assert(copied(*draft, *tree, at as int, hands@, *payoff));
        lemma_kept_trans(origin, reserved, grown, 0);
        lemma_kept_trans(origin, grown, keyed, 0);
        if numbered_in_order(origin) {
            lemma_numbering_grows(origin, grown, keyed, *draft, infoset);
        }
        lemma_node_settled(origin, keyed, *draft, *tree, target, hands@, *payoff);
        assert(copy_problem(*tree, target, hands@, *payoff) is None);
        lemma_clean_from_children(*tree, target, hands@, *payoff);
    }
    Ok(at)
}

} // verus!
