//! The shape of a public tree: where a state leads, how a node was reached, and
//! which nodes are of which kind.
use vstd::prelude::*;

use crate::domain::{Action, GameState, TerminalState};
use crate::laws::board::board_size;
use crate::laws::picks::{lemma_pick, picks};
use crate::tree::{
    history_within, ChanceOutcome, GameTree, LeafKind, TreeError, TreeNode,
};
use crate::tree_builder::{
    actions_taken, arrival_of, child_added, outcomes_taken, settled, top_step, Arrival, BuildStep,
    Frame, TreeBuilder,
};

verus! {

/// A hand that is over is a leaf with its own end; somebody's turn is a decision;
/// the end of a round is a leaf of a round tree, and in a tree over all streets a
/// showdown after the river and cards before it.
pub proof fn lemma_arrivals(state: GameState, full: bool)
    ensures
        arrival_of(state, full) == Arrival::Decision <==> state.terminal is None && state.actor
            is Some,
        state.terminal matches Some(end) ==> arrival_of(state, full) == Arrival::Leaf(
            LeafKind::Terminal(end),
        ),
        arrival_of(state, full) == Arrival::Leaf(LeafKind::RoundComplete) <==> !full
            && state.terminal is None && state.actor is None,
        arrival_of(state, full) is Deal <==> full && state.terminal is None && state.actor is None
            && board_size(state.street) < 5,
        arrival_of(state, full) matches Arrival::Deal(next) ==> {
            &&& board_size(state.street) == 0 ==> board_size(next) == 3
            &&& board_size(state.street) > 0 ==> board_size(next) == board_size(state.street) + 1
        },
        full && state.terminal is None && state.actor is None && board_size(state.street) == 5
            ==> arrival_of(state, full) == Arrival::Leaf(
            LeafKind::Terminal(TerminalState::Showdown),
        ),
{
}

/// The frames that stay are those up to the innermost one that misses a child; every
/// frame that goes has all its children.
pub proof fn lemma_open_frames(stack: Seq<Frame>)
    ensures
        settled(stack).len() <= stack.len(),
        settled(stack) == stack.take(settled(stack).len() as int),
        settled(stack).len() > 0 ==> settled(stack).last().next < settled(stack).last().count,
        forall|s: int|
            settled(stack).len() <= s < stack.len() ==> (#[trigger] stack[s]).next
                >= stack[s].count,
    decreases stack.len(),
{
    if stack.len() == 0 || stack.last().next < stack.last().count {
        assert(stack.take(stack.len() as int) =~= stack);
    } else {
        let rest = stack.drop_last();
        lemma_open_frames(rest);
        let kept = settled(rest).len() as int;
        assert(rest.take(kept) =~= stack.take(kept));
        assert forall|s: int| settled(stack).len() <= s < stack.len() implies (
        #[trigger] stack[s]).next >= stack[s].count by {
            if s < rest.len() {
                assert(rest[s] == stack[s]);
            }
        }
    }
}

/// The next step is for the innermost frame: the cards of its next outcome, or its
/// next action; with no frame left the tree is finished.
pub proof fn lemma_next_steps(stack: Seq<Frame>)
    ensures
        top_step(stack) == BuildStep::Finished <==> stack.len() == 0,
        top_step(stack) matches BuildStep::AdvanceStreet { node, outcome } ==> stack.len() > 0
            && stack.last().deals && node == stack.last().node && outcome == stack.last().next,
        top_step(stack) matches BuildStep::ApplyAction { node, action } ==> stack.len() > 0
            && !stack.last().deals && node == stack.last().node && action
            == stack.last().actions@[stack.last().next as int],
        stack.len() > 0 && stack.last().deals ==> top_step(stack) is AdvanceStreet,
        stack.len() > 0 && !stack.last().deals ==> top_step(stack) is ApplyAction,
{
}

/// Taken actions wait below their node, none of them applied yet; a decision without
/// actions is refused. The tree itself does not change.
pub proof fn lemma_taken_actions(
    before: TreeBuilder,
    after: TreeBuilder,
    actions: Vec<Action>,
    result: Result<(), TreeError>,
)
    requires
        actions_taken(before, after, actions, result),
        before.pending is Some,
    ensures
        after.tree == before.tree,
        result is Err <==> actions@.len() == 0,
        result is Err ==> after == before,
        result is Ok ==> {
            let frame = after.stack@.last();
            &&& after.stack@.len() == before.stack@.len() + 1
            &&& frame.node == before.pending->Some_0
            &&& !frame.deals
            &&& frame.next == 0
            &&& frame.count == actions@.len()
            &&& frame.actions@ == actions@
            &&& after.pending is None
        },
{
}

/// Taken outcomes stand at their node, in their order, under the street that follows;
/// no other node changes, and none of their children is there yet.
pub proof fn lemma_taken_outcomes(
    before: TreeBuilder,
    after: TreeBuilder,
    outcomes: Vec<ChanceOutcome>,
    other: int,
)
    requires
        outcomes_taken(before, after, outcomes),
        before.pending is Some,
        before.pending->Some_0 < before.tree.nodes@.len(),
        0 <= other < before.tree.nodes@.len(),
        other != before.pending->Some_0,
    ensures
        ({
            let node = before.pending->Some_0 as int;
            let was = before.tree.nodes@[node];
            let now = after.tree.nodes@[node];
            let frame = after.stack@.last();
            &&& after.tree.nodes@.len() == before.tree.nodes@.len()
            &&& after.tree.nodes@[other] == before.tree.nodes@[other]
            &&& now.chance is Some
            &&& now.chance->Some_0.outcomes@ == outcomes@
            &&& board_size(now.chance->Some_0.next_street) > board_size(was.state.street)
            &&& now.state == was.state
            &&& now.children == was.children
            &&& now.id == was.id
            &&& now.parent == was.parent
            &&& frame.node == node
            &&& frame.deals
            &&& frame.next == 0
            &&& frame.count == outcomes@.len()
        }),
{
}

/// An added child comes last in the tree and among its parent's children, with the
/// state that was given and, below a decision, the next of its actions; nothing else
/// changes. A full tree takes no child.
pub proof fn lemma_added_children(
    before: TreeBuilder,
    after: TreeBuilder,
    state: GameState,
    result: Result<usize, TreeError>,
    other: int,
)
    requires
        child_added(before, after, state, result),
        before.stack@.len() > 0,
        before.stack@.last().next < before.stack@.last().count,
        before.tree.nodes@.len() <= usize::MAX,
        0 <= other < before.tree.nodes@.len(),
        other != before.stack@.last().node,
    ensures
        result is Err <==> before.tree.nodes@.len() >= before.max_nodes,
        result is Err ==> after == before && result == Err::<usize, TreeError>(
            TreeError::NodeLimit { limit: before.max_nodes },
        ),
        result matches Ok(id) ==> {
            let frame = before.stack@.last();
            let parent = frame.node as int;
            let child = after.tree.nodes@[id as int];
            &&& id == before.tree.nodes@.len()
            &&& after.tree.nodes@.len() == id + 1
            &&& after.tree.nodes@[other] == before.tree.nodes@[other]
            &&& after.tree.nodes@[parent].children@ == before.tree.nodes@[parent].children@.push(id)
            &&& child.id == id
            &&& child.parent == Some(frame.node)
            &&& child.state == state
            &&& frame.deals ==> child.action_from_parent is None
            &&& !frame.deals ==> child.action_from_parent == Some(
                frame.actions@[frame.next as int],
            )
            &&& after.stack@.last().next == frame.next + 1
            &&& after.pending == Some(id)
        },
{
}

/// The nodes of a path that an action leads into.
pub open spec fn has_action(nodes: Seq<TreeNode>, path: Seq<usize>) -> spec_fn(int) -> bool {
    |k: int| nodes[path[k] as int].action_from_parent is Some
}

/// `path` goes by parent links from a node without parent down to `id`, and
/// `actions` are the actions on it, in order, as `origin` says.
pub open spec fn reached_by(
    nodes: Seq<TreeNode>,
    id: usize,
    actions: Seq<Action>,
    path: Seq<usize>,
    origin: Seq<int>,
) -> bool {
    &&& path.len() > 0
    &&& path.last() == id
    &&& forall|k: int| 0 <= k < path.len() ==> (#[trigger] path[k]) < nodes.len()
    &&& nodes[path[0] as int].parent is None
    &&& forall|k: int|
        0 < k < path.len() ==> nodes[(#[trigger] path[k]) as int].parent == Some(path[k - 1])
    &&& picks(origin, path.len() as int, has_action(nodes, path))
    &&& actions.len() == origin.len()
    &&& forall|m: int|
        0 <= m < actions.len() ==> Some(#[trigger] actions[m])
            == nodes[path[origin[m]] as int].action_from_parent
}

/// The history of a node is made of the actions on its way from the root, in order;
/// cards that come add none.
pub proof fn lemma_history_follows_the_path(nodes: Seq<TreeNode>, id: usize, steps: nat) -> (way: (
    Seq<usize>,
    Seq<int>,
))
    requires
        history_within(nodes, id, steps) matches Some(Ok(_)),
    ensures
        reached_by(nodes, id, history_within(nodes, id, steps)->Some_0->Ok_0, way.0, way.1),
    decreases steps,
{
    let none = Seq::<int>::empty();
    match nodes[id as int].parent {
        None => {
            let path = seq![id];
            let origin = lemma_pick(none, 0, has_action(nodes, path));
            (path, origin)
        },
        Some(parent) => {
            let (front, before) = lemma_history_follows_the_path(nodes, parent, (steps - 1) as nat);
            let path = front.push(id);
            let keep = has_action(nodes, path);
            let last = front.len() as int;
            assert(picks(before, last, keep)) by {
                let earlier = has_action(nodes, front);
                assert forall|k: int| 0 <= k < before.len() implies 0 <= #[trigger] before[k] < last
                    && keep(before[k]) by {
                    assert(earlier(before[k]));
                }
                assert forall|i: int| 0 <= i < last && #[trigger] keep(i) implies before.contains(
                    i,
                ) by {
                    assert(earlier(i));
                }
            }
            let origin = lemma_pick(before, last, keep);
            let actions = history_within(nodes, id, steps)->Some_0->Ok_0;
            let shorter = history_within(nodes, parent, (steps - 1) as nat)->Some_0->Ok_0;
            assert forall|m: int| 0 <= m < actions.len() implies Some(#[trigger] actions[m])
                == nodes[path[origin[m]] as int].action_from_parent by {
                if m < shorter.len() {
                    assert(actions[m] == shorter[m]);
                    assert(origin[m] == before[m]);
                    assert(path[origin[m]] == front[before[m]]);
                }
            }
            assert forall|k: int| 0 < k < path.len() implies nodes[(
            #[trigger] path[k]) as int].parent == Some(path[k - 1]) by {
                if k < last {
                    assert(path[k] == front[k] && path[k - 1] == front[k - 1]);
                }
            }
            (path, origin)
        },
    }
}

/// A filtered list holds what is kept, all of it and in order.
pub proof fn lemma_filtered<T>(items: Seq<T>, keep: spec_fn(T) -> bool) -> (origin: Seq<int>)
    ensures
        picks(origin, items.len() as int, |i: int| keep(items[i])),
        items.filter(keep) == origin.map_values(|i: int| items[i]),
    decreases items.len(),
{
    reveal(Seq::filter);
    let by_index = |i: int| keep(items[i]);
    if items.len() == 0 {
        let origin = Seq::<int>::empty();
        assert(items.filter(keep) =~= origin.map_values(|i: int| items[i]));
        origin
    } else {
        let rest = items.drop_last();
        let shorter = lemma_filtered(rest, keep);
        let count = items.len() - 1;
        assert(picks(shorter, count, by_index)) by {
            let earlier = |i: int| keep(rest[i]);
            assert forall|k: int| 0 <= k < shorter.len() implies 0 <= #[trigger] shorter[k] < count
                && by_index(shorter[k]) by {
                assert(earlier(shorter[k]));
            }
            assert forall|i: int| 0 <= i < count && #[trigger] by_index(i) implies shorter.contains(
                i,
            ) by {
                assert(earlier(i));
            }
        }
        let origin = lemma_pick(shorter, count, by_index);
        assert(items.filter(keep) =~= origin.map_values(|i: int| items[i])) by {
            assert(rest.filter(keep) == shorter.map_values(|i: int| rest[i]));
            assert forall|k: int| 0 <= k < shorter.len() implies shorter.map_values(
                |i: int| rest[i],
            )[k] == items[shorter[k]] by {}
        }
        origin
    }
}

pub open spec fn decides(tree: GameTree) -> spec_fn(int) -> bool {
    |i: int| tree.nodes@[i].leaf is None && tree.nodes@[i].chance is None
}

pub open spec fn deals(tree: GameTree) -> spec_fn(int) -> bool {
    |i: int| tree.nodes@[i].chance is Some
}

pub open spec fn ends(tree: GameTree) -> spec_fn(int) -> bool {
    |i: int| tree.nodes@[i].leaf is Some
}

/// The decision nodes of a tree are those without leaf mark and outcomes, all of
/// them, in order.
pub proof fn lemma_decision_nodes(tree: GameTree, found: Vec<&TreeNode>) -> (origin: Seq<int>)
    requires
        call_ensures(GameTree::decision_nodes, (&tree,), found),
    ensures
        picks(origin, tree.nodes@.len() as int, decides(tree)),
        found@.len() == origin.len(),
        forall|k: int| 0 <= k < origin.len() ==> *(#[trigger] found@[k]) == tree.nodes@[origin[k]],
{
    let keep = |node: TreeNode| crate::tree::is_decision(node);
    let origin = lemma_filtered(tree.nodes@, keep);
    lemma_same_picks(origin, tree.nodes@.len() as int, |i: int| keep(tree.nodes@[i]), decides(tree));
    origin
}

/// The chance nodes of a tree are those with outcomes, all of them, in order.
pub proof fn lemma_chance_nodes(tree: GameTree, found: Vec<&TreeNode>) -> (origin: Seq<int>)
    requires
        call_ensures(GameTree::chance_nodes, (&tree,), found),
    ensures
        picks(origin, tree.nodes@.len() as int, deals(tree)),
        found@.len() == origin.len(),
        forall|k: int| 0 <= k < origin.len() ==> *(#[trigger] found@[k]) == tree.nodes@[origin[k]],
{
    let keep = |node: TreeNode| crate::tree::is_chance(node);
    let origin = lemma_filtered(tree.nodes@, keep);
    lemma_same_picks(origin, tree.nodes@.len() as int, |i: int| keep(tree.nodes@[i]), deals(tree));
    origin
}

/// The leaves of a tree are those with a leaf mark, all of them, in order.
pub proof fn lemma_leaf_nodes(tree: GameTree, found: Vec<&TreeNode>) -> (origin: Seq<int>)
    requires
        call_ensures(GameTree::leaf_nodes, (&tree,), found),
    ensures
        picks(origin, tree.nodes@.len() as int, ends(tree)),
        found@.len() == origin.len(),
        forall|k: int| 0 <= k < origin.len() ==> *(#[trigger] found@[k]) == tree.nodes@[origin[k]],
{
    let keep = |node: TreeNode| crate::tree::is_leaf(node);
    let origin = lemma_filtered(tree.nodes@, keep);
    lemma_same_picks(origin, tree.nodes@.len() as int, |i: int| keep(tree.nodes@[i]), ends(tree));
    origin
}

proof fn lemma_same_picks(
    origin: Seq<int>,
    count: int,
    keep: spec_fn(int) -> bool,
    other: spec_fn(int) -> bool,
)
    requires
        picks(origin, count, keep),
        forall|i: int| 0 <= i < count ==> #[trigger] keep(i) == other(i),
    ensures
        picks(origin, count, other),
{
    assert forall|k: int| 0 <= k < origin.len() implies 0 <= #[trigger] origin[k] < count && other(
        origin[k],
    ) by {
        assert(keep(origin[k]));
    }
    assert forall|i: int| 0 <= i < count && #[trigger] other(i) implies origin.contains(i) by {
        assert(keep(i));
    }
}

} // verus!
