//! What the copies of a public tree keep of it, deal by deal.
use vstd::prelude::*;

use crate::arena::{public_error, public_shape_of, ArenaError};
use crate::batch::BatchError;
use crate::bits::{above_zero, finite};
use crate::cards::{
    all_cards, cards_mask, distinct, first_card_error, has_card, lemma_cards_mask,
    lemma_masks_meet, Combo,
};
use crate::compile::{
    copied, copy_problem, edge_error, label_error, open_outcomes, outcome_card_error, CompileError,
    Draft,
};
use crate::game::GameNode;
use crate::heads_up::finished_node;
use crate::holdem::{
    deals_error, draft_of_deals, first_public_problem, multiway_compile_error, public_copy,
    public_problem, rescaled, MultiwayPrivateDeal,
};
use crate::laws::outcomes::{
    held, is_free, lemma_first_fault_of_cards, lemma_open_outcomes_are_the_free_ones,
};
use crate::multiway::MultiwayGameNode;
use crate::payoff::{
    all_valid, disjoint_hands, hands_mask, lemma_hands_mask, MultiwayTerminalPayoff, PayoffError,
    TerminalPayoff,
};
use crate::stage::Stage;
use crate::tree::{GameTree, LeafKind, TreeNode};
use crate::walk::{shape_targets, Shape};

verus! {

/// The node at `at` of a draft stands for the public node `target` and these hands.
pub open spec fn stands_for(draft: Draft, at: int, target: usize, hands: Seq<Combo>) -> bool {
    &&& 0 <= at < draft.nodes@.len()
    &&& draft.tree_node_ids@[at] == Some(target)
    &&& draft.private_hands@[at] is Some
    &&& draft.private_hands@[at]->Some_0@ == hands
}

/// Where cards come, the copy leads on with the outcomes that nobody's hand meets, all
/// of them and in their order, each with its own probability and to a copy of its own
/// node for the same hands.
pub proof fn lemma_copied_chance<P: MultiwayTerminalPayoff>(
    draft: Draft,
    tree: GameTree,
    at: int,
    hands: Seq<Combo>,
    payoff: P,
) -> (origin: Seq<int>)
    requires
        copied(draft, tree, at, hands, payoff),
        all_valid(hands),
        tree.nodes@[draft.tree_node_ids@[at]->Some_0 as int].chance matches Some(chance)
            && outcome_card_error(chance.outcomes@, 0) is None && chance.outcomes@.len()
            == tree.nodes@[draft.tree_node_ids@[at]->Some_0 as int].children@.len(),
    ensures
        ({
            let node = tree.nodes@[draft.tree_node_ids@[at]->Some_0 as int];
            let outcomes = node.chance->Some_0.outcomes@;
            &&& draft.nodes@[at] matches MultiwayGameNode::Chance { outcomes: listed }
            &&& listed@.len() == origin.len()
            &&& forall|j: int, k: int| 0 <= j < k < origin.len() ==> origin[j] < origin[k]
            &&& forall|k: int|
                0 <= k < origin.len() ==> {
                    &&& 0 <= #[trigger] origin[k] < outcomes.len()
                    &&& is_free(outcomes[origin[k]], hands)
                    &&& listed@[k].0 == outcomes[origin[k]].probability
                    &&& stands_for(
                        draft,
                        listed@[k].1 as int,
                        node.children@[origin[k]],
                        hands,
                    )
                }
            &&& forall|i: int|
                0 <= i < outcomes.len() && is_free(#[trigger] outcomes[i], hands)
                    ==> origin.contains(i)
        }),
{
    let node = tree.nodes@[draft.tree_node_ids@[at]->Some_0 as int];
    let origin = lemma_open_outcomes_are_the_free_ones(node, hands);
    let open = open_outcomes(node, hands_mask(hands));
    let listed = draft.nodes@[at]->Chance_outcomes@;
    let ids = listed.map(|i: int, outcome: (u64, usize)| outcome.1);
    let targets = open.map(|i: int, outcome: (u64, usize)| outcome.1);
    assert(ids.len() == targets.len());
    assert forall|k: int| 0 <= k < origin.len() implies {
        &&& 0 <= #[trigger] origin[k] < node.chance->Some_0.outcomes@.len()
        &&& is_free(node.chance->Some_0.outcomes@[origin[k]], hands)
        &&& listed[k].0 == node.chance->Some_0.outcomes@[origin[k]].probability
        &&& stands_for(draft, listed[k].1 as int, node.children@[origin[k]], hands)
    } by {
        assert(crate::compile::is_copy(draft, ids[k] as int, targets[k], hands));
        assert(listed[k].0 == open[k].0);
    }
    origin
}

/// Where a player acts, the copy asks the same player and leads, action by action, to
/// the copies of the same children for the same hands.
pub proof fn lemma_copied_decision<P: MultiwayTerminalPayoff>(
    draft: Draft,
    tree: GameTree,
    at: int,
    hands: Seq<Combo>,
    payoff: P,
)
    requires
        copied(draft, tree, at, hands, payoff),
        draft.nodes@[at] is Decision,
    ensures
        ({
            let node = tree.nodes@[draft.tree_node_ids@[at]->Some_0 as int];
            &&& draft.nodes@[at] matches MultiwayGameNode::Decision { player, infoset, children }
            &&& node.state.actor == Some(player)
            &&& player < hands.len()
            &&& children@.len() == node.children@.len()
            &&& draft.actions@[at]@.len() == node.children@.len()
            &&& forall|k: int|
                0 <= k < children@.len() ==> stands_for(
                    draft,
                    (#[trigger] children@[k]) as int,
                    node.children@[k],
                    hands,
                )
            &&& forall|k: int|
                0 <= k < children@.len() ==> tree.nodes@[node.children@[k] as int].action_from_parent
                    == Some(#[trigger] draft.actions@[at]@[k])
        }),
{
    let children = draft.nodes@[at]->Decision_children@;
    let node = tree.nodes@[draft.tree_node_ids@[at]->Some_0 as int];
    assert forall|k: int| 0 <= k < children.len() implies stands_for(
        draft,
        (#[trigger] children[k]) as int,
        node.children@[k],
        hands,
    ) by {
        assert(crate::compile::is_copy(draft, children[k] as int, node.children@[k], hands));
    }
}

/// Where the hand ends, the copy pays what the payoff of the deal says of that node.
pub proof fn lemma_copied_terminal<P: MultiwayTerminalPayoff>(
    draft: Draft,
    tree: GameTree,
    at: int,
    hands: Seq<Combo>,
    payoff: P,
)
    requires
        copied(draft, tree, at, hands, payoff),
    ensures
        ({
            let node = tree.nodes@[draft.tree_node_ids@[at]->Some_0 as int];
            &&& draft.nodes@[at] is Terminal <==> node.chance is None && node.leaf is Some
            &&& draft.nodes@[at] is Chance <==> node.chance is Some
            &&& draft.nodes@[at] matches MultiwayGameNode::Terminal { utility }
                ==> payoff.spec_utility(node) == Ok::<Seq<u64>, PayoffError>(utility@)
        }),
{
}

/// The root deals: one outcome for each deal, in their order, with the probability of
/// the deal and the copy of the tree for its hands.
pub proof fn lemma_root_deals<P: MultiwayTerminalPayoff>(
    draft: Draft,
    tree: GameTree,
    hands: Seq<Seq<Combo>>,
    probabilities: Seq<u64>,
    payoffs: Seq<P>,
    k: int,
)
    requires
        draft_of_deals(draft, tree, hands, probabilities, payoffs),
        0 <= k < hands.len(),
    ensures
        draft.nodes@[0] matches MultiwayGameNode::Chance { outcomes } && {
            &&& outcomes@.len() == hands.len()
            &&& outcomes@[k].0 == probabilities[k]
            &&& stands_for(draft, outcomes@[k].1 as int, tree.root, hands[k])
            &&& copied(draft, tree, outcomes@[k].1 as int, hands[k], payoffs[k])
        },
{
    let outcomes = draft.nodes@[0]->Chance_outcomes@;
    let ids = outcomes.map(|i: int, outcome: (u64, usize)| outcome.1);
    assert(ids[k] == outcomes[k].1);
    assert(crate::holdem::deal_copied(draft, tree, hands[k], payoffs[k], ids[k] as int));
}

/// A deal that can be compiled: a hand for each seat, no card twice, and a positive
/// probability.
pub open spec fn sound_deal(deal: MultiwayPrivateDeal, players: usize) -> bool {
    &&& deal.hands@.len() == players
    &&& above_zero(deal.probability)
    &&& finite(deal.probability)
    &&& disjoint_hands(deal.hands@)
}

proof fn lemma_sound_deals(deals: Seq<MultiwayPrivateDeal>, players: usize, from: int)
    requires
        0 <= from <= deals.len(),
    ensures
        deals_error(deals, players, from) is None <==> forall|k: int|
            from <= k < deals.len() ==> sound_deal(#[trigger] deals[k], players),
    decreases deals.len() - from,
{
    if from < deals.len() {
        lemma_sound_deals(deals, players, from + 1);
        if !sound_deal(deals[from], players) {
            assert(!(forall|k: int|
                from <= k < deals.len() ==> sound_deal(#[trigger] deals[k], players)));
        }
    }
}

/// Deals can be compiled with a tree exactly where there are some, the tree seats
/// three to eight players, and every deal is sound.
pub proof fn lemma_compilable_deals(tree: GameTree, deals: Seq<MultiwayPrivateDeal>)
    ensures
        multiway_compile_error(tree, deals) is None <==> {
            let players = tree.nodes@[tree.root as int].state.table_size;
            &&& deals.len() > 0
            &&& 3 <= players <= 8
            &&& forall|k: int|
                0 <= k < deals.len() ==> sound_deal(#[trigger] deals[k], players)
        },
        multiway_compile_error(tree, deals) == Some(CompileError::NoDeals) <==> deals.len() == 0,
{
    let players = tree.nodes@[tree.root as int].state.table_size;
    lemma_sound_deals(deals, players, 0);
    if deals.len() > 0 {
        lemma_other_deal_errors(deals, players, 0);
    }
}

proof fn lemma_other_deal_errors(deals: Seq<MultiwayPrivateDeal>, players: usize, from: int)
    ensures
        deals_error(deals, players, from) != Some(CompileError::NoDeals),
    decreases deals.len() - from,
{
    if from < deals.len() {
        lemma_other_deal_errors(deals, players, from + 1);
    }
}

/// Scaling changes the probabilities of outcomes and nothing else.
pub proof fn lemma_scaling(before: MultiwayGameNode, after: MultiwayGameNode, scaled: Seq<u64>)
    requires
        rescaled(before, after, scaled),
    ensures
        before is Chance <==> after is Chance,
        !(before is Chance) ==> after == before,
        before matches MultiwayGameNode::Chance { outcomes } ==> {
            &&& after->Chance_outcomes@.len() == outcomes@.len()
            &&& forall|k: int|
                0 <= k < outcomes@.len() ==> (#[trigger] after->Chance_outcomes@[k]).0
                    == scaled[k] && after->Chance_outcomes@[k].1 == outcomes@[k].1
        },
{
}

/// A node of a heads-up game is the node of the draft with scaled probabilities: same
/// player, information set and children; same targets; same utilities in the same
/// order.
pub proof fn lemma_finished_pairs(node: MultiwayGameNode, scaled: Seq<u64>, made: GameNode)
    requires
        finished_node(node, scaled, made),
    ensures
        node matches MultiwayGameNode::Decision { player, infoset, children }
            ==> made matches GameNode::Decision { player: p, infoset: i, children: c } && p
            == player && i == infoset && c@ == children@,
        node matches MultiwayGameNode::Chance { outcomes } ==> made matches GameNode::Chance {
            outcomes: listed,
        } && listed@.len() == outcomes@.len() && forall|k: int|
            0 <= k < outcomes@.len() ==> (#[trigger] listed@[k]).0 == scaled[k] && listed@[k].1
                == outcomes@[k].1,
        node matches MultiwayGameNode::Terminal { utility } ==> made matches GameNode::Terminal {
            utility: pair,
        } && pair@ == utility@,
{
    let between = choose|between: MultiwayGameNode| #[trigger]
        rescaled(node, between, scaled) && crate::heads_up::pair_node(between, made);
    lemma_scaling(node, between, scaled);
}

/// The solver node of a public node: the same children in the same order, the
/// probabilities of the outcomes, the player who acts, the utilities of the payoff, and
/// an information set that belongs to this node alone.
pub proof fn lemma_public_nodes<P: TerminalPayoff>(
    node: TreeNode,
    other: TreeNode,
    payoff: P,
    copy: GameNode,
    other_copy: GameNode,
)
    requires
        public_copy(node, payoff, copy),
        public_copy(other, payoff, other_copy),
    ensures
        copy is Chance <==> node.chance is Some,
        copy is Terminal <==> node.chance is None && node.leaf is Some,
        copy matches GameNode::Chance { outcomes } ==> {
            &&& outcomes@.len() == node.children@.len()
            &&& forall|k: int|
                0 <= k < outcomes@.len() ==> (#[trigger] outcomes@[k]).0
                    == node.chance->Some_0.outcomes@[k].probability && outcomes@[k].1
                    == node.children@[k]
        },
        copy matches GameNode::Terminal { utility } ==> payoff.spec_utility(node) == Ok::<
            (u64, u64),
            PayoffError,
        >((utility@[0], utility@[1])),
        copy matches GameNode::Decision { player, infoset, children } ==> {
            &&& node.state.actor == Some(player)
            &&& children@ == node.children@
            &&& other_copy matches GameNode::Decision {
                player: _,
                infoset: other_infoset,
                children: _,
            } ==> (infoset == other_infoset <==> node.id == other.id)
        },
{
}

/// Each child is reached by an action, and no two by the same one.
pub open spec fn labelled(tree: GameTree, node: TreeNode, from: int) -> bool {
    forall|k: int|
        #![trigger node.children@[k]]
        from <= k < node.children@.len() ==> {
            let action = tree.nodes@[node.children@[k] as int].action_from_parent;
            &&& action is Some
            &&& forall|j: int|
                0 <= j < k ==> tree.nodes@[(#[trigger] node.children@[j]) as int].action_from_parent
                    != action
        }
}

proof fn lemma_labels(tree: GameTree, node: TreeNode, from: int)
    requires
        0 <= from <= node.children@.len(),
    ensures
        label_error(tree, node, from) is None <==> labelled(tree, node, from),
    decreases node.children@.len() - from,
{
    if from < node.children@.len() {
        lemma_labels(tree, node, from + 1);
        let action = tree.nodes@[node.children@[from] as int].action_from_parent;
        if edge_error(tree, node, from) is Some {
            if action is Some {
                let j = choose|j: int|
                    0 <= j < from && tree.nodes@[(#[trigger] node.children@[j])
                        as int].action_from_parent == action;
                assert(node.children@[j] == node.children@[j]);
            }
            assert(!labelled(tree, node, from));
        } else {
            assert(action is Some);
            assert forall|j: int| 0 <= j < from implies tree.nodes@[(
            #[trigger] node.children@[j]) as int].action_from_parent != action by {}
        }
    }
}

/// A node can be copied for hands exactly where its board is a set of cards that
/// nobody holds and: cards that come are sets and one of them is free; a leaf ends the
/// hand and is paid; a decision is one of the players', with children that different
/// actions lead to.
pub proof fn lemma_nodes_that_can_be_copied<P: MultiwayTerminalPayoff>(
    tree: GameTree,
    at: usize,
    hands: Seq<Combo>,
    payoff: P,
)
    requires
        at < tree.nodes@.len(),
        all_valid(hands),
        tree.nodes@[at as int].chance matches Some(chance) ==> chance.outcomes@.len()
            == tree.nodes@[at as int].children@.len(),
    ensures
        ({
            let node = tree.nodes@[at as int];
            let board = node.state.board@;
            copy_problem(tree, at, hands, payoff) is None <==> {
                &&& all_cards(board)
                &&& distinct(board)
                &&& forall|c: int| 0 <= c < board.len() ==> !held(hands, #[trigger] board[c])
                &&& node.chance is Some ==> outcome_card_error(
                    node.chance->Some_0.outcomes@,
                    0,
                ) is None && exists|i: int|
                    0 <= i < node.chance->Some_0.outcomes@.len() && is_free(
                        #[trigger] node.chance->Some_0.outcomes@[i],
                        hands,
                    )
                &&& node.chance is None && node.leaf is Some ==> node.leaf != Some(
                    LeafKind::RoundComplete,
                ) && payoff.spec_utility(node) is Ok
                &&& node.chance is None && node.leaf is None ==> {
                    &&& node.state.actor is Some
                    &&& node.state.actor->Some_0 < hands.len()
                    &&& node.children@.len() > 0
                    &&& labelled(tree, node, 0)
                }
            }
        }),
{
    let node = tree.nodes@[at as int];
    let board = node.state.board@;
    lemma_first_fault_of_cards(board);
    lemma_labels(tree, node, 0);
    if first_card_error(board, 0) is None {
        lemma_board_free(board, hands);
    }
    if node.chance is Some && outcome_card_error(node.chance->Some_0.outcomes@, 0) is None {
        let outcomes = node.chance->Some_0.outcomes@;
        let origin = lemma_open_outcomes_are_the_free_ones(node, hands);
        let open = open_outcomes(node, hands_mask(hands));
        if open.len() > 0 {
            assert(is_free(outcomes[origin[0]], hands));
        }
        if exists|i: int| 0 <= i < outcomes.len() && is_free(#[trigger] outcomes[i], hands) {
            let i = choose|i: int| 0 <= i < outcomes.len() && is_free(#[trigger] outcomes[i], hands);
            assert(origin.contains(i));
        }
    }
}

proof fn lemma_board_free(board: Seq<u8>, hands: Seq<Combo>)
    requires
        all_valid(hands),
        all_cards(board),
    ensures
        hands_mask(hands) & cards_mask(board) == 0 <==> forall|c: int|
            0 <= c < board.len() ==> !held(hands, #[trigger] board[c]),
{
    let left = hands_mask(hands);
    let right = cards_mask(board);
    lemma_masks_meet(left, right);
    assert forall|card: u8| card < 64 implies has_card(left, card) == #[trigger] held(
        hands,
        card,
    ) by {
        lemma_hands_mask(hands, card);
        assert forall|h: int| 0 <= h < hands.len() implies has_card(
            (#[trigger] hands[h]).spec_mask(),
            card,
        ) == hands[h].holds(card) by {
            crate::cards::lemma_combo_mask(hands[h], card);
        }
        if held(hands, card) {
            let h = choose|h: int| 0 <= h < hands.len() && (#[trigger] hands[h]).holds(card);
            assert(has_card(hands[h].spec_mask(), card));
        }
    }
    if left & right != 0 {
        let card = choose|card: u8| card < 64 && has_card(left, card) && has_card(right, card);
        lemma_cards_mask(board, card);
        let c = choose|c: int| 0 <= c < board.len() && board[c] == card;
        assert(held(hands, board[c]));
    }
    if exists|c: int| 0 <= c < board.len() && held(hands, #[trigger] board[c]) {
        let c = choose|c: int| 0 <= c < board.len() && held(hands, #[trigger] board[c]);
        assert(board[c] < 64);
        lemma_cards_mask(board, board[c]);
        assert(has_card(left, board[c]));
        assert(has_card(right, board[c]));
    }
}

/// A public node can be compiled for two players exactly where cards come, the hand
/// ends and is paid, or one of the two acts and different actions lead on.
pub proof fn lemma_public_nodes_that_compile<P: TerminalPayoff>(
    tree: GameTree,
    node: TreeNode,
    payoff: P,
)
    ensures
        public_problem(tree, node, payoff) is None <==> {
            ||| node.chance is Some
            ||| node.leaf is Some && node.leaf != Some(LeafKind::RoundComplete)
                && payoff.spec_utility(node) is Ok
            ||| {
                &&& node.leaf is None
                &&& node.state.actor is Some
                &&& node.state.actor->Some_0 < 2
                &&& node.children@.len() > 0
                &&& labelled(tree, node, 0)
            }
        },
{
    lemma_labels(tree, node, 0);
}

/// The public tree compiles exactly where each of its nodes does.
pub proof fn lemma_public_trees_that_compile<P: TerminalPayoff>(
    tree: GameTree,
    payoff: P,
    from: int,
)
    requires
        0 <= from <= tree.nodes@.len(),
    ensures
        first_public_problem(tree, payoff, from) is None <==> forall|i: int|
            from <= i < tree.nodes@.len() ==> public_problem(
                tree,
                #[trigger] tree.nodes@[i],
                payoff,
            ) is None,
    decreases tree.nodes@.len() - from,
{
    if from < tree.nodes@.len() {
        lemma_public_trees_that_compile(tree, payoff, from + 1);
        if public_problem(tree, tree.nodes@[from], payoff) is Some {
            assert(!(forall|i: int|
                from <= i < tree.nodes@.len() ==> public_problem(
                    tree,
                    #[trigger] tree.nodes@[i],
                    payoff,
                ) is None));
        }
    }
}

/// What a walk over the public tree for some hands sees: a leaf goes nowhere, a
/// decision to all its children in order, and cards that come to the nodes of the free
/// outcomes in order.
pub proof fn lemma_public_targets(found: TreeNode, hands: Seq<Combo>, shape: Shape) -> (origin: Seq<
    int,
>)
    requires
        public_shape_of(found, hands, shape),
        all_valid(hands),
        found.leaf is None ==> (found.chance matches Some(chance) ==> outcome_card_error(
            chance.outcomes@,
            0,
        ) is None && chance.outcomes@.len() == found.children@.len()),
    ensures
        shape is Leaf <==> found.leaf is Some,
        shape is Chance <==> found.leaf is None && found.chance is Some,
        shape matches Shape::Decision(player, _) ==> found.state.actor == Some(player)
            && shape_targets(shape) == found.children@,
        shape is Chance ==> {
            let outcomes = found.chance->Some_0.outcomes@;
            let targets = shape_targets(shape);
            &&& targets.len() == origin.len()
            &&& forall|j: int, k: int| 0 <= j < k < origin.len() ==> origin[j] < origin[k]
            &&& forall|k: int|
                0 <= k < origin.len() ==> 0 <= #[trigger] origin[k] < outcomes.len() && is_free(
                    outcomes[origin[k]],
                    hands,
                ) && targets[k] == found.children@[origin[k]]
            &&& forall|i: int|
                0 <= i < outcomes.len() && is_free(#[trigger] outcomes[i], hands)
                    ==> origin.contains(i)
        },
{
    if found.leaf is None && found.chance is Some {
        lemma_open_outcomes_are_the_free_ones(found, hands)
    } else {
        Seq::empty()
    }
}

/// Why a walk cannot enter a node of the public tree.
pub proof fn lemma_public_errors(tree: GameTree, hands: Seq<Combo>, node: usize)
    requires
        all_valid(hands),
        node < tree.nodes@.len() ==> (tree.nodes@[node as int].chance matches Some(chance)
            ==> chance.outcomes@.len() == tree.nodes@[node as int].children@.len()),
    ensures
        public_error(tree, hands, node) == Some(ArenaError::UnknownNode { node }) <==> node
            >= tree.nodes@.len(),
        node < tree.nodes@.len() ==> ({
            let found = tree.nodes@[node as int];
            &&& public_error(tree, hands, node) == Some(ArenaError::RoundComplete { node })
                <==> found.leaf == Some(LeafKind::RoundComplete)
            &&& (found.leaf matches Some(LeafKind::Terminal(_))) ==> public_error(
                tree,
                hands,
                node,
            ) is None
            &&& found.leaf is None && found.chance is None ==> (public_error(tree, hands, node)
                is None <==> found.state.actor is Some && found.state.actor->Some_0 < hands.len()
                && found.children@.len() > 0)
            &&& found.leaf is None && found.chance is Some && outcome_card_error(
                found.chance->Some_0.outcomes@,
                0,
            ) is None ==> (public_error(tree, hands, node) is None <==> exists|i: int|
                0 <= i < found.chance->Some_0.outcomes@.len() && is_free(
                    #[trigger] found.chance->Some_0.outcomes@[i],
                    hands,
                ))
        }),
{
    if node < tree.nodes@.len() {
        let found = tree.nodes@[node as int];
        if found.chance is Some && outcome_card_error(found.chance->Some_0.outcomes@, 0) is None {
            let outcomes = found.chance->Some_0.outcomes@;
            let origin = lemma_open_outcomes_are_the_free_ones(found, hands);
            if open_outcomes(found, hands_mask(hands)).len() > 0 {
                assert(is_free(outcomes[origin[0]], hands));
            }
            if exists|i: int| 0 <= i < outcomes.len() && is_free(#[trigger] outcomes[i], hands) {
                let i = choose|i: int|
                    0 <= i < outcomes.len() && is_free(#[trigger] outcomes[i], hands);
                assert(origin.contains(i));
            }
        }
    }
}

/// A walk over the public tree is stopped by what is wrong with the node it would
/// enter, one over a compiled deal only where there is no such node; what it sees is
/// the shape of that node.
pub proof fn lemma_stages(stage: Stage, tree: GameTree, node: usize, shape: Shape)
    ensures
        stage matches Stage::Public(profile) ==> {
            &&& stage.error(tree, node) is Some <==> public_error(tree, profile.hands@, node)
                is Some
            &&& public_error(tree, profile.hands@, node) matches Some(error) ==> stage.error(
                tree,
                node,
            ) == Some(BatchError::Arena(error))
            &&& stage.has_shape(tree, node, shape) <==> public_shape_of(
                tree.nodes@[node as int],
                profile.hands@,
                shape,
            )
        },
        stage matches Stage::Compiled(compiled) ==> {
            &&& stage.error(tree, node) is None <==> node < compiled.game.nodes@.len()
            &&& stage.error(tree, node) matches Some(error) ==> error == BatchError::Arena(
                ArenaError::UnknownNode { node },
            )
            &&& stage.has_shape(tree, node, shape) <==> crate::multiway_walk::multiway_shape_of(
                compiled.game.nodes@[node as int],
                shape,
            )
        },
{
}

} // verus!
