//! Which public cards can still come once the private hands are dealt.
use vstd::prelude::*;

use crate::arena::{ArenaError, MultiwayHoldemPublicProfile};
use crate::cards::{
    all_cards, cards_mask, distinct, first_card_error, has_card, lemma_cards_mask,
    lemma_combo_mask, lemma_masks_meet, CardError, Combo, DECK_SIZE,
};
use crate::compile::{
    allowed_outcomes, list_open_outcomes, open_outcomes, outcome_card_error, tree_in_order,
};
use crate::payoff::{all_valid, hands_mask, lemma_hands_mask};
use crate::tree::{ChanceOutcome, GameTree, TreeNode};

verus! {

/// Some hand holds the card.
pub open spec fn held(hands: Seq<Combo>, card: u8) -> bool {
    exists|h: int| 0 <= h < hands.len() && (#[trigger] hands[h]).holds(card)
}

/// No hand holds a card of the outcome.
pub open spec fn is_free(outcome: ChanceOutcome, hands: Seq<Combo>) -> bool {
    forall|c: int| 0 <= c < outcome.cards@.len() ==> !held(hands, #[trigger] outcome.cards@[c])
}

/// A list of cards is in order exactly where every card is of the deck and none
/// stands in it twice; the fault that is named is the first one.
pub proof fn lemma_first_fault_of_cards(cards: Seq<u8>)
    ensures
        first_card_error(cards, 0) is None <==> all_cards(cards) && distinct(cards),
        first_card_error(cards, 0) matches Some(CardError::OutOfDeck { card }) ==> card >= DECK_SIZE
            && cards.contains(card),
        first_card_error(cards, 0) matches Some(CardError::Duplicate { card }) ==> exists|
            i: int,
            j: int,
        | 0 <= i < j < cards.len() && cards[i] == card && cards[j] == card,
{
    lemma_fault_from(cards, 0);
}

/// The first fault from `from` on: everything before it is in order.
proof fn lemma_fault_from(cards: Seq<u8>, from: int)
    requires
        0 <= from <= cards.len(),
        forall|i: int| 0 <= i < from ==> #[trigger] cards[i] < DECK_SIZE,
        forall|i: int, j: int| 0 <= i < j < from ==> cards[i] != cards[j],
    ensures
        first_card_error(cards, from) is None <==> all_cards(cards) && distinct(cards),
        first_card_error(cards, from) matches Some(CardError::OutOfDeck { card }) ==> card
            >= DECK_SIZE && cards.contains(card),
        first_card_error(cards, from) matches Some(CardError::Duplicate { card }) ==> exists|
            i: int,
            j: int,
        | 0 <= i < j < cards.len() && cards[i] == card && cards[j] == card,
    decreases cards.len() - from,
{
    if from < cards.len() {
        let card = cards[from];
        if card < DECK_SIZE {
            let front = cards.take(from);
            if front.contains(card) {
                let i = choose|i: int| 0 <= i < front.len() && front[i] == card;
                assert(cards[i] == card && cards[from] == card);
            } else {
                assert forall|i: int, j: int| 0 <= i < j < from + 1 implies cards[i] != cards[j] by {
                    if j == from {
                        assert(front[i] == cards[i]);
                    }
                }
                lemma_fault_from(cards, from + 1);
            }
        }
    }
}

proof fn lemma_outcome_cards(outcomes: Seq<ChanceOutcome>, from: int, at: int)
    requires
        0 <= from <= at < outcomes.len(),
        outcome_card_error(outcomes, from) is None,
    ensures
        first_card_error(outcomes[at].cards@, 0) is None,
    decreases at - from,
{
    if from < at {
        lemma_outcome_cards(outcomes, from + 1, at);
    }
}

proof fn lemma_free(outcome: ChanceOutcome, hands: Seq<Combo>)
    requires
        all_valid(hands),
        all_cards(outcome.cards@),
    ensures
        is_free(outcome, hands) <==> cards_mask(outcome.cards@) & hands_mask(hands) == 0,
{
    let cards = outcome.cards@;
    let left = cards_mask(cards);
    let right = hands_mask(hands);
    lemma_masks_meet(left, right);
    assert forall|card: u8| card < 64 implies has_card(right, card) == held(hands, card) by {
        lemma_hands_mask(hands, card);
        assert forall|h: int| 0 <= h < hands.len() implies has_card(
            (#[trigger] hands[h]).spec_mask(),
            card,
        ) == hands[h].holds(card) by {
            lemma_combo_mask(hands[h], card);
        }
        if held(hands, card) {
            let h = choose|h: int| 0 <= h < hands.len() && (#[trigger] hands[h]).holds(card);
            assert(has_card(hands[h].spec_mask(), card));
        }
    }
    if left & right != 0 {
        let card = choose|card: u8| card < 64 && has_card(left, card) && has_card(right, card);
        lemma_cards_mask(cards, card);
        let c = choose|c: int| 0 <= c < cards.len() && cards[c] == card;
        assert(held(hands, cards[c]));
    }
    if !is_free(outcome, hands) {
        let c = choose|c: int| 0 <= c < cards.len() && held(hands, #[trigger] cards[c]);
        lemma_cards_mask(cards, cards[c]);
        assert(has_card(left, cards[c]));
        assert(has_card(right, cards[c]));
    }
}

/// Where each listed outcome comes from.
proof fn lemma_origin(outcomes: Seq<ChanceOutcome>, children: Seq<usize>, mask: u64, count: int) -> (
origin: Seq<int>)
    requires
        0 <= count <= outcomes.len(),
    ensures
        ({
            let open = allowed_outcomes(outcomes, children, mask, count);
            &&& origin.len() == open.len()
            &&& forall|j: int, k: int| 0 <= j < k < origin.len() ==> origin[j] < origin[k]
            &&& forall|k: int|
                0 <= k < origin.len() ==> {
                    &&& 0 <= #[trigger] origin[k] < count
                    &&& open[k] == (outcomes[origin[k]].probability, children[origin[k]])
                    &&& cards_mask(outcomes[origin[k]].cards@) & mask == 0
                }
            &&& forall|i: int|
                0 <= i < count && cards_mask((#[trigger] outcomes[i]).cards@) & mask == 0
                    ==> origin.contains(i)
        }),
    decreases count,
{
    if count <= 0 {
        Seq::empty()
    } else {
        let rest = lemma_origin(outcomes, children, mask, count - 1);
        if cards_mask(outcomes[count - 1].cards@) & mask != 0 {
            rest
        } else {
            let origin = rest.push(count - 1);
            assert forall|i: int|
                0 <= i < count && cards_mask((#[trigger] outcomes[i]).cards@) & mask
                    == 0 implies origin.contains(i) by {
                if i == count - 1 {
                    assert(origin[rest.len() as int] == i);
                } else {
                    let k = choose|k: int| 0 <= k < rest.len() && rest[k] == i;
                    assert(origin[k] == i);
                }
            }
            origin
        }
    }
}

/// The listed outcomes are those whose cards nobody holds, all of them, in their
/// order, each with its own probability and its own child: `origin` says where each
/// comes from.
pub open spec fn lists_the_free(
    open: Seq<(u64, usize)>,
    origin: Seq<int>,
    outcomes: Seq<ChanceOutcome>,
    children: Seq<usize>,
    hands: Seq<Combo>,
) -> bool {
    &&& origin.len() == open.len()
    &&& forall|j: int, k: int| 0 <= j < k < origin.len() ==> origin[j] < origin[k]
    &&& forall|k: int|
        0 <= k < origin.len() ==> {
            &&& 0 <= #[trigger] origin[k] < outcomes.len()
            &&& open[k].0 == outcomes[origin[k]].probability
            &&& open[k].1 == children[origin[k]]
            &&& is_free(outcomes[origin[k]], hands)
        }
    &&& forall|i: int|
        0 <= i < outcomes.len() && is_free(#[trigger] outcomes[i], hands) ==> origin.contains(i)
        && open.contains((outcomes[i].probability, children[i]))
}

/// Of a chance node, the hands leave open exactly the outcomes that hold none of
/// their cards.
pub proof fn lemma_open_outcomes_are_the_free_ones(node: TreeNode, hands: Seq<Combo>) -> (origin:
    Seq<int>)
    requires
        all_valid(hands),
        node.chance matches Some(chance) && outcome_card_error(chance.outcomes@, 0) is None
            && chance.outcomes@.len() == node.children@.len(),
    ensures
        lists_the_free(
            open_outcomes(node, hands_mask(hands)),
            origin,
            node.chance->Some_0.outcomes@,
            node.children@,
            hands,
        ),
{
    let outcomes = node.chance->Some_0.outcomes@;
    let mask = hands_mask(hands);
    let open = open_outcomes(node, mask);
    let origin = lemma_origin(outcomes, node.children@, mask, outcomes.len() as int);
    assert forall|i: int| 0 <= i < outcomes.len() implies (is_free(#[trigger] outcomes[i], hands)
        <==> cards_mask(outcomes[i].cards@) & mask == 0) by {
        lemma_outcome_cards(outcomes, 0, i);
        lemma_first_fault_of_cards(outcomes[i].cards@);
        lemma_free(outcomes[i], hands);
    }
    assert forall|i: int| 0 <= i < outcomes.len() && is_free(#[trigger] outcomes[i], hands) implies {
        origin.contains(i) && open.contains((outcomes[i].probability, node.children@[i]))
    } by {
        let k = choose|k: int| 0 <= k < origin.len() && origin[k] == i;
        assert(open[k] == (outcomes[i].probability, node.children@[i]));
    }
    origin
}

/// What listing the possible outcomes of a node gives for hands of this mask.
pub proof fn lemma_listed_outcomes(
    node: TreeNode,
    outcomes: Vec<ChanceOutcome>,
    hands: Seq<Combo>,
    result: Result<Vec<(u64, usize)>, CardError>,
) -> (origin: Seq<int>)
    requires
        call_ensures(list_open_outcomes, (&node, &outcomes, hands_mask(hands)), result),
        node.chance matches Some(chance) && chance.outcomes == outcomes,
        outcomes@.len() == node.children@.len(),
        all_valid(hands),
    ensures
        result matches Ok(open) ==> lists_the_free(
            open@,
            origin,
            outcomes@,
            node.children@,
            hands,
        ),
        result is Ok <==> forall|i: int|
            0 <= i < outcomes@.len() ==> all_cards((#[trigger] outcomes@[i]).cards@) && distinct(
                outcomes@[i].cards@,
            ),
{
    lemma_all_outcomes_in_order(outcomes@, 0);
    if result is Ok {
        lemma_open_outcomes_are_the_free_ones(node, hands)
    } else {
        Seq::empty()
    }
}

proof fn lemma_all_outcomes_in_order(outcomes: Seq<ChanceOutcome>, from: int)
    requires
        0 <= from <= outcomes.len(),
    ensures
        outcome_card_error(outcomes, from) is None <==> forall|i: int|
            from <= i < outcomes.len() ==> all_cards((#[trigger] outcomes[i]).cards@) && distinct(
                outcomes[i].cards@,
            ),
    decreases outcomes.len() - from,
{
    if from < outcomes.len() {
        lemma_first_fault_of_cards(outcomes[from].cards@);
        lemma_all_outcomes_in_order(outcomes, from + 1);
        if first_card_error(outcomes[from].cards@, 0) is Some {
            assert(!(all_cards(outcomes[from].cards@) && distinct(outcomes[from].cards@)));
        }
    }
}

/// What a profile says of a chance node of the tree: the free outcomes, or that
/// there are none.
pub proof fn lemma_profile_outcomes(
    profile: MultiwayHoldemPublicProfile,
    tree: GameTree,
    node: usize,
    result: Result<Vec<(u64, usize)>, ArenaError>,
) -> (origin: Seq<int>)
    requires
        call_ensures(MultiwayHoldemPublicProfile::chance_outcomes, (&profile, &tree, node), result),
        profile.wf(),
        tree_in_order(tree),
    ensures
        result matches Ok(open) ==> {
            &&& node < tree.nodes@.len()
            &&& tree.nodes@[node as int].chance is Some
            &&& open@.len() > 0
            &&& lists_the_free(
                open@,
                origin,
                tree.nodes@[node as int].chance->Some_0.outcomes@,
                tree.nodes@[node as int].children@,
                profile.hands@,
            )
        },
        result == Err::<Vec<(u64, usize)>, ArenaError>(ArenaError::NoLegalOutcomes { node }) ==> {
            &&& node < tree.nodes@.len()
            &&& tree.nodes@[node as int].chance matches Some(chance)
            &&& forall|i: int|
                0 <= i < chance.outcomes@.len() ==> !is_free(
                    #[trigger] chance.outcomes@[i],
                    profile.hands@,
                )
        },
        result == Err::<Vec<(u64, usize)>, ArenaError>(ArenaError::UnknownNode { node }) <==> node
            >= tree.nodes@.len(),
{
    if node < tree.nodes@.len() && tree.nodes@[node as int].chance is Some && outcome_card_error(
        tree.nodes@[node as int].chance->Some_0.outcomes@,
        0,
    ) is None {
        lemma_open_outcomes_are_the_free_ones(tree.nodes@[node as int], profile.hands@)
    } else {
        Seq::empty()
    }
}

} // verus!
