//! The streets, the cards that can still come, and the numbers they come with.
use vstd::prelude::*;

use crate::bits::{above_one, above_zero, below_zero, finite, ONE_BITS};
use crate::cards::{
    all_cards, card_bit, cards_mask, distinct, has_card, lemma_cards_mask, lemma_has_and,
    lemma_has_or, lemma_mask_cards, DECK_SIZE, FULL_DECK,
};
use crate::chance::{
    chance_outcomes, choices, lemma_choices_are_exact, outcome_cards, outcomes_error,
    remaining_cards, ChanceConfig, ChanceError,
};
use crate::domain::{GameState, Street};
use crate::laws::outcomes::lemma_first_fault_of_cards;
use crate::tree::ChanceOutcome;

verus! {

/// The exponent field of a double precision number.
pub open spec fn exponent(bits: u64) -> u64 {
    (bits >> 52u64) & 0x7ff
}

/// The fraction field of a double precision number.
pub open spec fn fraction(bits: u64) -> u64 {
    bits & 0x000f_ffff_ffff_ffff
}

/// A sign bit of one.
pub open spec fn is_negative(bits: u64) -> bool {
    (bits >> 63u64) & 1 == 1
}

/// All exponent bits are set and the fraction is not zero.
pub open spec fn not_a_number(bits: u64) -> bool {
    exponent(bits) == 0x7ff && fraction(bits) != 0
}

/// What the bits say of a number, by its fields: finite where the exponent is not all
/// ones; above or below zero by the sign, where it is a number and not zero.
pub proof fn lemma_numbers_by_their_fields(bits: u64)
    ensures
        finite(bits) <==> exponent(bits) != 0x7ff,
        above_zero(bits) <==> !is_negative(bits) && !not_a_number(bits) && (exponent(bits) != 0
            || fraction(bits) != 0),
        below_zero(bits) <==> is_negative(bits) && !not_a_number(bits) && (exponent(bits) != 0
            || fraction(bits) != 0),
        above_one(bits) <==> !is_negative(bits) && !not_a_number(bits) && (exponent(bits) > 1023
            || exponent(bits) == 1023 && fraction(bits) != 0),
{
    assert(bits < 0x8000_0000_0000_0000u64 ==> (bits < 0x7ff0_0000_0000_0000u64 <==> (bits
        >> 52u64) & 0x7ff != 0x7ff)) by (bit_vector);
    assert(bits >= 0x8000_0000_0000_0000u64 ==> (bits < 0xfff0_0000_0000_0000u64 <==> (bits
        >> 52u64) & 0x7ff != 0x7ff)) by (bit_vector);
    assert(((bits >> 63u64) & 1 == 1) <==> bits >= 0x8000_0000_0000_0000u64) by (bit_vector);
    assert(bits < 0x8000_0000_0000_0000u64 ==> (bits > 0x7ff0_0000_0000_0000u64 <==> (bits
        >> 52u64) & 0x7ff == 0x7ff && bits & 0x000f_ffff_ffff_ffff != 0)) by (bit_vector);
    assert(bits >= 0x8000_0000_0000_0000u64 ==> (bits > 0xfff0_0000_0000_0000u64 <==> (bits
        >> 52u64) & 0x7ff == 0x7ff && bits & 0x000f_ffff_ffff_ffff != 0)) by (bit_vector);
    assert((bits == 0u64 || bits == 0x8000_0000_0000_0000u64) <==> (bits >> 52u64) & 0x7ff == 0
        && bits & 0x000f_ffff_ffff_ffff == 0) by (bit_vector);
    assert(bits < 0x8000_0000_0000_0000u64 ==> (bits > 0x3ff0_0000_0000_0000u64 <==> (bits
        >> 52u64) & 0x7ff > 1023 || (bits >> 52u64) & 0x7ff == 1023 && bits
        & 0x000f_ffff_ffff_ffff != 0)) by (bit_vector);
}

/// How many cards lie on the board during a street.
pub open spec fn board_size(street: Street) -> nat {
    match street {
        Street::Preflop => 0,
        Street::Flop => 3,
        Street::Turn => 4,
        Street::River => 5,
    }
}

/// The street that follows has the cards of this one and those that come with it;
/// nothing follows once five cards lie.
pub proof fn lemma_streets_add_their_cards(street: Street, next: Option<Street>, new: usize)
    requires
        call_ensures(Street::next, (street,), next),
        call_ensures(Street::required_new_board_cards, (street,), new),
    ensures
        next matches Some(following) ==> board_size(following) == board_size(street) + new && new
            > 0,
        next is None <==> board_size(street) == 5,
        next is None <==> new == 0,
{
}

/// Streets are numbered from zero in the order in which they are played.
pub proof fn lemma_street_codes(street: Street, next: Option<Street>, code: u64, next_code: u64)
    requires
        call_ensures(Street::next, (street,), next),
        call_ensures(Street::code, (street,), code),
        next is Some ==> call_ensures(Street::code, (next->Some_0,), next_code),
    ensures
        board_size(street) == 0 ==> code == 0,
        next is Some ==> next_code == code + 1,
{
}

/// The configured outcomes of a street are those listed for it.
pub proof fn lemma_outcomes_of_each_street(config: ChanceConfig, street: Street)
    ensures
        board_size(street) == 3 ==> config.spec_explicit_for(street) == config.flop,
        board_size(street) == 4 ==> config.spec_explicit_for(street) == config.turn,
        board_size(street) == 5 ==> config.spec_explicit_for(street) == config.river,
        board_size(street) == 0 ==> config.spec_explicit_for(street) is None,
{
}

/// A card is one bit: the first card of the deck is the lowest one, and each card's
/// bit is twice that of the card before it.
pub proof fn lemma_card_bits(card: u8)
    requires
        card < 63,
    ensures
        card_bit(0) == 1,
        card_bit((card + 1) as u8) == 2 * card_bit(card),
{
    assert(1u64 << 0u64 == 1) by (bit_vector);
    let c = card as u64;
    assert(1u64 << ((c + 1) as u64) == 2 * (1u64 << c)) by (bit_vector)
        requires
            c < 63,
    ;
}

proof fn lemma_full_deck(card: u8)
    requires
        card < 64,
    ensures
        has_card(FULL_DECK, card) <==> card < DECK_SIZE,
{
    let c = card as u64;
    assert((0x000f_ffff_ffff_ffffu64 >> c) & 1 == 1 <==> c < 52) by (bit_vector)
        requires
            c < 64,
    ;
}

proof fn lemma_has_not(mask: u64, card: u8)
    requires
        card < 64,
    ensures
        has_card(!mask, card) <==> !has_card(mask, card),
{
    let c = card as u64;
    assert(((!mask) >> c) & 1 == 1 <==> !((mask >> c) & 1 == 1)) by (bit_vector)
        requires
            c < 64,
    ;
}

/// The cards that can still come are exactly those of the deck that neither lie on
/// the board nor are dead, each once and in ascending order.
pub proof fn lemma_cards_that_can_come(board: Seq<u8>, dead_cards: u64, card: u8)
    requires
        all_cards(board),
    ensures
        remaining_cards(board, dead_cards).contains(card) <==> card < 52 && !board.contains(card)
            && !has_card(dead_cards, card),
        forall|i: int, j: int|
            0 <= i < j < remaining_cards(board, dead_cards).len() ==> remaining_cards(
                board,
                dead_cards,
            )[i] < remaining_cards(board, dead_cards)[j],
{
    let used = cards_mask(board) | dead_cards;
    let mask = !used & FULL_DECK;
    lemma_mask_cards(mask, 0);
    if card < 64 {
        lemma_full_deck(card);
        lemma_has_not(used, card);
        lemma_has_and(!used, FULL_DECK, card);
        lemma_has_or(cards_mask(board), dead_cards, card);
        lemma_cards_mask(board, card);
    }
}

/// Some card can come: of the deck, not on the board, not dead.
pub open spec fn can_come(state: GameState, config: ChanceConfig, card: u8) -> bool {
    card < 52 && !state.board@.contains(card) && !has_card(config.dead_cards, card)
}

/// The cards of an outcome, all of which can come, in ascending order and as many as
/// the next street has.
pub open spec fn is_deal(state: GameState, config: ChanceConfig, cards: Seq<u8>) -> bool {
    &&& state.street is Preflop ==> cards.len() == 3
    &&& state.street is Flop || state.street is Turn ==> cards.len() == 1
    &&& !(state.street is River)
    &&& forall|i: int| 0 <= i < cards.len() ==> can_come(state, config, #[trigger] cards[i])
    &&& forall|i: int, j: int| 0 <= i < j < cards.len() ==> cards[i] < cards[j]
}

/// Where outcomes are enumerated they are the possible deals, all of them and
/// nothing else, all equally likely.
pub proof fn lemma_enumerated_deals(
    state: GameState,
    next_street: Street,
    config: ChanceConfig,
    result: Result<Vec<ChanceOutcome>, ChanceError>,
    cards: Seq<u8>,
)
    requires
        call_ensures(chance_outcomes, (&state, next_street, &config), result),
        config.spec_explicit_for(next_street) is None,
    ensures
        result matches Ok(outcomes) ==> {
            &&& config.enumerate_exact
            &&& outcomes@.len() > 0
            &&& config.max_outcomes_per_node > 0 ==> outcomes@.len()
                <= config.max_outcomes_per_node
            &&& (exists|i: int| 0 <= i < outcomes@.len() && (#[trigger] outcomes@[i]).cards@
                == cards) <==> is_deal(state, config, cards)
            &&& forall|i: int|
                0 <= i < outcomes@.len() ==> (#[trigger] outcomes@[i]).probability == ONE_BITS
        },
        !config.enumerate_exact ==> result == Err::<Vec<ChanceOutcome>, ChanceError>(
            ChanceError::NotConfigured { next_street },
        ),
{
    if result is Ok {
        let outcomes = result->Ok_0@;
        let width = state.street.spec_required();
        let remaining = remaining_cards(state.board@, config.dead_cards);
        lemma_first_fault_of_cards(state.board@);
        assert forall|card: u8| remaining.contains(card) == #[trigger] can_come(
            state,
            config,
            card,
        ) by {
            lemma_cards_that_can_come(state.board@, config.dead_cards, card);
        }
        lemma_cards_that_can_come(state.board@, config.dead_cards, 0);
        lemma_choices_are_exact(remaining, width, cards);
        let listed = choices(remaining, width);
        assert(outcome_cards(outcomes) == listed);
        assert(outcome_cards(outcomes).len() == outcomes.len());
        assert forall|i: int| 0 <= i < outcomes.len() implies outcome_cards(outcomes)[i]
            == #[trigger] outcomes[i].cards@ by {}
        if is_deal(state, config, cards) {
            if width == 1 {
                assert(can_come(state, config, cards[0]));
                let i = choose|i: int| 0 <= i < remaining.len() && remaining[i] == cards[0];
                assert(cards =~= seq![remaining[i]]);
            } else {
                assert(can_come(state, config, cards[0]));
                assert(can_come(state, config, cards[1]));
                assert(can_come(state, config, cards[2]));
                let i = choose|i: int| 0 <= i < remaining.len() && remaining[i] == cards[0];
                let j = choose|j: int| 0 <= j < remaining.len() && remaining[j] == cards[1];
                let k = choose|k: int| 0 <= k < remaining.len() && remaining[k] == cards[2];
                assert(cards =~= seq![remaining[i], remaining[j], remaining[k]]);
                assert(i < j) by {
                    assert(cards[0] < cards[1]);
                }
                assert(j < k) by {
                    assert(cards[1] < cards[2]);
                }
            }
            assert(crate::chance::is_choice(remaining, cards, width));
            let i = choose|i: int| 0 <= i < listed.len() && listed[i] == cards;
            assert(outcomes[i].cards@ == cards);
        }
        if exists|i: int| 0 <= i < outcomes.len() && (#[trigger] outcomes[i]).cards@ == cards {
            let i = choose|i: int|
                0 <= i < outcomes.len() && (#[trigger] outcomes[i]).cards@ == cards;
            assert(listed[i] == cards);
            assert(listed.contains(cards));
            if width == 1 {
                let a = choose|a: int| 0 <= a < remaining.len() && cards == seq![
                    #[trigger] remaining[a],
                ];
                assert(remaining.contains(cards[0]));
                assert(can_come(state, config, cards[0]));
            } else {
                let (a, b, c) = choose|a: int, b: int, c: int|
                    #![trigger remaining[a], remaining[b], remaining[c]]
                    0 <= a < b < c < remaining.len() && cards == seq![
                        remaining[a],
                        remaining[b],
                        remaining[c],
                    ];
                assert(remaining.contains(cards[0]) && remaining.contains(cards[1])
                    && remaining.contains(cards[2]));
                assert(can_come(state, config, cards[0]) && can_come(state, config, cards[1])
                    && can_come(state, config, cards[2]));
            }
        }
    }
}

/// An outcome that can be dealt: different cards of the deck with a positive
/// probability.
pub open spec fn usable(outcome: ChanceOutcome) -> bool {
    &&& above_zero(outcome.probability)
    &&& finite(outcome.probability)
    &&& all_cards(outcome.cards@)
    &&& distinct(outcome.cards@)
}

proof fn lemma_usable(outcomes: Seq<ChanceOutcome>, from: int)
    requires
        0 <= from <= outcomes.len(),
    ensures
        outcomes_error(outcomes, from) is None <==> forall|i: int|
            from <= i < outcomes.len() ==> usable(#[trigger] outcomes[i]),
    decreases outcomes.len() - from,
{
    if from < outcomes.len() {
        lemma_first_fault_of_cards(outcomes[from].cards@);
        lemma_usable(outcomes, from + 1);
        if !usable(outcomes[from]) {
            assert(!(forall|i: int| from <= i < outcomes.len() ==> usable(#[trigger] outcomes[i])));
        }
    }
}

/// Configured outcomes are taken as they are, in their order, where there are some,
/// not more than the limit, and all of them can be dealt; and only there.
pub proof fn lemma_configured_outcomes(
    state: GameState,
    next_street: Street,
    config: ChanceConfig,
    result: Result<Vec<ChanceOutcome>, ChanceError>,
)
    requires
        call_ensures(chance_outcomes, (&state, next_street, &config), result),
        config.spec_explicit_for(next_street) is Some,
    ensures
        ({
            let given = config.spec_explicit_for(next_street)->Some_0@;
            let limit = config.max_outcomes_per_node;
            &&& result is Ok <==> given.len() > 0 && (limit == 0 || given.len() <= limit)
                && forall|i: int| 0 <= i < given.len() ==> usable(#[trigger] given[i])
            &&& result matches Ok(outcomes) ==> {
                &&& outcomes@.len() == given.len()
                &&& forall|i: int|
                    0 <= i < given.len() ==> (#[trigger] outcomes@[i]).cards@ == given[i].cards@
                        && outcomes@[i].probability == given[i].probability
            }
        }),
{
    lemma_usable(config.spec_explicit_for(next_street)->Some_0@, 0);
}

} // verus!
