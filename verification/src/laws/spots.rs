//! When a spot can be played, and what it is played with.
use vstd::prelude::*;

use crate::bits::above_zero;
use crate::cards::{has_card, lemma_combo_mask, lemma_has_or, lemma_masks_meet, Combo};
use crate::domain::{GameState, Street};
use crate::laws::picks::{lemma_pick, picks};
use crate::ranges::{WeightedCombo, WeightedRange};
use crate::spot::{
    hero_hand_error, in_range, positive_weights, weights_of, MultiwayHoldemSpotConfig,
    MultiwayHoldemSpotTreeConfig, SpotError,
};
use crate::spot_history::{action_error, deal_error, end_error, HistoryRun};

verus! {

/// One of the hand's cards is dead.
pub open spec fn is_dead(hand: Combo, dead_cards: u64) -> bool {
    has_card(dead_cards, hand.first) || has_card(dead_cards, hand.second)
}

proof fn lemma_dead(hand: Combo, dead_cards: u64)
    requires
        hand.valid(),
    ensures
        hand.spec_mask() & dead_cards != 0 <==> is_dead(hand, dead_cards),
{
    lemma_masks_meet(hand.spec_mask(), dead_cards);
    lemma_combo_mask(hand, hand.first);
    lemma_combo_mask(hand, hand.second);
    if hand.spec_mask() & dead_cards != 0 {
        let card = choose|card: u8|
            card < 64 && has_card(hand.spec_mask(), card) && has_card(dead_cards, card);
        lemma_combo_mask(hand, card);
    }
}

/// The range gives the hand a weight above zero.
pub open spec fn can_hold(range: Seq<WeightedCombo>, hand: Combo) -> bool {
    exists|i: int|
        0 <= i < range.len() && (#[trigger] range[i]).combo == hand && above_zero(range[i].weight)
}

/// The hands from `from` on differ from all before them, hold no dead card and lie
/// in the range.
pub open spec fn playable_hands(
    hands: Seq<Combo>,
    dead_cards: u64,
    range: Seq<WeightedCombo>,
    from: int,
) -> bool {
    forall|k: int|
        from <= k < hands.len() ==> {
            &&& !is_dead(#[trigger] hands[k], dead_cards)
            &&& can_hold(range, hands[k])
            &&& forall|j: int| 0 <= j < k ==> #[trigger] hands[j] != hands[k]
        }
}

proof fn lemma_hero_hands(
    hands: Seq<Combo>,
    dead_cards: u64,
    range: Seq<WeightedCombo>,
    from: int,
)
    requires
        0 <= from <= hands.len(),
        forall|i: int| 0 <= i < hands.len() ==> (#[trigger] hands[i]).valid(),
    ensures
        hero_hand_error(hands, dead_cards, range, from) is None <==> playable_hands(
            hands,
            dead_cards,
            range,
            from,
        ),
        hero_hand_error(hands, dead_cards, range, from) matches Some(error) ==> match error {
            SpotError::DuplicateHeroHand { hand } => exists|i: int, j: int|
                0 <= i < j < hands.len() && hands[i] == hand && hands[j] == hand,
            SpotError::DeadHeroHand { hand } => hands.contains(hand) && is_dead(hand, dead_cards),
            SpotError::HeroHandNotInRange { hand } => hands.contains(hand) && !can_hold(
                range,
                hand,
            ),
            _ => false,
        },
    decreases hands.len() - from,
{
    if from < hands.len() {
        lemma_dead(hands[from], dead_cards);
        lemma_hero_hands(hands, dead_cards, range, from + 1);
        let front = hands.take(from);
        if front.contains(hands[from]) {
            let j = choose|j: int| 0 <= j < front.len() && front[j] == hands[from];
            assert(hands[j] == hands[from]);
        } else {
            assert forall|j: int| 0 <= j < from implies #[trigger] hands[j] != hands[from] by {
                assert(front[j] == hands[j]);
            }
        }
        assert(in_range(range, hands[from]) == can_hold(range, hands[from]));
    }
}

/// A spot can be played exactly with three to eight seats, a range for each, a hero
/// among them with hands of its range that no dead card meets, and counts above
/// zero.
pub proof fn lemma_playable_spots(
    config: MultiwayHoldemSpotConfig,
    result: Result<(), SpotError>,
)
    requires
        call_ensures(MultiwayHoldemSpotConfig::validate, (&config,), result),
        config.hands_valid(),
    ensures
        result is Ok <==> {
            &&& 3 <= config.table.table_size <= 8
            &&& config.ranges@.len() == config.table.table_size
            &&& config.hero_player < config.table.table_size
            &&& config.hero_hands@.len() > 0
            &&& config.max_private_attempts > 0
            &&& config.worker_count > 0
            &&& config.reduction_batch_size > 0
            &&& playable_hands(
                config.hero_hands@,
                config.dead_cards,
                config.ranges@[config.hero_player as int].combos@,
                0,
            )
        },
        result matches Err(error) ==> match error {
            SpotError::TableSize { size } => size == config.table.table_size && !(3 <= size <= 8),
            SpotError::RangeCount { ranges, expected } => config.ranges@.len()
                != config.table.table_size && expected == config.table.table_size,
            SpotError::HeroOutsideTable { hero, size } => hero == config.hero_player && size
                == config.table.table_size && hero >= size,
            SpotError::NoHeroHands => config.hero_hands@.len() == 0,
            SpotError::ZeroMaxPrivateAttempts => config.max_private_attempts == 0,
            SpotError::ZeroWorkerCount => config.worker_count == 0,
            SpotError::ZeroReductionBatchSize => config.reduction_batch_size == 0,
            SpotError::DuplicateHeroHand { hand } => exists|i: int, j: int|
                0 <= i < j < config.hero_hands@.len() && config.hero_hands@[i] == hand
                    && config.hero_hands@[j] == hand,
            SpotError::DeadHeroHand { hand } => config.hero_hands@.contains(hand) && is_dead(
                hand,
                config.dead_cards,
            ),
            SpotError::HeroHandNotInRange { hand } => config.hero_hands@.contains(hand)
                && !can_hold(config.ranges@[config.hero_player as int].combos@, hand),
            _ => false,
        },
{
    if 3 <= config.table.table_size <= 8 && config.ranges@.len() == config.table.table_size
        && config.hero_player < config.table.table_size {
        lemma_hero_hands(
            config.hero_hands@,
            config.dead_cards,
            config.ranges@[config.hero_player as int].combos@,
            0,
        );
    }
}

/// The entries of a range that give a hand a weight above zero.
pub open spec fn gives_weight(range: Seq<WeightedCombo>, hand: Combo) -> spec_fn(int) -> bool {
    |i: int| range[i].combo == hand && above_zero(range[i].weight)
}

proof fn lemma_weights_from(range: Seq<WeightedCombo>, hand: Combo, count: int) -> (origin: Seq<int>)
    requires
        0 <= count <= range.len(),
    ensures
        picks(origin, count, gives_weight(range, hand)),
        weights_of(range, hand, count) == origin.map_values(|i: int| range[i].weight),
    decreases count,
{
    if count == 0 {
        let origin = Seq::<int>::empty();
        assert(weights_of(range, hand, count) =~= origin.map_values(|i: int| range[i].weight));
        origin
    } else {
        let rest = lemma_weights_from(range, hand, count - 1);
        let origin = lemma_pick(rest, count - 1, gives_weight(range, hand));
        assert(weights_of(range, hand, count) =~= origin.map_values(|i: int| range[i].weight));
        origin
    }
}

/// The positive weights of a hand are those of the entries that name it, each once
/// and in the order of the range.
pub proof fn lemma_positive_weights(range: WeightedRange, hand: Combo, weights: Vec<u64>) -> (origin:
    Seq<int>)
    requires
        call_ensures(positive_weights, (&range, hand), weights),
    ensures
        picks(origin, range.combos@.len() as int, gives_weight(range.combos@, hand)),
        weights@.len() == origin.len(),
        forall|k: int|
            0 <= k < origin.len() ==> #[trigger] weights@[k] == range.combos@[origin[k]].weight,
{
    lemma_weights_from(range.combos@, hand, range.combos@.len() as int)
}

/// A tree over all streets with an order of its own keeps it; any other takes the
/// order of the table.
pub proof fn lemma_order_after_the_flop(
    config: MultiwayHoldemSpotConfig,
    table_order: Vec<usize>,
    order: Vec<usize>,
)
    requires
        call_ensures(
            MultiwayHoldemSpotConfig::effective_postflop_order,
            (&config, &table_order),
            order,
        ),
    ensures
        config.tree is Full && config.tree->Full_0.postflop_order@.len() > 0 ==> order@
            == config.tree->Full_0.postflop_order@,
        config.tree is Round || config.tree->Full_0.postflop_order@.len() == 0 ==> order@
            == table_order@,
{
}

/// A card is dead to the solver exactly where it is dead in the spot, lies on the
/// board, or lies in every outcome of a street to come.
pub proof fn lemma_dead_to_the_solver(
    config: MultiwayHoldemSpotConfig,
    card: u8,
    result: Result<u64, SpotError>,
)
    requires
        call_ensures(MultiwayHoldemSpotConfig::solver_dead_cards, (&config,), result),
        card < 64,
    ensures
        result matches Ok(mask) ==> (has_card(mask, card) <==> {
            ||| has_card(config.dead_cards, card)
            ||| config.board_cards@.contains(card)
            ||| config.tree matches MultiwayHoldemSpotTreeConfig::Full(full) && {
                let board = config.board_cards@.len();
                ||| board < 3 && full.chance.flop is Some && in_every(
                    full.chance.flop->Some_0@,
                    card,
                )
                ||| board < 4 && full.chance.turn is Some && in_every(
                    full.chance.turn->Some_0@,
                    card,
                )
                ||| board < 5 && full.chance.river is Some && in_every(
                    full.chance.river->Some_0@,
                    card,
                )
            }
        }),
{
    if result is Ok {
        let mask = crate::spot::certain_mask(config)->Ok_0;
        crate::spot::lemma_certain_cards(config, card);
        lemma_has_or(config.dead_cards, mask, card);
    }
}

/// Some outcomes are listed and all of them have the card.
pub open spec fn in_every(outcomes: Seq<crate::tree::ChanceOutcome>, card: u8) -> bool {
    outcomes.len() > 0 && forall|i: int|
        0 <= i < outcomes.len() ==> (#[trigger] outcomes[i]).cards@.contains(card)
}

/// The cards due at the end of a street: three before the flop, one on the flop and
/// one on the turn; none is due on the river. They are dealt exactly where the board
/// still has as many.
pub proof fn lemma_due_cards(state: GameState, remaining: int)
    requires
        0 <= remaining <= usize::MAX,
    ensures
        deal_error(state, remaining) is None <==> match state.street {
            Street::Preflop => remaining >= 3,
            Street::Flop => remaining >= 1,
            Street::Turn => remaining >= 1,
            Street::River => false,
        },
        remaining == 0 ==> deal_error(state, remaining) == Some(SpotError::BetweenRounds),
        state.street is Preflop && (remaining == 1 || remaining == 2) ==> deal_error(
            state,
            remaining,
        ) == Some(SpotError::ShortBoard { remaining: remaining as usize, needed: 3 }),
        state.street is River && remaining > 0 ==> deal_error(state, remaining) == Some(
            SpotError::ShortBoard { remaining: remaining as usize, needed: 0 },
        ),
{
}

/// An action of the history is taken only while the hand runs and only by the player
/// whose turn it is.
pub proof fn lemma_actions_in_turn(
    config: MultiwayHoldemSpotConfig,
    state: GameState,
    index: usize,
)
    requires
        index < config.action_history@.len(),
    ensures
        action_error(config, state, index) is None <==> state.terminal is None && state.actor
            == Some(config.action_history@[index as int].player),
        action_error(config, state, index) matches Some(error) ==> match error {
            SpotError::AfterTerminal { index: at } => at == index && state.terminal is Some,
            SpotError::WrongActor { index: at, player, actor } => at == index && actor
                == state.actor && state.terminal is None && player
                == config.action_history@[index as int].player && actor != Some(player),
            _ => false,
        },
{
}

/// A history leads to the spot exactly where the hand runs, the whole board is
/// played, and it is the hero's turn.
pub proof fn lemma_spot_is_reached(
    config: MultiwayHoldemSpotConfig,
    state: GameState,
    board: int,
)
    requires
        0 <= board <= config.board_cards@.len() <= usize::MAX,
    ensures
        end_error(config, state, board) is None <==> {
            &&& state.terminal is None
            &&& board == config.board_cards@.len()
            &&& state.actor == Some(config.hero_player)
        },
        end_error(config, state, board) matches Some(error) ==> match error {
            SpotError::TerminalState => state.terminal is Some,
            SpotError::BetweenRounds => state.terminal is None && state.actor is None,
            SpotError::UnusedBoard { remaining } => remaining > 0 && board + remaining
                == config.board_cards@.len(),
            SpotError::NotHero { actor, hero } => actor == state.actor && hero
                == config.hero_player && actor != Some(hero) && actor is Some,
            _ => false,
        },
{
}

/// Cards are due only after an action, when nobody is left to act and the hand runs.
pub proof fn lemma_when_cards_are_due(run: HistoryRun, state: GameState)
    ensures
        run.deals(state) <==> run.acted && state.actor is None && state.terminal is None,
{
}

} // verus!
