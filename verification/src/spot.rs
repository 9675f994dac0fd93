//! A spot: a table, the actions seen so far, and the decision of one player.
//!
//! Ranges are not narrowed by the history: they are those of the spot.
use vstd::prelude::*;

use crate::bits::{above_zero, is_above_zero};
use crate::card_abstraction::CardAbstractionSpec;
use crate::cards::{
    all_cards, cards_mask, first_card_error, has_card, lemma_cards_mask, lemma_has_and,
    lemma_has_or, lemma_masks_meet, mask_from_cards, Card, CardError, Combo, DeckMask,
};
use crate::domain::{Action, AnteMode, Chips, PlayerId};
use crate::ranges::{WeightedCombo, WeightedRange};
use crate::tree::{ChanceOutcome, GameTree, LeafKind, TreeNode};
use crate::tree_builder::{FullTreeBuildConfig, TreeBuildConfig};

verus! {

/// Version of the format of results. Readers take a result without a tree index
/// for one of an older version.
pub const MULTIWAY_HOLDEM_SPOT_RESULT_SCHEMA_VERSION: u32 = 2;

#[derive(Debug, Clone, Copy, PartialEq, Eq, Structural)]
pub struct MultiwayHoldemSpotAction {
    pub player: PlayerId,
    pub action: Action,
}

#[derive(Debug)]
pub struct TableConfig {
    pub table_size: usize,
    pub button: usize,
    pub small_blind: Chips,
    pub big_blind: Chips,
    pub ante: Chips,
    pub ante_mode: AnteMode,
    pub stacks: Vec<Chips>,
    pub dead_money: Chips,
}

pub enum MultiwayHoldemSpotTreeConfig {
    /// The current betting round only, for inspection.
    Round(TreeBuildConfig),
    /// The current round and what follows it.
    Full(FullTreeBuildConfig),
}

pub struct MultiwayHoldemSpotConfig {
    pub table: TableConfig,
    /// Actions seen before the decision.
    pub action_history: Vec<MultiwayHoldemSpotAction>,
    /// One range per seat.
    pub ranges: Vec<WeightedRange>,
    pub dead_cards: DeckMask,
    /// The board at the decision: none, or three, four or five cards.
    pub board_cards: Vec<Card>,
    pub tree: MultiwayHoldemSpotTreeConfig,
    pub hero_player: PlayerId,
    pub hero_hands: Vec<Combo>,
    pub hero_label: String,
    pub seed: u64,
    /// Zero stands for the fingerprint of the tree.
    pub config_fingerprint: u64,
    pub max_private_attempts: usize,
    pub worker_count: usize,
    pub reduction_batch_size: usize,
    pub card_abstraction: Option<CardAbstractionSpec>,
    /// Deals sampled to estimate what merging costs; zero asks for no estimate.
    pub blocking_samples: usize,
}

#[derive(Debug, Clone, Copy, PartialEq, Eq, Structural)]
pub enum SpotError {
    TableSize { size: usize },
    RangeCount { ranges: usize, expected: usize },
    HeroOutsideTable { hero: usize, size: usize },
    NoHeroHands,
    ZeroMaxPrivateAttempts,
    ZeroWorkerCount,
    ZeroReductionBatchSize,
    DuplicateHeroHand { hand: Combo },
    DeadHeroHand { hand: Combo },
    HeroHandNotInRange { hand: Combo },
    BadCards(CardError),
    PublicCardConflict,
    AfterTerminal { index: usize },
    WrongActor { index: usize, player: usize, actor: Option<usize> },
    BetweenRounds,
    ShortBoard { remaining: usize, needed: usize },
    TerminalState,
    UnusedBoard { remaining: usize },
    NotHero { actor: Option<usize>, hero: usize },
    RoundCompleteLeaves,
    ZeroIterations,
    NoRequestedWeight,
    NoHandVisited,
    DifferentActions { hand: Combo },
}

/// The hand is in the range with a weight above zero.
pub open spec fn in_range(combos: Seq<WeightedCombo>, hand: Combo) -> bool {
    exists|i: int|
        0 <= i < combos.len() && (#[trigger] combos[i]).combo == hand && above_zero(
            combos[i].weight,
        )
}

/// The first thing wrong with the hero hands from `from` on.
pub open spec fn hero_hand_error(
    hands: Seq<Combo>,
    dead_cards: u64,
    range: Seq<WeightedCombo>,
    from: int,
) -> Option<SpotError>
    decreases hands.len() - from,
{
    if from >= hands.len() {
        None
    } else if hands.take(from).contains(hands[from]) {
        Some(SpotError::DuplicateHeroHand { hand: hands[from] })
    } else if hands[from].spec_mask() & dead_cards != 0 {
        Some(SpotError::DeadHeroHand { hand: hands[from] })
    } else if !in_range(range, hands[from]) {
        Some(SpotError::HeroHandNotInRange { hand: hands[from] })
    } else {
        hero_hand_error(hands, dead_cards, range, from + 1)
    }
}

/// The first thing wrong with a spot.
pub open spec fn spot_error(config: MultiwayHoldemSpotConfig) -> Option<SpotError> {
    let size = config.table.table_size;
    if !(3 <= size <= 8) {
        Some(SpotError::TableSize { size })
    } else if config.ranges@.len() != size {
        Some(SpotError::RangeCount { ranges: config.ranges@.len() as usize, expected: size })
    } else if config.hero_player >= size {
        Some(SpotError::HeroOutsideTable { hero: config.hero_player, size })
    } else if config.hero_hands@.len() == 0 {
        Some(SpotError::NoHeroHands)
    } else if config.max_private_attempts == 0 {
        Some(SpotError::ZeroMaxPrivateAttempts)
    } else if config.worker_count == 0 {
        Some(SpotError::ZeroWorkerCount)
    } else if config.reduction_batch_size == 0 {
        Some(SpotError::ZeroReductionBatchSize)
    } else {
        hero_hand_error(
            config.hero_hands@,
            config.dead_cards,
            config.ranges@[config.hero_player as int].combos@,
            0,
        )
    }
}

fn holds_hand(hands: &Vec<Combo>, hand: Combo, count: usize) -> (yes: bool)
    requires
        count <= hands@.len(),
    ensures
        yes == hands@.take(count as int).contains(hand),
{
    let mut index: usize = 0;
    while index < count
        invariant
            index <= count <= hands@.len(),
            forall|i: int| 0 <= i < index ==> #[trigger] hands@[i] != hand,
        decreases count - index,
    {
        if hands[index] == hand {
            assert(hands@.take(count as int)[index as int] == hand);
            return true;
        }
        index = index + 1;
    }
    false
}

fn is_in_range(range: &WeightedRange, hand: Combo) -> (yes: bool)
    ensures
        yes == in_range(range.combos@, hand),
{
    let mut index: usize = 0;
    while index < range.combos.len()
        invariant
            index <= range.combos@.len(),
            forall|i: int|
                0 <= i < index ==> !((#[trigger] range.combos@[i]).combo == hand && above_zero(
                    range.combos@[i].weight,
                )),
        decreases range.combos.len() - index,
    {
        if range.combos[index].combo == hand && is_above_zero(range.combos[index].weight) {
            assert(range.combos@[index as int].combo == hand);
            return true;
        }
        index = index + 1;
    }
    false
}

/// The weights above zero that the range gives a hand, in its order.
pub open spec fn weights_of(combos: Seq<WeightedCombo>, hand: Combo, count: int) -> Seq<u64>
    decreases count,
{
    if count <= 0 {
        Seq::empty()
    } else if combos[count - 1].combo == hand && above_zero(combos[count - 1].weight) {
        weights_of(combos, hand, count - 1).push(combos[count - 1].weight)
    } else {
        weights_of(combos, hand, count - 1)
    }
}

/// Lists the weights above zero that the range gives a hand.
pub fn positive_weights(range: &WeightedRange, hand: Combo) -> (weights: Vec<u64>)
    ensures
        weights@ == weights_of(range.combos@, hand, range.combos@.len() as int),
{
    let mut weights: Vec<u64> = Vec::new();
    let mut index: usize = 0;
    while index < range.combos.len()
        invariant
            index <= range.combos@.len(),
            weights@ == weights_of(range.combos@, hand, index as int),
        decreases range.combos.len() - index,
    {
        if range.combos[index].combo == hand && is_above_zero(range.combos[index].weight) {
            weights.push(range.combos[index].weight);
        }
        index = index + 1;
    }
    weights
}


/// The first outcome whose cards are no set.
pub open spec fn first_outcome_error(outcomes: Seq<ChanceOutcome>, from: int) -> Option<CardError>
    decreases outcomes.len() - from,
{
    if from >= outcomes.len() {
        None
    } else if first_card_error(outcomes[from].cards@, 0) is Some {
        first_card_error(outcomes[from].cards@, 0)
    } else {
        first_outcome_error(outcomes, from + 1)
    }
}

/// The cards that lie in each of the first `count` outcomes.
pub open spec fn shared_cards(outcomes: Seq<ChanceOutcome>, count: int) -> u64
    decreases count,
{
    if count <= 1 {
        cards_mask(outcomes[0].cards@)
    } else {
        shared_cards(outcomes, count - 1) & cards_mask(outcomes[count - 1].cards@)
    }
}

/// The mask after a street was looked at: the cards that are in all its
/// outcomes are certain, unless the street is behind.
pub open spec fn street_certain(
    mask: u64,
    outcomes: Option<Vec<ChanceOutcome>>,
    board: nat,
    least: int,
) -> Result<u64, SpotError> {
    if board >= least {
        Ok(mask)
    } else {
        match outcomes {
            None => Ok(mask),
            Some(list) => match first_outcome_error(list@, 0) {
                Some(error) => Err(SpotError::BadCards(error)),
                None => if list@.len() == 0 {
                    Ok(mask)
                } else if shared_cards(list@, list@.len() as int) & mask != 0 {
                    Err(SpotError::PublicCardConflict)
                } else {
                    Ok(mask | shared_cards(list@, list@.len() as int))
                },
            },
        }
    }
}

/// The cards that are certain to lie on the board.
pub open spec fn certain_mask(config: MultiwayHoldemSpotConfig) -> Result<u64, SpotError> {
    let board = config.board_cards@.len();
    match first_card_error(config.board_cards@, 0) {
        Some(error) => Err(SpotError::BadCards(error)),
        None => {
            let start = cards_mask(config.board_cards@);
            match config.tree {
                MultiwayHoldemSpotTreeConfig::Round(_) => Ok(start),
                MultiwayHoldemSpotTreeConfig::Full(full) => match street_certain(
                    start,
                    full.chance.flop,
                    board,
                    3,
                ) {
                    Err(error) => Err(error),
                    Ok(flop) => match street_certain(flop, full.chance.turn, board, 4) {
                        Err(error) => Err(error),
                        Ok(turn) => street_certain(turn, full.chance.river, board, 5),
                    },
                },
            }
        },
    }
}

fn add_certain_street(
    mask: DeckMask,
    outcomes: &Option<Vec<ChanceOutcome>>,
    board: usize,
    least: usize,
) -> (result: Result<DeckMask, SpotError>)
    ensures
        result == street_certain(mask, *outcomes, board as nat, least as int),
{
    if board >= least {
        return Ok(mask);
    }
    match outcomes {
        None => Ok(mask),
        Some(list) => {
            let mut shared: DeckMask = 0;
            let mut index: usize = 0;
            while index < list.len()
                invariant
                    index <= list@.len(),
                    board < least,
                    *outcomes == Some(*list),
                    first_outcome_error(list@, 0) == first_outcome_error(list@, index as int),
                    index > 0 ==> shared == shared_cards(list@, index as int),
                decreases list.len() - index,
            {
                match mask_from_cards(list[index].cards.as_slice()) {
                    Err(error) => {
                        return Err(SpotError::BadCards(error));
                    },
                    Ok(found) => {
                        if index == 0 {
                            shared = found;
                        } else {
                            shared = shared & found;
                        }
                    },
                }
                index = index + 1;
            }
            if list.len() == 0 {
                return Ok(mask);
            }
            if shared & mask != 0 {
                return Err(SpotError::PublicCardConflict);
            }
            Ok(mask | shared)
        },
    }
}

/// The players who act after the flop, in order.
pub open spec fn postflop_order(
    tree: MultiwayHoldemSpotTreeConfig,
    table_order: Seq<usize>,
) -> Seq<usize> {
    match tree {
        MultiwayHoldemSpotTreeConfig::Full(full) => if full.postflop_order@.len() == 0 {
            table_order
        } else {
            full.postflop_order@
        },
        MultiwayHoldemSpotTreeConfig::Round(_) => table_order,
    }
}

/// A leaf at which the betting round is over and the hand is not.
pub open spec fn is_round_complete(node: TreeNode) -> bool {
    node.leaf == Some(LeafKind::RoundComplete)
}

impl MultiwayHoldemSpotConfig {
    pub open spec fn hands_valid(self) -> bool {
        forall|i: int| 0 <= i < self.hero_hands@.len() ==> (#[trigger] self.hero_hands@[i]).valid()
    }

    /// The cards that are certain to lie on the board: those that already do, and
    /// those in every outcome of a street to come. They cannot be in a hand.
    pub fn certain_public_mask(&self) -> (result: Result<DeckMask, SpotError>)
        ensures
            result == certain_mask(*self),
    {
        let start = match mask_from_cards(self.board_cards.as_slice()) {
            Err(error) => {
                return Err(SpotError::BadCards(error));
            },
            Ok(mask) => mask,
        };
        let board = self.board_cards.len();
        match &self.tree {
            MultiwayHoldemSpotTreeConfig::Round(_) => Ok(start),
            MultiwayHoldemSpotTreeConfig::Full(full) => {
                let flop = match add_certain_street(start, &full.chance.flop, board, 3) {
                    Err(error) => {
                        return Err(error);
                    },
                    Ok(mask) => mask,
                };
                let turn = match add_certain_street(flop, &full.chance.turn, board, 4) {
                    Err(error) => {
                        return Err(error);
                    },
                    Ok(mask) => mask,
                };
                add_certain_street(turn, &full.chance.river, board, 5)
            },
        }
    }

    /// Checks everything but the history.
    pub fn validate(&self) -> (result: Result<(), SpotError>)
        requires
            self.hands_valid(),
        ensures
            match result {
                Ok(_) => spot_error(*self) is None,
                Err(error) => spot_error(*self) == Some(error),
            },
    {
        let size = self.table.table_size;
        if size < 3 || size > 8 {
            return Err(SpotError::TableSize { size });
        }
        if self.ranges.len() != size {
            return Err(SpotError::RangeCount { ranges: self.ranges.len(), expected: size });
        }
        if self.hero_player >= size {
            return Err(SpotError::HeroOutsideTable { hero: self.hero_player, size });
        }
        if self.hero_hands.len() == 0 {
            return Err(SpotError::NoHeroHands);
        }
        if self.max_private_attempts == 0 {
            return Err(SpotError::ZeroMaxPrivateAttempts);
        }
        if self.worker_count == 0 {
            return Err(SpotError::ZeroWorkerCount);
        }
        if self.reduction_batch_size == 0 {
            return Err(SpotError::ZeroReductionBatchSize);
        }
        let range = &self.ranges[self.hero_player];
        let mut index: usize = 0;
        while index < self.hero_hands.len()
            invariant
                index <= self.hero_hands@.len(),
                self.hands_valid(),
                *range == self.ranges@[self.hero_player as int],
                spot_error(*self) == hero_hand_error(
                    self.hero_hands@,
                    self.dead_cards,
                    range.combos@,
                    index as int,
                ),
            decreases self.hero_hands.len() - index,
        {
            let hand = self.hero_hands[index];
            if holds_hand(&self.hero_hands, hand, index) {
                return Err(SpotError::DuplicateHeroHand { hand });
            }
            if hand.conflicts(self.dead_cards) {
                return Err(SpotError::DeadHeroHand { hand });
            }
            if !is_in_range(range, hand) {
                return Err(SpotError::HeroHandNotInRange { hand });
            }
            index = index + 1;
        }
        Ok(())
    }

    /// The order of the tree if it sets one, otherwise that of the table.
    pub fn effective_postflop_order(&self, table_order: &Vec<PlayerId>) -> (order: Vec<PlayerId>)
        ensures
            order@ == postflop_order(self.tree, table_order@),
    {
        let order = match &self.tree {
            MultiwayHoldemSpotTreeConfig::Full(full) => if full.postflop_order.len() == 0 {
                table_order.clone()
            } else {
                full.postflop_order.clone()
            },
            MultiwayHoldemSpotTreeConfig::Round(_) => table_order.clone(),
        };
        assert(order@ =~= postflop_order(self.tree, table_order@));
        order
    }

    /// A solver needs a tree that plays every hand to its end.
    pub fn check_solver_tree(&self, tree: &GameTree) -> (result: Result<(), SpotError>)
        ensures
            match result {
                Ok(_) => forall|i: int|
                    0 <= i < tree.nodes@.len() ==> !is_round_complete(#[trigger] tree.nodes@[i]),
                Err(error) => {
                    &&& error == SpotError::RoundCompleteLeaves
                    &&& exists|i: int|
                        0 <= i < tree.nodes@.len() && is_round_complete(#[trigger] tree.nodes@[i])
                },
            },
    {
        let mut index: usize = 0;
        while index < tree.nodes.len()
            invariant
                index <= tree.nodes@.len(),
                forall|i: int| 0 <= i < index ==> !is_round_complete(#[trigger] tree.nodes@[i]),
            decreases tree.nodes.len() - index,
        {
            match tree.nodes[index].leaf {
                Some(LeafKind::RoundComplete) => {
                    assert(is_round_complete(tree.nodes@[index as int]));
                    return Err(SpotError::RoundCompleteLeaves);
                },
                _ => {},
            }
            index = index + 1;
        }
        Ok(())
    }

    /// The fingerprint of the settings: that of the tree, unless one is set.
    pub fn solver_fingerprint(&self, tree_fingerprint: u64) -> (fingerprint: u64)
        ensures
            fingerprint == if self.config_fingerprint == 0 {
                tree_fingerprint
            } else {
                self.config_fingerprint
            },
    {
        if self.config_fingerprint == 0 {
            tree_fingerprint
        } else {
            self.config_fingerprint
        }
    }

    /// The cards that no hand can hold.
    pub fn solver_dead_cards(&self) -> (result: Result<DeckMask, SpotError>)
        ensures
            match certain_mask(*self) {
                Ok(mask) => result == Ok::<u64, SpotError>(self.dead_cards | mask),
                Err(error) => result == Err::<u64, SpotError>(error),
            },
    {
        match self.certain_public_mask() {
            Ok(mask) => Ok(self.dead_cards | mask),
            Err(error) => Err(error),
        }
    }
}

/// A street to come whose outcomes all have the card.
pub open spec fn street_brings(
    outcomes: Option<Vec<ChanceOutcome>>,
    board: nat,
    least: int,
    card: u8,
) -> bool {
    &&& board < least
    &&& outcomes matches Some(list)
    &&& list@.len() > 0
    &&& forall|i: int| 0 <= i < list@.len() ==> (#[trigger] list@[i]).cards@.contains(card)
}

proof fn lemma_outcome_cards(outcomes: Seq<ChanceOutcome>, from: int, index: int)
    requires
        0 <= from <= index < outcomes.len(),
        first_outcome_error(outcomes, from) is None,
    ensures
        first_card_error(outcomes[index].cards@, 0) is None,
    decreases outcomes.len() - from,
{
    if from < index {
        lemma_outcome_cards(outcomes, from + 1, index);
    }
}

proof fn lemma_shared_cards(outcomes: Seq<ChanceOutcome>, count: int, card: u8)
    requires
        0 < count <= outcomes.len(),
        first_outcome_error(outcomes, 0) is None,
        card < 64,
    ensures
        has_card(shared_cards(outcomes, count), card) <==> forall|i: int|
            0 <= i < count ==> (#[trigger] outcomes[i]).cards@.contains(card),
    decreases count,
{
    lemma_outcome_cards(outcomes, 0, count - 1);
    lemma_no_card_error(outcomes[count - 1].cards@, 0);
    lemma_cards_mask(outcomes[count - 1].cards@, card);
    if count > 1 {
        lemma_shared_cards(outcomes, count - 1, card);
        lemma_has_and(
            shared_cards(outcomes, count - 1),
            cards_mask(outcomes[count - 1].cards@),
            card,
        );
    }
}

proof fn lemma_no_card_error(cards: Seq<u8>, from: int)
    requires
        0 <= from,
        first_card_error(cards, from) is None,
    ensures
        forall|i: int| from <= i < cards.len() ==> #[trigger] cards[i] < crate::cards::DECK_SIZE,
        from == 0 ==> all_cards(cards),
    decreases cards.len() - from,
{
    if from < cards.len() {
        lemma_no_card_error(cards, from + 1);
    }
}

proof fn lemma_street_certain(
    mask: u64,
    outcomes: Option<Vec<ChanceOutcome>>,
    board: nat,
    least: int,
    card: u8,
)
    requires
        street_certain(mask, outcomes, board, least) is Ok,
        card < 64,
    ensures
        has_card(street_certain(mask, outcomes, board, least)->Ok_0, card) <==> has_card(mask, card)
            || street_brings(outcomes, board, least, card),
{
    if board < least && outcomes is Some {
        let list = outcomes->0;
        if list@.len() > 0 {
            lemma_shared_cards(list@, list@.len() as int, card);
            lemma_has_or(mask, shared_cards(list@, list@.len() as int), card);
        }
    }
}

/// A card is certain to lie on the board exactly if it already does, or if it
/// is in every outcome of a street to come.
pub proof fn lemma_certain_cards(config: MultiwayHoldemSpotConfig, card: u8)
    requires
        certain_mask(config) is Ok,
        card < 64,
    ensures
        has_card(certain_mask(config)->Ok_0, card) <==> {
            ||| config.board_cards@.contains(card)
            ||| config.tree matches MultiwayHoldemSpotTreeConfig::Full(full) && {
                ||| street_brings(full.chance.flop, config.board_cards@.len(), 3, card)
                ||| street_brings(full.chance.turn, config.board_cards@.len(), 4, card)
                ||| street_brings(full.chance.river, config.board_cards@.len(), 5, card)
            }
        },
{
    let board = config.board_cards@.len();
    let start = cards_mask(config.board_cards@);
    lemma_no_card_error(config.board_cards@, 0);
    lemma_cards_mask(config.board_cards@, card);
    match config.tree {
        MultiwayHoldemSpotTreeConfig::Round(_) => {},
        MultiwayHoldemSpotTreeConfig::Full(full) => {
            let flop = street_certain(start, full.chance.flop, board, 3)->Ok_0;
            let turn = street_certain(flop, full.chance.turn, board, 4)->Ok_0;
            lemma_street_certain(start, full.chance.flop, board, 3, card);
            lemma_street_certain(flop, full.chance.turn, board, 4, card);
            lemma_street_certain(turn, full.chance.river, board, 5, card);
        },
    }
}

/// The only outcome of a street to come.
pub open spec fn only_outcome(
    outcomes: Option<Vec<ChanceOutcome>>,
    board: nat,
    least: int,
    cards: Seq<u8>,
) -> bool {
    &&& board < least
    &&& outcomes matches Some(list)
    &&& list@.len() == 1
    &&& list@[0].cards@ == cards
}

/// Hands without a certain card never meet the cards of a street that has only
/// one outcome: a fixed run of cards can always be dealt.
pub proof fn lemma_fixed_cards_can_be_dealt(
    config: MultiwayHoldemSpotConfig,
    cards: Seq<u8>,
    hands: u64,
)
    requires
        certain_mask(config) is Ok,
        hands & certain_mask(config)->Ok_0 == 0,
        config.tree matches MultiwayHoldemSpotTreeConfig::Full(full) && {
            ||| only_outcome(full.chance.flop, config.board_cards@.len(), 3, cards)
            ||| only_outcome(full.chance.turn, config.board_cards@.len(), 4, cards)
            ||| only_outcome(full.chance.river, config.board_cards@.len(), 5, cards)
        },
    ensures
        cards_mask(cards) & hands == 0,
{
    let certain = certain_mask(config)->Ok_0;
    let full = config.tree->Full_0;
    let board = config.board_cards@.len();
    let start = cards_mask(config.board_cards@);
    let flop = street_certain(start, full.chance.flop, board, 3);
    let turn = street_certain(flop->Ok_0, full.chance.turn, board, 4);
    assert(all_cards(cards)) by {
        if only_outcome(full.chance.flop, board, 3, cards) {
            lemma_outcome_cards(full.chance.flop->0@, 0, 0);
        } else if only_outcome(full.chance.turn, board, 4, cards) {
            lemma_outcome_cards(full.chance.turn->0@, 0, 0);
        } else {
            lemma_outcome_cards(full.chance.river->0@, 0, 0);
        }
        lemma_no_card_error(cards, 0);
    }
    lemma_masks_meet(cards_mask(cards), hands);
    lemma_masks_meet(hands, certain);
    if cards_mask(cards) & hands != 0 {
        let card = choose|card: u8|
            card < 64 && has_card(cards_mask(cards), card) && has_card(hands, card);
        lemma_cards_mask(cards, card);
        lemma_certain_cards(config, card);
        if only_outcome(full.chance.flop, board, 3, cards) {
            assert(street_brings(full.chance.flop, board, 3, card));
        } else if only_outcome(full.chance.turn, board, 4, cards) {
            assert(street_brings(full.chance.turn, board, 4, card));
        } else {
            assert(street_brings(full.chance.river, board, 5, card));
        }
        assert(has_card(certain, card));
    }
}

} // verus!
