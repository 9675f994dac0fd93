//! Cards, deck masks and private combos.
use vstd::prelude::*;

verus! {

/// A card: four times its rank (deuce zero, ace twelve) plus its suit.
pub type Card = u8;

/// A set of cards, one bit for each.
pub type DeckMask = u64;

pub const DECK_SIZE: u8 = 52;

pub const FULL_DECK: u64 = 0x000f_ffff_ffff_ffff;

/// `card` lies in `mask`.
pub open spec fn has_card(mask: u64, card: u8) -> bool {
    (mask >> (card as u64)) & 1 == 1
}

/// The mask of one card.
pub open spec fn card_bit(card: u8) -> u64 {
    1u64 << (card as u64)
}

/// No two positions hold one card.
pub open spec fn distinct(cards: Seq<u8>) -> bool {
    forall|i: int, j: int| 0 <= i < j < cards.len() ==> cards[i] != cards[j]
}

pub open spec fn all_cards(cards: Seq<u8>) -> bool {
    forall|i: int| 0 <= i < cards.len() ==> #[trigger] cards[i] < DECK_SIZE
}

/// The mask of all `cards`.
pub open spec fn cards_mask(cards: Seq<u8>) -> u64
    decreases cards.len(),
{
    if cards.len() == 0 {
        0
    } else {
        cards_mask(cards.drop_last()) | card_bit(cards.last())
    }
}

/// The cards of `mask` from `from` on, in ascending order.
pub open spec fn mask_cards(mask: u64, from: int) -> Seq<u8>
    decreases DECK_SIZE - from,
{
    if from >= DECK_SIZE {
        Seq::empty()
    } else if has_card(mask, from as u8) {
        seq![from as u8] + mask_cards(mask, from + 1)
    } else {
        mask_cards(mask, from + 1)
    }
}

pub proof fn lemma_has_or(left: u64, right: u64, card: u8)
    ensures
        has_card(left | right, card) == (has_card(left, card) || has_card(right, card)),
{
    let c = card as u64;
    assert(((left | right) >> c) & 1 == 1 <==> (left >> c) & 1 == 1 || (right >> c) & 1 == 1)
        by (bit_vector);
}

pub proof fn lemma_has_bit(card: u8, other: u8)
    requires
        card < 64,
        other < 64,
    ensures
        has_card(card_bit(card), other) == (card == other),
{
    let c = card as u64;
    let d = other as u64;
    assert(((1u64 << c) >> d) & 1 == 1 <==> c == d) by (bit_vector)
        requires
            c < 64,
            d < 64,
    ;
}

pub proof fn lemma_has_and(left: u64, right: u64, card: u8)
    ensures
        has_card(left & right, card) == (has_card(left, card) && has_card(right, card)),
{
    let c = card as u64;
    assert(((left & right) >> c) & 1 == 1 <==> (left >> c) & 1 == 1 && (right >> c) & 1 == 1)
        by (bit_vector);
}

/// A mask that is not zero holds a card.
proof fn lemma_some_card(mask: u64) -> (card: u8)
    requires
        mask != 0,
    ensures
        card < 64,
        has_card(mask, card),
    decreases mask,
{
    if has_card(mask, 0) {
        0
    } else {
        let half = mask >> 1;
        assert(half < mask && (half != 0 || (mask >> 0u64) & 1 == 1) && (half >> 63u64) & 1 == 0)
            by (bit_vector)
            requires
                half == mask >> 1,
                mask != 0,
        ;
        let below = lemma_some_card(half);
        let c = below as u64;
        assert((mask >> ((c + 1) as u64)) & 1 == 1) by (bit_vector)
            requires
                half == mask >> 1,
                c < 63,
                (half >> c) & 1 == 1,
        ;
        (below + 1) as u8
    }
}

pub proof fn lemma_zero_mask(mask: u64)
    ensures
        mask == 0 <==> forall|card: u8| card < 64 ==> !has_card(mask, card),
{
    assert(forall|c: u64| (0u64 >> c) & 1 == 0) by (bit_vector);
    if mask != 0 {
        let card = lemma_some_card(mask);
    }
}

/// Two masks meet exactly where a card lies in both.
pub proof fn lemma_masks_meet(left: u64, right: u64)
    ensures
        left & right != 0 <==> exists|card: u8|
            card < 64 && has_card(left, card) && has_card(right, card),
{
    assert forall|card: u8| #[trigger] has_card(left & right, card) == (has_card(left, card)
        && has_card(right, card)) by {
        lemma_has_and(left, right, card);
    }
    lemma_zero_mask(left & right);
    if left & right == 0 {
        assert forall|card: u8| card < 64 implies !(has_card(left, card) && has_card(right, card)) by {
            assert(!has_card(left & right, card));
        }
    }
}

/// A card lies in the mask of a list exactly when the list holds it.
pub proof fn lemma_cards_mask(cards: Seq<u8>, card: u8)
    requires
        all_cards(cards),
        card < 64,
    ensures
        has_card(cards_mask(cards), card) == cards.contains(card),
    decreases cards.len(),
{
    if cards.len() == 0 {
        lemma_zero_mask(0);
    } else {
        let rest = cards.drop_last();
        lemma_cards_mask(rest, card);
        lemma_has_or(cards_mask(rest), card_bit(cards.last()), card);
        assert(cards[cards.len() - 1] < DECK_SIZE);
        lemma_has_bit(cards.last(), card);
        if rest.contains(card) {
            let i = choose|i: int| 0 <= i < rest.len() && rest[i] == card;
            assert(cards[i] == card);
        }
        if cards.contains(card) && card != cards.last() {
            let i = choose|i: int| 0 <= i < cards.len() && cards[i] == card;
            assert(rest[i] == card);
        }
    }
}

/// `mask_cards` lists the cards of the mask, each once, in ascending order.
pub proof fn lemma_mask_cards(mask: u64, from: int)
    requires
        0 <= from <= DECK_SIZE,
    ensures
        ({
            let cards = mask_cards(mask, from);
            &&& cards.len() <= DECK_SIZE - from
            &&& all_cards(cards)
            &&& forall|i: int, j: int| 0 <= i < j < cards.len() ==> cards[i] < cards[j]
            &&& forall|i: int| 0 <= i < cards.len() ==> from <= #[trigger] cards[i]
            &&& forall|card: u8|
                cards.contains(card) <==> from <= card < DECK_SIZE && has_card(mask, card)
        }),
    decreases DECK_SIZE - from,
{
    if from < DECK_SIZE {
        lemma_mask_cards(mask, from + 1);
        let rest = mask_cards(mask, from + 1);
        let cards = mask_cards(mask, from);
        if has_card(mask, from as u8) {
            assert forall|card: u8|
                cards.contains(card) <==> from <= card < DECK_SIZE && has_card(mask, card) by {
                if cards.contains(card) {
                    let i = choose|i: int| 0 <= i < cards.len() && cards[i] == card;
                    if i > 0 {
                        assert(rest[i - 1] == card);
                    }
                }
                if from <= card < DECK_SIZE && has_card(mask, card) {
                    if card == from {
                        assert(cards[0] == card);
                    } else {
                        assert(rest.contains(card));
                        let i = choose|i: int| 0 <= i < rest.len() && rest[i] == card;
                        assert(cards[i + 1] == card);
                    }
                }
            }
            assert forall|i: int, j: int| 0 <= i < j < cards.len() implies cards[i] < cards[j] by {
                assert(cards[j] == rest[j - 1]);
                if i > 0 {
                    assert(cards[i] == rest[i - 1]);
                }
            }
            assert forall|i: int| 0 <= i < cards.len() implies #[trigger] cards[i] < DECK_SIZE
                && from <= cards[i] by {
                if i > 0 {
                    assert(cards[i] == rest[i - 1]);
                }
            }
        }
    }
}

#[derive(Debug, Clone, Copy, PartialEq, Eq, Structural)]
pub enum CardError {
    /// A card number outside the deck.
    OutOfDeck { card: u8 },
    /// A card that came before.
    Duplicate { card: u8 },
}

/// The first card that is out of the deck or repeats an earlier one.
pub open spec fn first_card_error(cards: Seq<u8>, from: int) -> Option<CardError>
    decreases cards.len() - from,
{
    if from >= cards.len() {
        None
    } else if cards[from] >= DECK_SIZE {
        Some(CardError::OutOfDeck { card: cards[from] })
    } else if cards.take(from).contains(cards[from]) {
        Some(CardError::Duplicate { card: cards[from] })
    } else {
        first_card_error(cards, from + 1)
    }
}

/// The mask of `cards`, or the first card that makes them no set.
pub fn mask_from_cards(cards: &[Card]) -> (result: Result<DeckMask, CardError>)
    ensures
        match result {
            Ok(mask) => first_card_error(cards@, 0) is None && mask == cards_mask(cards@),
            Err(error) => first_card_error(cards@, 0) == Some(error),
        },
        result is Ok <==> all_cards(cards@) && distinct(cards@),
{
    let mut mask: u64 = 0;
    let mut index: usize = 0;
    assert(cards@.take(0) =~= Seq::<u8>::empty());
    while index < cards.len()
        invariant
            index <= cards@.len(),
            mask == cards_mask(cards@.take(index as int)),
            all_cards(cards@.take(index as int)),
            distinct(cards@.take(index as int)),
            first_card_error(cards@, 0) == first_card_error(cards@, index as int),
        decreases cards.len() - index,
    {
        let card = cards[index];
        let ghost before = cards@.take(index as int);
        if card >= DECK_SIZE {
            return Err(CardError::OutOfDeck { card });
        }
        proof {
            lemma_cards_mask(before, card);
        }
        if (mask >> (card as u64)) & 1 == 1 {
            proof {
                let i = choose|i: int| 0 <= i < before.len() && before[i] == card;
                assert(cards@[i] == cards@[index as int]);
            }
            return Err(CardError::Duplicate { card });
        }
        mask = mask | (1u64 << (card as u64));
        index = index + 1;
        proof {
            let after = cards@.take(index as int);
            assert(after.drop_last() =~= before);
            assert forall|i: int, j: int| 0 <= i < j < after.len() implies after[i] != after[j] by {
                if j < before.len() {
                    assert(before[i] != before[j]);
                } else {
                    assert(before[i] == after[i]);
                }
            }
            assert forall|i: int| 0 <= i < after.len() implies #[trigger] after[i] < DECK_SIZE by {
                if i < before.len() {
                    assert(before[i] < DECK_SIZE);
                }
            }
        }
    }
    assert(cards@.take(index as int) =~= cards@);
    Ok(mask)
}

/// The cards of `mask` in ascending order.
pub fn cards_from_mask(mask: DeckMask) -> (cards: Vec<Card>)
    ensures
        cards@ == mask_cards(mask, 0),
        all_cards(cards@),
        cards@.len() <= DECK_SIZE,
{
    let mut cards: Vec<u8> = Vec::new();
    let mut card: u8 = 0;
    assert(cards@ + mask_cards(mask, 0) =~= mask_cards(mask, 0));
    while card < DECK_SIZE
        invariant
            card <= DECK_SIZE,
            cards@ + mask_cards(mask, card as int) == mask_cards(mask, 0),
        decreases DECK_SIZE - card,
    {
        let ghost rest = mask_cards(mask, card as int + 1);
        let ghost before = cards@;
        if (mask >> (card as u64)) & 1 == 1 {
            cards.push(card);
            assert(cards@ + rest =~= before + (seq![card] + rest));
        }
        card = card + 1;
    }
    proof {
        assert(cards@ + mask_cards(mask, card as int) =~= cards@);
        lemma_mask_cards(mask, 0);
    }
    cards
}

/// Two private cards.
#[derive(Debug, Clone, Copy, PartialEq, Eq, Structural)]
pub struct Combo {
    pub first: u8,
    pub second: u8,
}

impl Combo {
    /// Two different cards of the deck.
    pub open spec fn valid(self) -> bool {
        self.first < DECK_SIZE && self.second < DECK_SIZE && self.first != self.second
    }

    pub open spec fn spec_mask(self) -> u64 {
        card_bit(self.first) | card_bit(self.second)
    }

    pub open spec fn holds(self, card: u8) -> bool {
        card == self.first || card == self.second
    }

    pub fn mask(&self) -> (mask: DeckMask)
        requires
            self.valid(),
        ensures
            mask == self.spec_mask(),
    {
        (1u64 << (self.first as u64)) | (1u64 << (self.second as u64))
    }

    /// One of the two cards lies in `mask`.
    pub fn conflicts(&self, mask: DeckMask) -> (yes: bool)
        requires
            self.valid(),
        ensures
            yes == (self.spec_mask() & mask != 0),
    {
        self.mask() & mask != 0
    }
}

/// The mask of a combo holds its two cards and no others.
pub proof fn lemma_combo_mask(combo: Combo, card: u8)
    requires
        combo.valid(),
        card < 64,
    ensures
        has_card(combo.spec_mask(), card) == combo.holds(card),
{
    lemma_has_or(card_bit(combo.first), card_bit(combo.second), card);
    lemma_has_bit(combo.first, card);
    lemma_has_bit(combo.second, card);
}

} // verus!
