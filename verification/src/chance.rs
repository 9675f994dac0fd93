//! Public cards between streets: explicit outcomes and exact enumeration.
use vstd::prelude::*;

use crate::bits::{above_zero, finite, is_above_zero, is_finite, ONE_BITS};
use crate::cards::{
    all_cards, cards_from_mask, cards_mask, distinct, first_card_error, lemma_mask_cards,
    mask_cards, mask_from_cards, CardError, DeckMask, FULL_DECK,
};
use crate::domain::{GameState, Street};
use crate::hash::{
    concat_words, flag_word, fnv_words, lemma_concat_step, list_words, Fingerprint, FNV_OFFSET,
};
use crate::tree::{copy_outcomes, same_outcomes, ChanceOutcome};

verus! {

#[derive(Debug)]
pub struct ChanceConfig {
    pub flop: Option<Vec<ChanceOutcome>>,
    pub turn: Option<Vec<ChanceOutcome>>,
    pub river: Option<Vec<ChanceOutcome>>,
    pub enumerate_exact: bool,
    /// Cards known to be out of play: enumeration leaves them out.
    pub dead_cards: DeckMask,
    /// Most outcomes of one node; zero sets no limit.
    pub max_outcomes_per_node: usize,
}

pub open spec fn same_choice(
    a: Option<Vec<ChanceOutcome>>,
    b: Option<Vec<ChanceOutcome>>,
) -> bool {
    match (a, b) {
        (Some(left), Some(right)) => same_outcomes(left@, right@),
        (None, None) => true,
        _ => false,
    }
}

fn copy_choice(choice: &Option<Vec<ChanceOutcome>>) -> (copy: Option<Vec<ChanceOutcome>>)
    ensures
        same_choice(copy, *choice),
{
    match choice {
        Some(outcomes) => Some(copy_outcomes(outcomes)),
        None => None,
    }
}

impl ChanceConfig {
    pub open spec fn same(self, other: Self) -> bool {
        &&& same_choice(self.flop, other.flop)
        &&& same_choice(self.turn, other.turn)
        &&& same_choice(self.river, other.river)
        &&& self.enumerate_exact == other.enumerate_exact
        &&& self.dead_cards == other.dead_cards
        &&& self.max_outcomes_per_node == other.max_outcomes_per_node
    }
}

impl Clone for ChanceConfig {
    fn clone(&self) -> (copy: Self)
        ensures
            copy.same(*self),
    {
        ChanceConfig {
            flop: copy_choice(&self.flop),
            turn: copy_choice(&self.turn),
            river: copy_choice(&self.river),
            enumerate_exact: self.enumerate_exact,
            dead_cards: self.dead_cards,
            max_outcomes_per_node: self.max_outcomes_per_node,
        }
    }
}

impl Default for ChanceConfig {
    fn default() -> (config: Self)
        ensures
            config.flop is None,
            config.turn is None,
            config.river is None,
            !config.enumerate_exact,
            config.dead_cards == 0,
            config.max_outcomes_per_node == 10_000,
    {
        ChanceConfig {
            flop: None,
            turn: None,
            river: None,
            enumerate_exact: false,
            dead_cards: 0,
            max_outcomes_per_node: 10_000,
        }
    }
}

#[derive(Debug, Clone, Copy, PartialEq, Eq, Structural)]
pub enum ChanceError {
    /// More outcomes were configured than a node may have.
    ExplicitLimit { count: usize, limit: usize },
    /// Enumeration came to more outcomes than a node may have.
    Limit { limit: usize },
    NotConfigured { next_street: Street },
    Board { error: CardError },
    UnsupportedWidth { width: usize },
    NoOutcomes,
    BadProbability,
    Cards { error: CardError },
}

/// The words of one outcome: its cards as a list, then its probability.
pub open spec fn outcome_words(outcome: ChanceOutcome) -> Seq<u64> {
    list_words(outcome.cards@, card_words()).push(outcome.probability)
}

pub open spec fn card_words() -> spec_fn(u8) -> Seq<u64> {
    |card: u8| seq![card as u64]
}

pub open spec fn outcome_encoding() -> spec_fn(ChanceOutcome) -> Seq<u64> {
    |outcome: ChanceOutcome| outcome_words(outcome)
}

/// The words of outcomes that may be missing.
pub open spec fn optional_outcome_words(outcomes: Option<Vec<ChanceOutcome>>) -> Seq<u64> {
    match outcomes {
        None => seq![0u64],
        Some(list) => seq![1u64] + list_words(list@, outcome_encoding()),
    }
}

impl ChanceConfig {
    pub open spec fn words(self) -> Seq<u64> {
        optional_outcome_words(self.flop) + optional_outcome_words(self.turn)
            + optional_outcome_words(self.river) + seq![
            flag_word(self.enumerate_exact),
            self.dead_cards,
            self.max_outcomes_per_node as u64,
        ]
    }

    pub open spec fn spec_explicit_for(self, next_street: Street) -> Option<Vec<ChanceOutcome>> {
        match next_street {
            Street::Flop => self.flop,
            Street::Turn => self.turn,
            Street::River => self.river,
            Street::Preflop => None,
        }
    }

    /// Deterministic hash of explicit chance branches and enumeration policy.
    pub fn fingerprint(&self) -> (hash: u64)
        ensures
            hash == fnv_words(FNV_OFFSET, self.words()),
    {
        let mut fingerprint = Fingerprint::new();
        hash_optional_outcomes(&mut fingerprint, &self.flop);
        hash_optional_outcomes(&mut fingerprint, &self.turn);
        hash_optional_outcomes(&mut fingerprint, &self.river);
        fingerprint.flag(self.enumerate_exact);
        fingerprint.word(self.dead_cards);
        fingerprint.word(self.max_outcomes_per_node as u64);
        assert(fingerprint.words@ =~= self.words());
        fingerprint.hash
    }

    /// The outcomes configured for the cards of `next_street`.
    pub fn explicit_for(&self, next_street: Street) -> (explicit: Option<&Vec<ChanceOutcome>>)
        ensures
            match (explicit, self.spec_explicit_for(next_street)) {
                (Some(given), Some(configured)) => *given == configured,
                (None, None) => true,
                _ => false,
            },
    {
        match next_street {
            Street::Flop => self.flop.as_ref(),
            Street::Turn => self.turn.as_ref(),
            Street::River => self.river.as_ref(),
            Street::Preflop => None,
        }
    }
}

/// Mixes in one outcome.
pub fn hash_outcome(fingerprint: &mut Fingerprint, outcome: &ChanceOutcome)
    requires
        old(fingerprint).wf(),
    ensures
        final(fingerprint).wf(),
        final(fingerprint).words@ == old(fingerprint).words@ + outcome_words(*outcome),
{
    hash_cards(fingerprint, &outcome.cards);
    fingerprint.word(outcome.probability);
    assert(fingerprint.words@ =~= old(fingerprint).words@ + outcome_words(*outcome));
}

/// Mixes in a list of cards.
pub fn hash_cards(fingerprint: &mut Fingerprint, cards: &Vec<u8>)
    requires
        old(fingerprint).wf(),
    ensures
        final(fingerprint).wf(),
        final(fingerprint).words@ == old(fingerprint).words@ + list_words(cards@, card_words()),
{
    let ghost start = fingerprint.words@;
    fingerprint.word(cards.len() as u64);
    let mut index: usize = 0;
    assert(cards@.take(0) =~= Seq::<u8>::empty());
    assert(fingerprint.words@ =~= start.push(cards@.len() as u64) + concat_words(
        cards@.take(0),
        card_words(),
    ));
    while index < cards.len()
        invariant
            index <= cards@.len(),
            fingerprint.wf(),
            fingerprint.words@ == start.push(cards@.len() as u64) + concat_words(
                cards@.take(index as int),
                card_words(),
            ),
        decreases cards.len() - index,
    {
        proof {
            lemma_concat_step(cards@, card_words(), index as int);
        }
        fingerprint.word(cards[index] as u64);
        index = index + 1;
        assert(fingerprint.words@ =~= start.push(cards@.len() as u64) + concat_words(
            cards@.take(index as int),
            card_words(),
        ));
    }
    assert(cards@.take(index as int) =~= cards@);
    assert(fingerprint.words@ =~= start + list_words(cards@, card_words()));
}

/// Mixes in a list of outcomes.
pub fn hash_outcomes(fingerprint: &mut Fingerprint, outcomes: &Vec<ChanceOutcome>)
    requires
        old(fingerprint).wf(),
    ensures
        final(fingerprint).wf(),
        final(fingerprint).words@ == old(fingerprint).words@ + list_words(
            outcomes@,
            outcome_encoding(),
        ),
{
    let ghost start = fingerprint.words@;
    fingerprint.word(outcomes.len() as u64);
    let mut index: usize = 0;
    assert(outcomes@.take(0) =~= Seq::<ChanceOutcome>::empty());
    assert(fingerprint.words@ =~= start.push(outcomes@.len() as u64) + concat_words(
        outcomes@.take(0),
        outcome_encoding(),
    ));
    while index < outcomes.len()
        invariant
            index <= outcomes@.len(),
            fingerprint.wf(),
            fingerprint.words@ == start.push(outcomes@.len() as u64) + concat_words(
                outcomes@.take(index as int),
                outcome_encoding(),
            ),
        decreases outcomes.len() - index,
    {
        proof {
            lemma_concat_step(outcomes@, outcome_encoding(), index as int);
        }
        hash_outcome(fingerprint, &outcomes[index]);
        index = index + 1;
        assert(fingerprint.words@ =~= start.push(outcomes@.len() as u64) + concat_words(
            outcomes@.take(index as int),
            outcome_encoding(),
        ));
    }
    assert(outcomes@.take(index as int) =~= outcomes@);
    assert(fingerprint.words@ =~= start + list_words(outcomes@, outcome_encoding()));
}

fn hash_optional_outcomes(fingerprint: &mut Fingerprint, outcomes: &Option<Vec<ChanceOutcome>>)
    requires
        old(fingerprint).wf(),
    ensures
        final(fingerprint).wf(),
        final(fingerprint).words@ == old(fingerprint).words@ + optional_outcome_words(*outcomes),
{
    match outcomes {
        None => {
            fingerprint.word(0);
        },
        Some(list) => {
            fingerprint.word(1);
            hash_outcomes(fingerprint, list);
        },
    }
    assert(fingerprint.words@ =~= old(fingerprint).words@ + optional_outcome_words(*outcomes));
}

/// All ways to complete the cards at `i` and `j` with one from `k` on.
pub open spec fn third_cards(cards: Seq<u8>, i: int, j: int, k: int) -> Seq<Seq<u8>>
    decreases cards.len() - k,
{
    if k >= cards.len() {
        Seq::empty()
    } else {
        seq![seq![cards[i], cards[j], cards[k]]] + third_cards(cards, i, j, k + 1)
    }
}

/// All ways to complete the card at `i` with a later pair from `j` on.
pub open spec fn second_cards(cards: Seq<u8>, i: int, j: int) -> Seq<Seq<u8>>
    decreases cards.len() - j,
{
    if j >= cards.len() {
        Seq::empty()
    } else {
        third_cards(cards, i, j, j + 1) + second_cards(cards, i, j + 1)
    }
}

/// All choices of three cards from `i` on, in the order of `cards`.
pub open spec fn card_triples(cards: Seq<u8>, i: int) -> Seq<Seq<u8>>
    decreases cards.len() - i,
{
    if i >= cards.len() {
        Seq::empty()
    } else {
        second_cards(cards, i, i + 1) + card_triples(cards, i + 1)
    }
}

/// Each card from `i` on, alone.
pub open spec fn single_cards(cards: Seq<u8>, i: int) -> Seq<Seq<u8>>
    decreases cards.len() - i,
{
    if i >= cards.len() {
        Seq::empty()
    } else {
        seq![seq![cards[i]]] + single_cards(cards, i + 1)
    }
}

/// The card lists of outcomes.
pub open spec fn outcome_cards(outcomes: Seq<ChanceOutcome>) -> Seq<Seq<u8>> {
    outcomes.map(|i: int, outcome: ChanceOutcome| outcome.cards@)
}

pub open spec fn all_certain(outcomes: Seq<ChanceOutcome>) -> bool {
    forall|i: int| 0 <= i < outcomes.len() ==> (#[trigger] outcomes[i]).probability == ONE_BITS
}

/// The cards that can still come: the deck without the board and the dead
/// cards, in ascending order.
pub open spec fn remaining_cards(board: Seq<u8>, dead_cards: u64) -> Seq<u8> {
    mask_cards(!(cards_mask(board) | dead_cards) & FULL_DECK, 0)
}

/// The choices of `width` cards among `cards`, one or three.
pub open spec fn choices(cards: Seq<u8>, width: nat) -> Seq<Seq<u8>> {
    if width == 1 {
        single_cards(cards, 0)
    } else {
        card_triples(cards, 0)
    }
}

/// The first thing wrong with the outcomes from `from` on.
pub open spec fn outcomes_error(outcomes: Seq<ChanceOutcome>, from: int) -> Option<ChanceError>
    decreases outcomes.len() - from,
{
    if from >= outcomes.len() {
        None
    } else if !(finite(outcomes[from].probability) && above_zero(outcomes[from].probability)) {
        Some(ChanceError::BadProbability)
    } else {
        match first_card_error(outcomes[from].cards@, 0) {
            Some(error) => Some(ChanceError::Cards { error }),
            None => outcomes_error(outcomes, from + 1),
        }
    }
}

/// What keeps outcomes from being scaled to sum to one, short of their total.
pub open spec fn normalization_error(outcomes: Seq<ChanceOutcome>) -> Option<ChanceError> {
    if outcomes.len() == 0 {
        Some(ChanceError::NoOutcomes)
    } else {
        outcomes_error(outcomes, 0)
    }
}

fn enforce_chance_limit(count: usize, limit: usize) -> (result: Result<(), ChanceError>)
    ensures
        match result {
            Ok(_) => limit == 0 || count <= limit,
            Err(error) => limit > 0 && count > limit && error == (ChanceError::Limit { limit }),
        },
{
    if limit > 0 && count > limit {
        Err(ChanceError::Limit { limit })
    } else {
        Ok(())
    }
}

fn push_certain(outcomes: &mut Vec<ChanceOutcome>, cards: Vec<u8>)
    requires
        all_certain(old(outcomes)@),
    ensures
        all_certain(final(outcomes)@),
        outcome_cards(final(outcomes)@) == outcome_cards(old(outcomes)@).push(cards@),
        final(outcomes)@.len() == old(outcomes)@.len() + 1,
{
    outcomes.push(ChanceOutcome::new(cards, ONE_BITS));
    assert(outcome_cards(outcomes@) =~= outcome_cards(old(outcomes)@).push(cards@));
}

/// Every card alone, each as likely as the others.
fn enumerate_singles(remaining: &Vec<u8>, limit: usize) -> (result: Result<
    Vec<ChanceOutcome>,
    ChanceError,
>)
    ensures
        match result {
            Ok(outcomes) => {
                &&& outcome_cards(outcomes@) == single_cards(remaining@, 0)
                &&& all_certain(outcomes@)
                &&& limit == 0 || outcomes@.len() <= limit
            },
            Err(error) => limit > 0 && single_cards(remaining@, 0).len() > limit && error == (
            ChanceError::Limit { limit }),
        },
{
    let mut outcomes: Vec<ChanceOutcome> = Vec::new();
    let mut index: usize = 0;
    assert(outcome_cards(outcomes@) + single_cards(remaining@, 0) =~= single_cards(remaining@, 0));
    while index < remaining.len()
        invariant
            index <= remaining@.len(),
            all_certain(outcomes@),
            limit == 0 || outcomes@.len() <= limit,
            outcome_cards(outcomes@) + single_cards(remaining@, index as int) == single_cards(
                remaining@,
                0,
            ),
        decreases remaining.len() - index,
    {
        let ghost before = outcome_cards(outcomes@);
        let ghost rest = single_cards(remaining@, index as int + 1);
        let cards = vec![remaining[index]];
        assert(cards@ =~= seq![remaining@[index as int]]);
        push_certain(&mut outcomes, cards);
        assert(outcome_cards(outcomes@) + rest =~= before + (seq![seq![remaining@[index as int]]]
            + rest));
        match enforce_chance_limit(outcomes.len(), limit) {
            Ok(_) => {},
            Err(error) => {
                return Err(error);
            },
        }
        index = index + 1;
    }
    assert(outcome_cards(outcomes@) + single_cards(remaining@, index as int) =~= outcome_cards(
        outcomes@,
    ));
    Ok(outcomes)
}

/// Every choice of three cards, each as likely as the others.
fn enumerate_triples(remaining: &Vec<u8>, limit: usize) -> (result: Result<
    Vec<ChanceOutcome>,
    ChanceError,
>)
    requires
        remaining@.len() <= 52,
    ensures
        match result {
            Ok(outcomes) => {
                &&& outcome_cards(outcomes@) == card_triples(remaining@, 0)
                &&& all_certain(outcomes@)
                &&& limit == 0 || outcomes@.len() <= limit
            },
            Err(error) => limit > 0 && card_triples(remaining@, 0).len() > limit && error == (
            ChanceError::Limit { limit }),
        },
{
    let ghost all = card_triples(remaining@, 0);
    let mut outcomes: Vec<ChanceOutcome> = Vec::new();
    let mut first: usize = 0;
    assert(outcome_cards(outcomes@) + all =~= all);
    while first < remaining.len()
        invariant
            first <= remaining@.len() <= 52,
            all == card_triples(remaining@, 0),
            all_certain(outcomes@),
            limit == 0 || outcomes@.len() <= limit,
            outcome_cards(outcomes@) + card_triples(remaining@, first as int) == all,
        decreases remaining.len() - first,
    {
        let ghost after_first = card_triples(remaining@, first as int + 1);
        let mut second: usize = first + 1;
        assert(outcome_cards(outcomes@) + second_cards(remaining@, first as int, second as int)
            + after_first =~= outcome_cards(outcomes@) + card_triples(remaining@, first as int));
        while second < remaining.len()
            invariant
                first < second <= remaining@.len() <= 52,
                all == card_triples(remaining@, 0),
                all_certain(outcomes@),
                limit == 0 || outcomes@.len() <= limit,
                outcome_cards(outcomes@) + second_cards(remaining@, first as int, second as int)
                    + after_first == all,
            decreases remaining.len() - second,
        {
            let ghost after_second = second_cards(remaining@, first as int, second as int + 1);
            let mut third: usize = second + 1;
            assert(outcome_cards(outcomes@) + third_cards(
                remaining@,
                first as int,
                second as int,
                third as int,
            ) + after_second + after_first =~= outcome_cards(outcomes@) + second_cards(
                remaining@,
                first as int,
                second as int,
            ) + after_first);
            while third < remaining.len()
                invariant
                    first < second < third <= remaining@.len() <= 52,
                    all == card_triples(remaining@, 0),
                    all_certain(outcomes@),
                    limit == 0 || outcomes@.len() <= limit,
                    outcome_cards(outcomes@) + third_cards(
                        remaining@,
                        first as int,
                        second as int,
                        third as int,
                    ) + after_second + after_first == all,
                decreases remaining.len() - third,
            {
                let ghost before = outcome_cards(outcomes@);
                let ghost rest = third_cards(
                    remaining@,
                    first as int,
                    second as int,
                    third as int + 1,
                );
                let ghost here = seq![
                    remaining@[first as int],
                    remaining@[second as int],
                    remaining@[third as int],
                ];
                let cards = vec![remaining[first], remaining[second], remaining[third]];
                assert(cards@ =~= here);
                push_certain(&mut outcomes, cards);
                assert(outcome_cards(outcomes@) + rest + after_second + after_first =~= before + (
                seq![here] + rest) + after_second + after_first);
                match enforce_chance_limit(outcomes.len(), limit) {
                    Ok(_) => {},
                    Err(error) => {
                        assert(all.len() >= outcome_cards(outcomes@).len());
                        return Err(error);
                    },
                }
                third = third + 1;
            }
            assert(outcome_cards(outcomes@) + third_cards(
                remaining@,
                first as int,
                second as int,
                third as int,
            ) + after_second + after_first =~= outcome_cards(outcomes@) + after_second
                + after_first);
            second = second + 1;
        }
        assert(outcome_cards(outcomes@) + second_cards(remaining@, first as int, second as int)
            + after_first =~= outcome_cards(outcomes@) + after_first);
        first = first + 1;
    }
    assert(outcome_cards(outcomes@) + card_triples(remaining@, first as int) =~= outcome_cards(
        outcomes@,
    ));
    Ok(outcomes)
}

/// Checks outcomes before they are scaled to sum to one.
pub fn check_outcomes(outcomes: &Vec<ChanceOutcome>) -> (result: Result<(), ChanceError>)
    ensures
        match result {
            Ok(_) => normalization_error(outcomes@) is None,
            Err(error) => normalization_error(outcomes@) == Some(error),
        },
{
    if outcomes.len() == 0 {
        return Err(ChanceError::NoOutcomes);
    }
    let mut index: usize = 0;
    while index < outcomes.len()
        invariant
            index <= outcomes@.len(),
            outcomes@.len() > 0,
            normalization_error(outcomes@) == outcomes_error(outcomes@, index as int),
        decreases outcomes.len() - index,
    {
        let outcome = &outcomes[index];
        if !is_above_zero(outcome.probability) || !is_finite(outcome.probability) {
            return Err(ChanceError::BadProbability);
        }
        match mask_from_cards(outcome.cards.as_slice()) {
            Ok(_) => {},
            Err(error) => {
                return Err(ChanceError::Cards { error });
            },
        }
        index = index + 1;
    }
    Ok(())
}

/// The outcomes of the cards that follow `state`, not yet scaled: the
/// configured ones, or every choice among the cards that can still come, each
/// with probability one.
pub fn chance_outcomes(
    state: &GameState,
    next_street: Street,
    config: &ChanceConfig,
) -> (result: Result<Vec<ChanceOutcome>, ChanceError>)
    ensures
        match config.spec_explicit_for(next_street) {
            Some(explicit) => explicit_result(explicit@, config.max_outcomes_per_node, result),
            None => if !config.enumerate_exact {
                result == Err::<Vec<ChanceOutcome>, ChanceError>(
                    ChanceError::NotConfigured { next_street },
                )
            } else {
                enumerated_result(*state, *config, result)
            },
        },
{
    if let Some(explicit) = config.explicit_for(next_street) {
        if config.max_outcomes_per_node > 0 && explicit.len() > config.max_outcomes_per_node {
            return Err(
                ChanceError::ExplicitLimit {
                    count: explicit.len(),
                    limit: config.max_outcomes_per_node,
                },
            );
        }
        match check_outcomes(explicit) {
            Ok(_) => {
                return Ok(copy_outcomes(explicit));
            },
            Err(error) => {
                return Err(error);
            },
        }
    }
    if !config.enumerate_exact {
        return Err(ChanceError::NotConfigured { next_street });
    }
    let board_mask = match mask_from_cards(state.board.as_slice()) {
        Ok(mask) => mask,
        Err(error) => {
            return Err(ChanceError::Board { error });
        },
    };
    let existing_mask = board_mask | config.dead_cards;
    let remaining = cards_from_mask(!existing_mask & FULL_DECK);
    let needed = state.street.required_new_board_cards();
    let limit = config.max_outcomes_per_node;
    let listed = if needed == 1 {
        enumerate_singles(&remaining, limit)
    } else if needed == 3 {
        enumerate_triples(&remaining, limit)
    } else {
        return Err(ChanceError::UnsupportedWidth { width: needed });
    };
    match listed {
        Err(error) => Err(error),
        Ok(outcomes) => {
            proof {
                lemma_mask_cards(!existing_mask & FULL_DECK, 0);
                assert(outcome_cards(outcomes@).len() == outcomes@.len());
                lemma_choices_pass(remaining@, needed as nat, outcomes@);
            }
            match check_outcomes(&outcomes) {
                Ok(_) => Ok(outcomes),
                Err(error) => Err(error),
            }
        },
    }
}

/// What [`chance_outcomes`] makes of configured outcomes.
pub open spec fn explicit_result(
    explicit: Seq<ChanceOutcome>,
    limit: usize,
    result: Result<Vec<ChanceOutcome>, ChanceError>,
) -> bool {
    if limit > 0 && explicit.len() > limit {
        result == Err::<Vec<ChanceOutcome>, ChanceError>(
            ChanceError::ExplicitLimit { count: explicit.len() as usize, limit },
        )
    } else {
        match normalization_error(explicit) {
            Some(error) => result == Err::<Vec<ChanceOutcome>, ChanceError>(error),
            None => result matches Ok(outcomes) && same_outcomes(outcomes@, explicit),
        }
    }
}

/// What [`chance_outcomes`] makes of the cards that can still come.
pub open spec fn enumerated_result(
    state: GameState,
    config: ChanceConfig,
    result: Result<Vec<ChanceOutcome>, ChanceError>,
) -> bool {
    let width = state.street.spec_required();
    let remaining = remaining_cards(state.board@, config.dead_cards);
    let limit = config.max_outcomes_per_node;
    match first_card_error(state.board@, 0) {
        Some(error) => result == Err::<Vec<ChanceOutcome>, ChanceError>(
            ChanceError::Board { error },
        ),
        None => if width == 0 {
            result == Err::<Vec<ChanceOutcome>, ChanceError>(
                ChanceError::UnsupportedWidth { width: 0 },
            )
        } else if limit > 0 && choices(remaining, width).len() > limit {
            result == Err::<Vec<ChanceOutcome>, ChanceError>(ChanceError::Limit { limit })
        } else if choices(remaining, width).len() == 0 {
            result == Err::<Vec<ChanceOutcome>, ChanceError>(ChanceError::NoOutcomes)
        } else {
            result matches Ok(outcomes) && outcome_cards(outcomes@) == choices(remaining, width)
                && all_certain(outcomes@)
        },
    }
}

/// A choice among `cards`: the cards at some increasing positions.
pub open spec fn is_choice(cards: Seq<u8>, chosen: Seq<u8>, width: nat) -> bool {
    if width == 1 {
        exists|i: int| 0 <= i < cards.len() && chosen == seq![#[trigger] cards[i]]
    } else {
        exists|i: int, j: int, k: int|
            #![trigger cards[i], cards[j], cards[k]]
            0 <= i < j < k < cards.len() && chosen == seq![cards[i], cards[j], cards[k]]
    }
}

proof fn lemma_third_cards(cards: Seq<u8>, i: int, j: int, k: int)
    requires
        0 <= i < j < k <= cards.len(),
    ensures
        third_cards(cards, i, j, k).len() == cards.len() - k,
        forall|x: int|
            0 <= x < cards.len() - k ==> #[trigger] third_cards(cards, i, j, k)[x] == seq![
                cards[i],
                cards[j],
                cards[k + x],
            ],
    decreases cards.len() - k,
{
    if k < cards.len() {
        lemma_third_cards(cards, i, j, k + 1);
        let rest = third_cards(cards, i, j, k + 1);
        assert forall|x: int| 0 <= x < cards.len() - k implies #[trigger] third_cards(
            cards,
            i,
            j,
            k,
        )[x] == seq![cards[i], cards[j], cards[k + x]] by {
            if x > 0 {
                assert(third_cards(cards, i, j, k)[x] == rest[x - 1]);
            }
        }
    }
}

proof fn lemma_second_cards(cards: Seq<u8>, i: int, j: int)
    requires
        0 <= i < j <= cards.len(),
    ensures
        2 * second_cards(cards, i, j).len() == (cards.len() - j) * (cards.len() - j - 1),
        forall|x: int|
            0 <= x < second_cards(cards, i, j).len() ==> is_choice(
                cards,
                #[trigger] second_cards(cards, i, j)[x],
                3,
            ),
        forall|b: int, c: int|
            j <= b < c < cards.len() ==> second_cards(cards, i, j).contains(
                #[trigger] seq![cards[i], cards[b], cards[c]],
            ),
    decreases cards.len() - j,
{
    if j < cards.len() {
        lemma_second_cards(cards, i, j + 1);
        lemma_third_cards(cards, i, j, j + 1);
        let head = third_cards(cards, i, j, j + 1);
        let rest = second_cards(cards, i, j + 1);
        let all = second_cards(cards, i, j);
        let n = cards.len() - j;
        assert(2 * (n - 1) + (n - 1) * (n - 2) == n * (n - 1)) by (nonlinear_arith);
        assert forall|x: int| 0 <= x < all.len() implies is_choice(cards, #[trigger] all[x], 3) by {
            if x < head.len() {
                assert(all[x] == head[x]);
                assert(head[x] == seq![cards[i], cards[j], cards[j + 1 + x]]);
            } else {
                assert(all[x] == rest[x - head.len()]);
            }
        }
        assert forall|b: int, c: int| j <= b < c < cards.len() implies all.contains(
            #[trigger] seq![cards[i], cards[b], cards[c]],
        ) by {
            let chosen = seq![cards[i], cards[b], cards[c]];
            if b == j {
                assert(head[c - j - 1] == chosen);
                assert(all[c - j - 1] == chosen);
            } else {
                assert(rest.contains(chosen));
                let x = choose|x: int| 0 <= x < rest.len() && rest[x] == chosen;
                assert(all[head.len() + x] == chosen);
            }
        }
    } else {
        assert((cards.len() - j) * (cards.len() - j - 1) == 0) by (nonlinear_arith)
            requires
                cards.len() == j,
        ;
    }
}

/// The triples are all the choices of three cards: `n(n-1)(n-2)/6` of them.
pub proof fn lemma_card_triples(cards: Seq<u8>, i: int)
    requires
        0 <= i <= cards.len(),
    ensures
        ({
            let n = cards.len() - i;
            6 * card_triples(cards, i).len() == n * (n - 1) * (n - 2)
        }),
        forall|x: int|
            0 <= x < card_triples(cards, i).len() ==> is_choice(
                cards,
                #[trigger] card_triples(cards, i)[x],
                3,
            ),
        forall|a: int, b: int, c: int|
            i <= a < b < c < cards.len() ==> card_triples(cards, i).contains(
                #[trigger] seq![cards[a], cards[b], cards[c]],
            ),
    decreases cards.len() - i,
{
    if i < cards.len() {
        lemma_card_triples(cards, i + 1);
        lemma_second_cards(cards, i, i + 1);
        let head = second_cards(cards, i, i + 1);
        let rest = card_triples(cards, i + 1);
        let all = card_triples(cards, i);
        let n = cards.len() - i;
        assert(3 * ((n - 1) * (n - 2)) + (n - 1) * (n - 2) * (n - 3) == n * (n - 1) * (n - 2))
            by (nonlinear_arith);
        assert forall|x: int| 0 <= x < all.len() implies is_choice(cards, #[trigger] all[x], 3) by {
            if x < head.len() {
                assert(all[x] == head[x]);
            } else {
                assert(all[x] == rest[x - head.len()]);
            }
        }
        assert forall|a: int, b: int, c: int| i <= a < b < c < cards.len() implies all.contains(
            #[trigger] seq![cards[a], cards[b], cards[c]],
        ) by {
            let chosen = seq![cards[a], cards[b], cards[c]];
            if a == i {
                assert(head.contains(chosen));
                let x = choose|x: int| 0 <= x < head.len() && head[x] == chosen;
                assert(all[x] == chosen);
            } else {
                assert(rest.contains(chosen));
                let x = choose|x: int| 0 <= x < rest.len() && rest[x] == chosen;
                assert(all[head.len() + x] == chosen);
            }
        }
    } else {
        assert((cards.len() - i) * (cards.len() - i - 1) * (cards.len() - i - 2) == 0)
            by (nonlinear_arith)
            requires
                cards.len() == i,
        ;
    }
}

proof fn lemma_single_cards(cards: Seq<u8>, i: int)
    requires
        0 <= i <= cards.len(),
    ensures
        single_cards(cards, i).len() == cards.len() - i,
        forall|x: int|
            0 <= x < cards.len() - i ==> #[trigger] single_cards(cards, i)[x] == seq![cards[i + x]],
    decreases cards.len() - i,
{
    if i < cards.len() {
        lemma_single_cards(cards, i + 1);
        let rest = single_cards(cards, i + 1);
        assert forall|x: int| 0 <= x < cards.len() - i implies #[trigger] single_cards(cards, i)[x]
            == seq![cards[i + x]] by {
            if x > 0 {
                assert(single_cards(cards, i)[x] == rest[x - 1]);
            }
        }
    }
}

/// Enumeration yields exactly the choices among the remaining cards: one
/// outcome for each, and none that is no choice.
pub proof fn lemma_choices_are_exact(cards: Seq<u8>, width: nat, chosen: Seq<u8>)
    requires
        width == 1 || width == 3,
    ensures
        choices(cards, width).contains(chosen) <==> is_choice(cards, chosen, width),
{
    if width == 1 {
        lemma_single_cards(cards, 0);
        let all = single_cards(cards, 0);
        if all.contains(chosen) {
            let x = choose|x: int| 0 <= x < all.len() && all[x] == chosen;
            assert(chosen == seq![cards[x]]);
        }
        if is_choice(cards, chosen, 1) {
            let i = choose|i: int| 0 <= i < cards.len() && chosen == seq![#[trigger] cards[i]];
            assert(all[i] == chosen);
        }
    } else {
        lemma_card_triples(cards, 0);
        let all = card_triples(cards, 0);
        if all.contains(chosen) {
            let x = choose|x: int| 0 <= x < all.len() && all[x] == chosen;
            assert(is_choice(cards, all[x], 3));
        }
    }
}

/// A full deck has 22100 flops.
pub proof fn lemma_flop_count(cards: Seq<u8>)
    requires
        cards.len() == 52,
    ensures
        choices(cards, 3).len() == 22_100,
{
    lemma_card_triples(cards, 0);
    assert(52 * 51 * 50 == 6 * 22_100) by (nonlinear_arith);
    assert(52int * (52 - 1) * (52 - 2) == 6 * 22_100) by (nonlinear_arith);
}

proof fn lemma_choice_is_hand(cards: Seq<u8>, chosen: Seq<u8>, width: nat)
    requires
        width == 1 || width == 3,
        all_cards(cards),
        distinct(cards),
        is_choice(cards, chosen, width),
    ensures
        all_cards(chosen),
        distinct(chosen),
{
    if width == 1 {
        let i = choose|i: int| 0 <= i < cards.len() && chosen == seq![#[trigger] cards[i]];
        assert(cards[i] < 52);
    } else {
        let (i, j, k) = choose|i: int, j: int, k: int|
            #![trigger cards[i], cards[j], cards[k]]
            0 <= i < j < k < cards.len() && chosen == seq![cards[i], cards[j], cards[k]];
        assert(cards[i] != cards[j] && cards[j] != cards[k] && cards[i] != cards[k]);
    }
}

proof fn lemma_hand_has_no_error(cards: Seq<u8>, from: int)
    requires
        all_cards(cards),
        distinct(cards),
        0 <= from <= cards.len(),
    ensures
        first_card_error(cards, from) is None,
    decreases cards.len() - from,
{
    if from < cards.len() {
        lemma_hand_has_no_error(cards, from + 1);
        if cards.take(from).contains(cards[from]) {
            let i = choose|i: int| 0 <= i < from && cards.take(from)[i] == cards[from];
            assert(cards[i] != cards[from]);
        }
    }
}

proof fn lemma_certain_outcomes_pass(outcomes: Seq<ChanceOutcome>, from: int)
    requires
        0 <= from <= outcomes.len(),
        all_certain(outcomes),
        forall|i: int|
            0 <= i < outcomes.len() ==> first_card_error(
                (#[trigger] outcomes[i]).cards@,
                0,
            ) is None,
    ensures
        outcomes_error(outcomes, from) is None,
    decreases outcomes.len() - from,
{
    if from < outcomes.len() {
        assert(outcomes[from].probability == ONE_BITS);
        lemma_certain_outcomes_pass(outcomes, from + 1);
    }
}

proof fn lemma_choices_pass(remaining: Seq<u8>, width: nat, outcomes: Seq<ChanceOutcome>)
    requires
        width == 1 || width == 3,
        all_cards(remaining),
        forall|i: int, j: int| 0 <= i < j < remaining.len() ==> remaining[i] < remaining[j],
        outcome_cards(outcomes) == choices(remaining, width),
        all_certain(outcomes),
    ensures
        outcomes_error(outcomes, 0) is None,
{
    assert forall|i: int| 0 <= i < outcomes.len() implies first_card_error(
        (#[trigger] outcomes[i]).cards@,
        0,
    ) is None by {
        let chosen = outcomes[i].cards@;
        assert(outcome_cards(outcomes)[i] == chosen);
        lemma_choices_are_exact(remaining, width, chosen);
        lemma_choice_is_hand(remaining, chosen, width);
        lemma_hand_has_no_error(chosen, 0);
    }
    lemma_certain_outcomes_pass(outcomes, 0);
}

} // verus!
