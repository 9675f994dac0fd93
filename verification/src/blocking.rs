//! What merging costs a deal: outcomes that could have come, but whose
//! representative meets a card in somebody's hand.
use vstd::prelude::*;

use crate::cards::{cards_mask, first_card_error, mask_from_cards, Card, CardError, DeckMask};
use crate::payoff::{all_valid, hands_mask, mask_of_hands};
use crate::ranges::{candidates_valid, Candidate};
use crate::rng::seeded_state;
use crate::sampler::{
    attempts, first_empty, is_candidate, lemma_sampled_deals_are_legal, thresholds_fit,
    MultiwayPrivateDealSampler, SamplerError,
};
use crate::tree::ChanceOutcome;

verus! {

/// Attempts for one sampled deal.
pub const MAX_SAMPLE_ATTEMPTS: usize = 10_000;

/// Keeps the draws of an estimate apart from those of a solver.
pub const ESTIMATE_SEED_MIX: u64 = 0xe621_0749_3d8c_7a11;

#[derive(Debug, Clone, Copy, PartialEq, Eq, Structural)]
pub enum BlockingError {
    NoSamples,
    Sampler(SamplerError),
    NoLegalDeal,
}

/// Do the cards meet the hands?
pub fn is_blocked(cards: &Vec<Card>, hands: DeckMask) -> (result: Result<bool, CardError>)
    ensures
        match result {
            Ok(yes) => {
                &&& first_card_error(cards@, 0) is None
                &&& yes == (cards_mask(cards@) & hands != 0)
            },
            Err(error) => first_card_error(cards@, 0) == Some(error),
        },
{
    match mask_from_cards(cards.as_slice()) {
        Ok(mask) => Ok(mask & hands != 0),
        Err(error) => Err(error),
    }
}

/// The first of the members from `from` on whose cards are no set.
pub open spec fn first_member_error(
    outcomes: Seq<ChanceOutcome>,
    members: Seq<usize>,
    from: int,
) -> Option<CardError>
    decreases members.len() - from,
{
    if from >= members.len() {
        None
    } else if first_card_error(outcomes[members[from] as int].cards@, 0) is Some {
        first_card_error(outcomes[members[from] as int].cards@, 0)
    } else {
        first_member_error(outcomes, members, from + 1)
    }
}

/// Those of the first `count` members that do not meet the hands.
pub open spec fn free_members(
    outcomes: Seq<ChanceOutcome>,
    members: Seq<usize>,
    hands: u64,
    count: int,
) -> Seq<usize>
    decreases count,
{
    if count <= 0 {
        Seq::empty()
    } else {
        let before = free_members(outcomes, members, hands, count - 1);
        if cards_mask(outcomes[members[count - 1] as int].cards@) & hands == 0 {
            before.push(members[count - 1])
        } else {
            before
        }
    }
}

/// The members of a group that merging takes from a deal: if the hands meet the
/// cards of the representative, those members that they do not meet. None, if
/// the representative can come.
pub fn lost_members(
    representative: &Vec<Card>,
    outcomes: &Vec<ChanceOutcome>,
    members: &Vec<usize>,
    hands: DeckMask,
) -> (result: Result<Option<Vec<usize>>, CardError>)
    requires
        forall|k: int| 0 <= k < members@.len() ==> #[trigger] members@[k] < outcomes@.len(),
    ensures
        match result {
            Err(error) => if first_card_error(representative@, 0) is Some {
                first_card_error(representative@, 0) == Some(error)
            } else {
                &&& cards_mask(representative@) & hands != 0
                &&& first_member_error(outcomes@, members@, 0) == Some(error)
            },
            Ok(None) => {
                &&& first_card_error(representative@, 0) is None
                &&& cards_mask(representative@) & hands == 0
            },
            Ok(Some(lost)) => {
                &&& first_card_error(representative@, 0) is None
                &&& cards_mask(representative@) & hands != 0
                &&& first_member_error(outcomes@, members@, 0) is None
                &&& lost@ == free_members(outcomes@, members@, hands, members@.len() as int)
            },
        },
{
    match is_blocked(representative, hands) {
        Err(error) => {
            return Err(error);
        },
        Ok(blocked) => {
            if !blocked {
                return Ok(None);
            }
        },
    }
    let mut lost: Vec<usize> = Vec::new();
    let mut index: usize = 0;
    while index < members.len()
        invariant
            index <= members@.len(),
            forall|k: int| 0 <= k < members@.len() ==> #[trigger] members@[k] < outcomes@.len(),
            first_card_error(representative@, 0) is None,
            cards_mask(representative@) & hands != 0,
            first_member_error(outcomes@, members@, 0) == first_member_error(
                outcomes@,
                members@,
                index as int,
            ),
            lost@ == free_members(outcomes@, members@, hands, index as int),
        decreases members.len() - index,
    {
        let member = members[index];
        match is_blocked(&outcomes[member].cards, hands) {
            Err(error) => {
                return Err(error);
            },
            Ok(blocked) => {
                if !blocked {
                    lost.push(member);
                }
            },
        }
        index = index + 1;
    }
    Ok(Some(lost))
}

/// The hands of the deals that `samples` runs of attempts find, as masks, and
/// the state of the generator after them. A run that finds none is passed over.
pub open spec fn dealt_masks(
    candidates: Seq<Vec<Candidate>>,
    thresholds: Seq<Vec<u64>>,
    dead_cards: u64,
    state: u64,
    samples: nat,
) -> (Seq<u64>, u64)
    decreases samples,
{
    if samples == 0 {
        (Seq::empty(), state)
    } else {
        let (masks, middle) = dealt_masks(
            candidates,
            thresholds,
            dead_cards,
            state,
            (samples - 1) as nat,
        );
        let (dealt, last) = attempts(
            candidates,
            thresholds,
            None,
            dead_cards,
            middle,
            1,
            MAX_SAMPLE_ATTEMPTS as int,
        );
        match dealt {
            Some(sample) => (masks.push(hands_mask(sample.0)), last),
            None => (masks, last),
        }
    }
}

/// The masks of the hands of sampled deals, for an estimate of what merging
/// costs them.
pub fn sample_hand_masks(
    candidates: Vec<Vec<Candidate>>,
    thresholds: Vec<Vec<u64>>,
    dead_cards: DeckMask,
    seed: u64,
    samples: usize,
) -> (result: Result<Vec<DeckMask>, BlockingError>)
    requires
        candidates_valid(candidates@),
        thresholds_fit(candidates@, thresholds@),
        samples * MAX_SAMPLE_ATTEMPTS <= u64::MAX,
    ensures
        ({
            let dealt = dealt_masks(
                candidates@,
                thresholds@,
                dead_cards,
                seeded_state(seed ^ ESTIMATE_SEED_MIX),
                samples as nat,
            ).0;
            match result {
                Ok(masks) => {
                    &&& samples > 0
                    &&& 3 <= candidates@.len() <= 8
                    &&& first_empty(candidates@, 0) is None
                    &&& masks@ == dealt
                    &&& masks@.len() > 0
                },
                Err(error) => if samples == 0 {
                    error == BlockingError::NoSamples
                } else if !(3 <= candidates@.len() <= 8) {
                    error == BlockingError::Sampler(
                        SamplerError::RangeCount { ranges: candidates@.len() as usize },
                    )
                } else if first_empty(candidates@, 0) is Some {
                    error == BlockingError::Sampler(
                        SamplerError::NoLegalCombos {
                            range: first_empty(candidates@, 0)->Some_0 as usize,
                        },
                    )
                } else {
                    error == BlockingError::NoLegalDeal && dealt.len() == 0
                },
            }
        }),
{
    if samples == 0 {
        return Err(BlockingError::NoSamples);
    }
    let ghost hands = candidates@;
    let ghost draws = thresholds@;
    let ghost start = seeded_state(seed ^ ESTIMATE_SEED_MIX);
    let mut sampler = match MultiwayPrivateDealSampler::new(
        candidates,
        thresholds,
        dead_cards,
        seed ^ ESTIMATE_SEED_MIX,
    ) {
        Ok(sampler) => sampler,
        Err(error) => {
            return Err(BlockingError::Sampler(error));
        },
    };
    proof {
        lemma_no_empty(sampler);
    }
    let mut masks: Vec<DeckMask> = Vec::new();
    let mut done: usize = 0;
    while done < samples
        invariant
            done <= samples,
            samples * MAX_SAMPLE_ATTEMPTS <= u64::MAX,
            sampler.wf(),
            sampler.candidates@ == hands,
            sampler.thresholds@ == draws,
            sampler.dead_cards == dead_cards,
            sampler.total_attempts <= done * MAX_SAMPLE_ATTEMPTS,
            dealt_masks(hands, draws, dead_cards, start, done as nat) == (
                masks@,
                sampler.rng.state,
            ),
        decreases samples - done,
    {
        let ghost before = sampler;
        proof {
            lemma_sampled_deals_are_legal(
                hands,
                draws,
                None,
                dead_cards,
                before.rng.state,
                1,
                MAX_SAMPLE_ATTEMPTS as int,
            );
        }
        match sampler.sample(MAX_SAMPLE_ATTEMPTS) {
            Ok(sample) => {
                proof {
                    lemma_dealt_valid(sampler.candidates@, sample.hands@);
                }
                masks.push(mask_of_hands(&sample.hands));
            },
            Err(_) => {},
        }
        done = done + 1;
    }
    if masks.len() == 0 {
        return Err(BlockingError::NoLegalDeal);
    }
    Ok(masks)
}

proof fn lemma_no_empty(sampler: MultiwayPrivateDealSampler)
    requires
        sampler.wf(),
    ensures
        3 <= sampler.candidates@.len() <= 8,
        first_empty(sampler.candidates@, 0) is None,
{
}

proof fn lemma_dealt_valid(candidates: Seq<Vec<Candidate>>, hands: Seq<crate::cards::Combo>)
    requires
        candidates_valid(candidates),
        hands.len() == candidates.len(),
        forall|p: int| 0 <= p < hands.len() ==> is_candidate(candidates[p]@, #[trigger] hands[p]),
    ensures
        all_valid(hands),
{
    assert forall|p: int| 0 <= p < hands.len() implies (#[trigger] hands[p]).valid() by {
        assert(is_candidate(candidates[p]@, hands[p]));
        let list = candidates[p]@;
        let i = choose|i: int| 0 <= i < list.len() && (#[trigger] list[i]).combo == hands[p];
        assert(candidates[p]@[i].combo.valid());
    }
}

} // verus!
