//! What comes out of ranges: hands with weights, deals and their numbers.
use vstd::prelude::*;

use crate::blocking::{dealt_masks, free_members, lost_members, MAX_SAMPLE_ATTEMPTS};
use crate::cards::{all_cards, cards_mask, has_card, CardError};
use crate::laws::outcomes::lemma_first_fault_of_cards;
use crate::laws::picks::{lemma_pick, picks};
use crate::laws::ranges::{
    deal_both, dealing_entries, lemma_hands_meet, lemma_weights_of_a_hand, lemma_weights_of_a_pair,
    picks_pairs, share_a_card,
};
use crate::laws::spots::is_dead;
use crate::payoff::{hands_mask, lemma_hands_mask};
use crate::ranges::{
    group_weights, private_deals_from_ranges, range_valid, weight_ok, ComboWeights, PairWeights,
    RangeError, WeightedRange,
};
use crate::rng::seeded_state;
use crate::sampler::{
    attempts, sample_multiway_private_deal, sample_outcome, sampled, FixedHand,
    MultiwayPrivateDealSample, MultiwayPrivateDealSampler, SamplerError,
};
use crate::tree::ChanceOutcome;

verus! {

/// Every weight of a range is a number of at least zero, or the range is refused under
/// its number; a group then belongs to one hand and holds its weights in their order.
pub proof fn lemma_grouped_hands(
    range: WeightedRange,
    player: usize,
    dead_cards: u64,
    result: Result<Vec<ComboWeights>, RangeError>,
    i: int,
) -> (origin: Seq<int>)
    requires
        call_ensures(group_weights, (&range, player, dead_cards), result),
        range_valid(range.combos@),
    ensures
        result is Err <==> exists|k: int|
            0 <= k < range.combos@.len() && !weight_ok((#[trigger] range.combos@[k]).weight),
        result matches Err(error) ==> error == (RangeError::InvalidWeight { range: player }),
        result is Ok && 0 <= i < result->Ok_0@.len() ==> {
            let group = result->Ok_0@[i];
            &&& group.combo.valid()
            &&& picks(
                origin,
                range.combos@.len() as int,
                dealing_entries(range.combos@, group.combo, dead_cards),
            )
            &&& group.weights@.len() == origin.len()
            &&& origin.len() > 0
            &&& forall|k: int|
                0 <= k < origin.len() ==> #[trigger] group.weights@[k]
                    == range.combos@[origin[k]].weight
        },
{
    if result is Ok && 0 <= i < result->Ok_0@.len() {
        let group = result->Ok_0@[i];
        assert(group.combo.valid());
        lemma_weights_of_a_hand(range.combos@, group.combo, dead_cards)
    } else {
        Seq::empty()
    }
}

/// Two hands that some entries of the ranges deal together have a group, and a group
/// has the weights of just those entries.
pub proof fn lemma_paired_hands(
    first: WeightedRange,
    second: WeightedRange,
    dead_cards: u64,
    result: Result<Vec<PairWeights>, RangeError>,
    a: int,
    b: int,
    i: int,
) -> (origin: Seq<(int, int)>)
    requires
        call_ensures(private_deals_from_ranges, (&first, &second, dead_cards), result),
        range_valid(first.combos@),
        range_valid(second.combos@),
    ensures
        result is Ok && 0 <= a < first.combos@.len() && 0 <= b < second.combos@.len()
            && deal_both(
            first.combos@[a],
            second.combos@[b],
            (first.combos@[a].combo, second.combos@[b].combo),
            dead_cards,
        ) ==> exists|g: int|
            0 <= g < result->Ok_0@.len() && (#[trigger] result->Ok_0@[g]).hands == (
                first.combos@[a].combo,
                second.combos@[b].combo,
            ),
        result is Ok && 0 <= i < result->Ok_0@.len() ==> {
            let group = result->Ok_0@[i];
            &&& !is_dead(group.hands.0, dead_cards)
            &&& !is_dead(group.hands.1, dead_cards)
            &&& !share_a_card(group.hands.0, group.hands.1)
            &&& picks_pairs(origin, first.combos@, second.combos@, group.hands, dead_cards)
            &&& group.weights@.len() == origin.len()
            &&& origin.len() > 0
            &&& forall|k: int|
                0 <= k < origin.len() ==> #[trigger] group.weights@[k] == (
                    first.combos@[origin[k].0].weight,
                    second.combos@[origin[k].1].weight,
                )
        },
{
    if result is Ok && 0 <= a < first.combos@.len() && 0 <= b < second.combos@.len() && deal_both(
        first.combos@[a],
        second.combos@[b],
        (first.combos@[a].combo, second.combos@[b].combo),
        dead_cards,
    ) {
        let hands = (first.combos@[a].combo, second.combos@[b].combo);
        assert(first.combos@[a].combo.valid() && second.combos@[b].combo.valid());
        let found = lemma_weights_of_a_pair(first.combos@, second.combos@, hands, dead_cards);
        assert(deal_both(first.combos@[a], second.combos@[b], hands, dead_cards));
        assert(found.contains((a, b)));
        assert(crate::ranges::pair_weights_of(
            first.combos@,
            second.combos@,
            dead_cards,
            hands,
        ).len() > 0);
    }
    if result is Ok && 0 <= i < result->Ok_0@.len() {
        let group = result->Ok_0@[i];
        assert(crate::ranges::pair_valid(group.hands, dead_cards));
        lemma_hands_meet(group.hands.0, group.hands.1, dead_cards);
        lemma_hands_meet(group.hands.1, group.hands.0, dead_cards);
        lemma_weights_of_a_pair(first.combos@, second.combos@, group.hands, dead_cards)
    } else {
        Seq::empty()
    }
}

/// A run of attempts counts what it made: the number of the deal that was found, at
/// least one and at most the limit, or the limit where there is none.
pub proof fn lemma_counted_attempts(
    before: MultiwayPrivateDealSampler,
    after: MultiwayPrivateDealSampler,
    fixed: Option<FixedHand>,
    max_attempts: usize,
    sample: Option<MultiwayPrivateDealSample>,
)
    requires
        sampled(before, after, fixed, max_attempts, sample),
        before.wf(),
    ensures
        sample matches Some(found) ==> {
            &&& 1 <= found.attempts <= max_attempts
            &&& after.total_attempts - before.total_attempts == found.attempts
            &&& found.hands@.len() == before.candidates@.len()
        },
        sample is None ==> after.total_attempts - before.total_attempts == max_attempts,
{
    crate::sampler::lemma_sampled_deals_are_legal(
        before.candidates@,
        before.thresholds@,
        fixed,
        before.dead_cards,
        before.rng.state,
        1,
        max_attempts as int,
    );
}

/// A sampler keeps its ranges and dead cards while it draws, draws nothing without an
/// attempt, and otherwise fails only when all attempts are used up.
pub proof fn lemma_samples(
    before: MultiwayPrivateDealSampler,
    after: MultiwayPrivateDealSampler,
    max_attempts: usize,
    result: Result<MultiwayPrivateDealSample, SamplerError>,
)
    requires
        sample_outcome(before, after, max_attempts, result),
    ensures
        after.candidates == before.candidates,
        after.thresholds == before.thresholds,
        after.dead_cards == before.dead_cards,
        after.range_fingerprint == before.range_fingerprint,
        result == Err::<MultiwayPrivateDealSample, SamplerError>(SamplerError::ZeroMaxAttempts)
            <==> max_attempts == 0,
        max_attempts == 0 ==> after == before,
        result is Err && max_attempts > 0 ==> result == Err::<
            MultiwayPrivateDealSample,
            SamplerError,
        >(SamplerError::AttemptsExhausted { limit: max_attempts }) && sampled(
            before,
            after,
            None,
            max_attempts,
            None,
        ),
        result matches Ok(sample) ==> sampled(before, after, None, max_attempts, Some(sample)),
{
}

/// One deal of a fresh sampler is the first of the attempts from its seed.
pub proof fn lemma_single_deals(
    candidates: Vec<Vec<crate::ranges::Candidate>>,
    thresholds: Vec<Vec<u64>>,
    dead_cards: u64,
    seed: u64,
    max_attempts: usize,
    result: Result<MultiwayPrivateDealSample, SamplerError>,
)
    requires
        call_ensures(
            sample_multiway_private_deal,
            (candidates, thresholds, dead_cards, seed, max_attempts),
            result,
        ),
    ensures
        result is Ok ==> 3 <= candidates@.len() && candidates@.len() <= 8 && max_attempts > 0
            && forall|p: int|
            0 <= p < candidates@.len() ==> (#[trigger] candidates@[p])@.len() > 0,
        result matches Ok(sample) ==> attempts(
            candidates@,
            thresholds@,
            None,
            dead_cards,
            seeded_state(seed),
            1,
            max_attempts as int,
        ).0 == Some((sample.hands@, sample.attempts as int)),
        seed != 0 ==> seeded_state(seed) == seed,
        seeded_state(seed) != 0,
{
    crate::laws::ranges::lemma_first_without_candidates(candidates@, 0);
}

/// A new sampler starts from its seed with nothing attempted.
pub proof fn lemma_new_samplers(
    candidates: Vec<Vec<crate::ranges::Candidate>>,
    thresholds: Vec<Vec<u64>>,
    dead_cards: u64,
    seed: u64,
    result: Result<MultiwayPrivateDealSampler, SamplerError>,
)
    requires
        call_ensures(
            MultiwayPrivateDealSampler::new,
            (candidates, thresholds, dead_cards, seed),
            result,
        ),
    ensures
        result is Ok ==> 3 <= candidates@.len() && candidates@.len() <= 8 && forall|p: int|
            0 <= p < candidates@.len() ==> (#[trigger] candidates@[p])@.len() > 0,
        result matches Ok(sampler) ==> {
            &&& sampler.candidates@ == candidates@
            &&& sampler.thresholds@ == thresholds@
            &&& sampler.dead_cards == dead_cards
            &&& sampler.total_attempts == 0
            &&& seed != 0 ==> sampler.rng.state == seed
        },
{
    if result is Ok {
        crate::laws::ranges::lemma_first_without_candidates(candidates@, 0);
    }
}

/// A sampler that is rebuilt stands where it stood; it is refused without a state.
pub proof fn lemma_rebuilt_samplers(
    candidates: Vec<Vec<crate::ranges::Candidate>>,
    thresholds: Vec<Vec<u64>>,
    dead_cards: u64,
    rng_state: u64,
    total_attempts: u64,
    result: Result<MultiwayPrivateDealSampler, SamplerError>,
)
    requires
        call_ensures(
            MultiwayPrivateDealSampler::from_state,
            (candidates, thresholds, dead_cards, rng_state, total_attempts),
            result,
        ),
    ensures
        result == Err::<MultiwayPrivateDealSampler, SamplerError>(SamplerError::ZeroState)
            <==> rng_state == 0,
        result matches Ok(sampler) ==> {
            &&& sampler.candidates@ == candidates@
            &&& sampler.thresholds@ == thresholds@
            &&& sampler.dead_cards == dead_cards
            &&& sampler.rng.state == rng_state
            &&& sampler.total_attempts == total_attempts
        },
{
}

/// A fork draws from the same ranges, from its own state.
pub proof fn lemma_forked_samplers(
    sampler: MultiwayPrivateDealSampler,
    rng_state: u64,
    total_attempts: u64,
    result: Result<MultiwayPrivateDealSampler, SamplerError>,
    p: int,
)
    requires
        call_ensures(
            MultiwayPrivateDealSampler::fork_with_state,
            (&sampler, rng_state, total_attempts),
            result,
        ),
        0 <= p < sampler.candidates@.len(),
        sampler.thresholds@.len() == sampler.candidates@.len(),
    ensures
        result matches Ok(fork) ==> {
            &&& fork.dead_cards == sampler.dead_cards
            &&& fork.range_fingerprint == sampler.range_fingerprint
            &&& fork.candidates@.len() == sampler.candidates@.len()
            &&& fork.candidates@[p]@ == sampler.candidates@[p]@
            &&& fork.thresholds@[p]@ == sampler.thresholds@[p]@
            &&& fork.rng.state == rng_state
            &&& fork.total_attempts == total_attempts
        },
        result is Err ==> rng_state == 0,
{
}

pub open spec fn stays_free(
    outcomes: Seq<ChanceOutcome>,
    members: Seq<usize>,
    hands: u64,
) -> spec_fn(int) -> bool {
    |k: int| cards_mask(outcomes[members[k] as int].cards@) & hands == 0
}

/// The members that the hands leave free are listed in their order, all of them.
pub proof fn lemma_free_members(
    outcomes: Seq<ChanceOutcome>,
    members: Seq<usize>,
    hands: u64,
    count: int,
) -> (origin: Seq<int>)
    requires
        0 <= count <= members.len(),
    ensures
        picks(origin, count, stays_free(outcomes, members, hands)),
        free_members(outcomes, members, hands, count).len() == origin.len(),
        forall|k: int|
            0 <= k < origin.len() ==> #[trigger] free_members(outcomes, members, hands, count)[k]
                == members[origin[k]],
    decreases count,
{
    if count == 0 {
        Seq::empty()
    } else {
        let shorter = lemma_free_members(outcomes, members, hands, count - 1);
        let origin = lemma_pick(shorter, count - 1, stays_free(outcomes, members, hands));
        let before = free_members(outcomes, members, hands, count - 1);
        let after = free_members(outcomes, members, hands, count);
        assert forall|k: int| 0 <= k < origin.len() implies #[trigger] after[k]
            == members[origin[k]] by {
            if k < shorter.len() {
                assert(before[k] == members[shorter[k]]);
            }
        }
        origin
    }
}

/// Merging takes nothing from a deal whose hands leave the representative free; where
/// they do not, it takes just the members that they leave free.
pub proof fn lemma_members_lost(
    representative: Vec<u8>,
    outcomes: Vec<ChanceOutcome>,
    members: Vec<usize>,
    hands: u64,
    result: Result<Option<Vec<usize>>, CardError>,
) -> (origin: Seq<int>)
    requires
        call_ensures(lost_members, (&representative, &outcomes, &members, hands), result),
    ensures
        result is Ok ==> all_cards(representative@),
        result matches Ok(None) ==> cards_mask(representative@) & hands == 0,
        result matches Ok(Some(lost)) ==> {
            &&& cards_mask(representative@) & hands != 0
            &&& picks(
                origin,
                members@.len() as int,
                stays_free(outcomes@, members@, hands),
            )
            &&& lost@.len() == origin.len()
            &&& forall|k: int|
                0 <= k < origin.len() ==> #[trigger] lost@[k] == members@[origin[k]]
        },
{
    lemma_first_fault_of_cards(representative@);
    lemma_free_members(outcomes@, members@, hands, members@.len() as int)
}

/// Each sample of an estimate goes on where the one before it stopped: a deal that is
/// found adds a mask with just the cards of its hands, one that is not adds nothing, and
/// earlier masks stay.
pub proof fn lemma_sampled_masks(
    candidates: Seq<Vec<crate::ranges::Candidate>>,
    thresholds: Seq<Vec<u64>>,
    dead_cards: u64,
    state: u64,
    samples: nat,
    card: u8,
)
    requires
        card < 64,
    ensures
        ({
            let (masks, middle) = dealt_masks(candidates, thresholds, dead_cards, state, samples);
            let (more, end) = dealt_masks(candidates, thresholds, dead_cards, state, samples + 1);
            let (dealt, last) = attempts(
                candidates,
                thresholds,
                None,
                dead_cards,
                middle,
                1,
                MAX_SAMPLE_ATTEMPTS as int,
            );
            &&& samples == 0 ==> masks.len() == 0 && middle == state
            &&& end == last
            &&& dealt is None ==> more == masks
            &&& dealt matches Some(sample) ==> {
                &&& more.len() == masks.len() + 1
                &&& more.drop_last() == masks
                &&& has_card(more.last(), card) <==> exists|h: int|
                    0 <= h < sample.0.len() && has_card((#[trigger] sample.0[h]).spec_mask(), card)
            }
        }),
{
    let (masks, middle) = dealt_masks(candidates, thresholds, dead_cards, state, samples);
    let (dealt, last) = attempts(
        candidates,
        thresholds,
        None,
        dead_cards,
        middle,
        1,
        MAX_SAMPLE_ATTEMPTS as int,
    );
    if dealt is Some {
        let hands = dealt->Some_0.0;
        lemma_hands_mask(hands, card);
        assert(masks.push(hands_mask(hands)).drop_last() =~= masks);
    }
}

} // verus!
