//! Sampling of private deals by rejection.
use vstd::prelude::*;

use crate::cards::{Combo, DeckMask};
use crate::hash::{
    concat_words, fnv_words, lemma_concat_step, lemma_list_readable, lemma_same_front,
    lemma_vec_len, list_words, readable, Fingerprint, FNV_OFFSET,
};
use crate::ranges::{candidates_valid, copy_candidates, Candidate};
use crate::rng::{
    chosen_index, draw_of, lemma_chosen_index, lemma_state_never_zero, seeded_state, xorshift,
    XorShift64,
};

verus! {

#[derive(Debug, Clone, Copy, PartialEq, Eq, Structural)]
pub enum SamplerError {
    RangeCount { ranges: usize },
    NoLegalCombos { range: usize },
    ZeroMaxAttempts,
    UnknownPlayer { player: usize },
    NotACandidate { player: usize },
    AttemptsExhausted { limit: usize },
    /// No legal deal came up in which a player holds a given hand.
    ConditionedExhausted { limit: usize },
    ZeroState,
}

/// The words of one candidate.
pub open spec fn candidate_encoding() -> spec_fn(Candidate) -> Seq<u64> {
    |candidate: Candidate|
        seq![
            candidate.combo.first as u64,
            candidate.combo.second as u64,
            candidate.weight,
        ]
}

pub open spec fn candidate_list_encoding() -> spec_fn(Vec<Candidate>) -> Seq<u64> {
    |list: Vec<Candidate>| list_words(list@, candidate_encoding())
}

/// The words that identify the ranges of a sampler.
pub open spec fn sampler_words(dead_cards: u64, candidates: Seq<Vec<Candidate>>) -> Seq<u64> {
    seq![dead_cards] + list_words(candidates, candidate_list_encoding())
}

fn hash_candidates(fingerprint: &mut Fingerprint, list: &Vec<Candidate>)
    requires
        old(fingerprint).wf(),
    ensures
        final(fingerprint).wf(),
        final(fingerprint).words@ == old(fingerprint).words@ + list_words(
            list@,
            candidate_encoding(),
        ),
{
    let ghost start = fingerprint.words@;
    let ghost encode = candidate_encoding();
    fingerprint.word(list.len() as u64);
    let mut index: usize = 0;
    assert(list@.take(0) =~= Seq::<Candidate>::empty());
    assert(fingerprint.words@ =~= start.push(list@.len() as u64) + concat_words(
        list@.take(0),
        encode,
    ));
    while index < list.len()
        invariant
            index <= list@.len(),
            fingerprint.wf(),
            encode == candidate_encoding(),
            fingerprint.words@ == start.push(list@.len() as u64) + concat_words(
                list@.take(index as int),
                encode,
            ),
        decreases list.len() - index,
    {
        proof {
            lemma_concat_step(list@, encode, index as int);
        }
        let candidate = list[index];
        fingerprint.word(candidate.combo.first as u64);
        fingerprint.word(candidate.combo.second as u64);
        fingerprint.word(candidate.weight);
        index = index + 1;
        assert(fingerprint.words@ =~= start.push(list@.len() as u64) + concat_words(
            list@.take(index as int),
            encode,
        ));
    }
    assert(list@.take(index as int) =~= list@);
    assert(fingerprint.words@ =~= start + list_words(list@, encode));
}

/// The fingerprint of the ranges that a sampler draws from.
pub fn sampler_fingerprint(dead_cards: DeckMask, candidates: &Vec<Vec<Candidate>>) -> (hash: u64)
    ensures
        hash == fnv_words(FNV_OFFSET, sampler_words(dead_cards, candidates@)),
{
    let mut fingerprint = Fingerprint::new();
    let ghost encode = candidate_list_encoding();
    fingerprint.word(dead_cards);
    fingerprint.word(candidates.len() as u64);
    let ghost start = seq![dead_cards, candidates@.len() as u64];
    let mut index: usize = 0;
    assert(candidates@.take(0) =~= Seq::<Vec<Candidate>>::empty());
    assert(fingerprint.words@ =~= start + concat_words(candidates@.take(0), encode));
    while index < candidates.len()
        invariant
            index <= candidates@.len(),
            fingerprint.wf(),
            encode == candidate_list_encoding(),
            fingerprint.words@ == start + concat_words(candidates@.take(index as int), encode),
        decreases candidates.len() - index,
    {
        proof {
            lemma_concat_step(candidates@, encode, index as int);
        }
        hash_candidates(&mut fingerprint, &candidates[index]);
        index = index + 1;
        assert(fingerprint.words@ =~= start + concat_words(
            candidates@.take(index as int),
            encode,
        ));
    }
    assert(candidates@.take(index as int) =~= candidates@);
    assert(fingerprint.words@ =~= sampler_words(dead_cards, candidates@));
    fingerprint.hash
}

/// The hands of one deal and the number of attempts that it took.
#[derive(Debug, Clone)]
pub struct MultiwayPrivateDealSample {
    pub hands: Vec<Combo>,
    pub attempts: u64,
}

/// The hand of a seat that is not drawn.
#[derive(Debug, Clone, Copy, PartialEq, Eq, Structural)]
pub struct FixedHand {
    pub player: usize,
    pub hand: Combo,
}

/// What one attempt deals from `player` on, and the state of the generator
/// after it: hands are drawn seat by seat until one meets a card that is out.
pub open spec fn attempt(
    candidates: Seq<Vec<Candidate>>,
    thresholds: Seq<Vec<u64>>,
    fixed: Option<FixedHand>,
    player: int,
    used: u64,
    hands: Seq<Combo>,
    state: u64,
) -> (Option<Seq<Combo>>, u64)
    decreases candidates.len() - player,
{
    if player >= candidates.len() {
        (Some(hands), state)
    } else {
        let held = fixed matches Some(held) && held.player == player;
        let next = if held { state } else { xorshift(state) };
        let combo = if held {
            fixed->Some_0.hand
        } else {
            candidates[player]@[chosen_index(thresholds[player]@, draw_of(next))].combo
        };
        if combo.spec_mask() & used != 0 {
            (None, next)
        } else {
            attempt(
                candidates,
                thresholds,
                fixed,
                player + 1,
                used | combo.spec_mask(),
                hands.push(combo),
                next,
            )
        }
    }
}

/// The first attempt from number `number` to `limit` that succeeds, with its
/// number, and the state of the generator at the end.
pub open spec fn attempts(
    candidates: Seq<Vec<Candidate>>,
    thresholds: Seq<Vec<u64>>,
    fixed: Option<FixedHand>,
    dead_cards: u64,
    state: u64,
    number: int,
    limit: int,
) -> (Option<(Seq<Combo>, int)>, u64)
    decreases limit - number + 1,
{
    if number > limit {
        (None, state)
    } else {
        let (dealt, next) = attempt(
            candidates,
            thresholds,
            fixed,
            0,
            dead_cards,
            Seq::empty(),
            state,
        );
        match dealt {
            Some(hands) => (Some((hands, number)), next),
            None => attempts(
                candidates,
                thresholds,
                fixed,
                dead_cards,
                next,
                number + 1,
                limit,
            ),
        }
    }
}

pub struct MultiwayPrivateDealSampler {
    pub candidates: Vec<Vec<Candidate>>,
    /// Running sums of the probabilities of the candidates, as draw thresholds.
    pub thresholds: Vec<Vec<u64>>,
    pub dead_cards: DeckMask,
    pub range_fingerprint: u64,
    pub rng: XorShift64,
    pub total_attempts: u64,
}

/// Each candidate has its threshold.
pub open spec fn thresholds_fit(
    candidates: Seq<Vec<Candidate>>,
    thresholds: Seq<Vec<u64>>,
) -> bool {
    &&& thresholds.len() == candidates.len()
    &&& forall|p: int|
        0 <= p < candidates.len() ==> (#[trigger] thresholds[p])@.len() == candidates[p]@.len()
}

/// The first player without a candidate.
pub open spec fn first_empty(candidates: Seq<Vec<Candidate>>, from: int) -> Option<int>
    decreases candidates.len() - from,
{
    if from >= candidates.len() {
        None
    } else if candidates[from]@.len() == 0 {
        Some(from)
    } else {
        first_empty(candidates, from + 1)
    }
}

fn copy_candidate_lists(lists: &Vec<Vec<Candidate>>) -> (copy: Vec<Vec<Candidate>>)
    ensures
        copy@.len() == lists@.len(),
        forall|i: int| 0 <= i < lists@.len() ==> (#[trigger] copy@[i])@ == lists@[i]@,
{
    let mut copy: Vec<Vec<Candidate>> = Vec::new();
    let mut index: usize = 0;
    while index < lists.len()
        invariant
            index <= lists@.len(),
            copy@.len() == index,
            forall|i: int| 0 <= i < index ==> (#[trigger] copy@[i])@ == lists@[i]@,
        decreases lists.len() - index,
    {
        copy.push(copy_candidates(&lists[index]));
        index = index + 1;
    }
    copy
}

fn copy_thresholds(lists: &Vec<Vec<u64>>) -> (copy: Vec<Vec<u64>>)
    ensures
        copy@.len() == lists@.len(),
        forall|i: int| 0 <= i < lists@.len() ==> (#[trigger] copy@[i])@ == lists@[i]@,
{
    let mut copy: Vec<Vec<u64>> = Vec::new();
    let mut index: usize = 0;
    while index < lists.len()
        invariant
            index <= lists@.len(),
            copy@.len() == index,
            forall|i: int| 0 <= i < index ==> (#[trigger] copy@[i])@ == lists@[i]@,
        decreases lists.len() - index,
    {
        copy.push(crate::checkpoint::copy_words(&lists[index]));
        index = index + 1;
    }
    copy
}

impl MultiwayPrivateDealSampler {
    pub open spec fn wf(self) -> bool {
        &&& 3 <= self.candidates@.len() <= 8
        &&& candidates_valid(self.candidates@)
        &&& thresholds_fit(self.candidates@, self.thresholds@)
        &&& first_empty(self.candidates@, 0) is None
        &&& self.range_fingerprint == fnv_words(
            FNV_OFFSET,
            sampler_words(self.dead_cards, self.candidates@),
        )
        &&& self.rng.state != 0
    }

    /// Both samplers draw from the same ranges.
    pub open spec fn same_ranges(self, other: Self) -> bool {
        &&& self.dead_cards == other.dead_cards
        &&& self.range_fingerprint == other.range_fingerprint
        &&& self.candidates@.len() == other.candidates@.len()
        &&& forall|i: int|
            0 <= i < self.candidates@.len() ==> (#[trigger] self.candidates@[i])@
                == other.candidates@[i]@
        &&& self.thresholds@.len() == other.thresholds@.len()
        &&& forall|i: int|
            0 <= i < self.thresholds@.len() ==> (#[trigger] self.thresholds@[i])@
                == other.thresholds@[i]@
    }

    /// Makes a sampler for three to eight players.
    pub fn new(
        candidates: Vec<Vec<Candidate>>,
        thresholds: Vec<Vec<u64>>,
        dead_cards: DeckMask,
        seed: u64,
    ) -> (result: Result<Self, SamplerError>)
        requires
            candidates_valid(candidates@),
            thresholds_fit(candidates@, thresholds@),
        ensures
            match result {
                Ok(sampler) => {
                    &&& sampler.wf()
                    &&& sampler.candidates@ == candidates@
                    &&& sampler.thresholds@ == thresholds@
                    &&& sampler.dead_cards == dead_cards
                    &&& sampler.rng.state == seeded_state(seed)
                    &&& sampler.total_attempts == 0
                },
                Err(error) => if !(3 <= candidates@.len() <= 8) {
                    error == (SamplerError::RangeCount { ranges: candidates@.len() as usize })
                } else {
                    &&& first_empty(candidates@, 0) is Some
                    &&& error == (SamplerError::NoLegalCombos {
                        range: first_empty(candidates@, 0)->Some_0 as usize,
                    })
                },
            },
    {
        if candidates.len() < 3 || candidates.len() > 8 {
            return Err(SamplerError::RangeCount { ranges: candidates.len() });
        }
        let mut player: usize = 0;
        while player < candidates.len()
            invariant
                3 <= candidates@.len() <= 8,
                player <= candidates@.len(),
                first_empty(candidates@, 0) == first_empty(candidates@, player as int),
            decreases candidates.len() - player,
        {
            if candidates[player].len() == 0 {
                return Err(SamplerError::NoLegalCombos { range: player });
            }
            player = player + 1;
        }
        let range_fingerprint = sampler_fingerprint(dead_cards, &candidates);
        Ok(
            MultiwayPrivateDealSampler {
                candidates,
                thresholds,
                dead_cards,
                range_fingerprint,
                rng: XorShift64::new(seed),
                total_attempts: 0,
            },
        )
    }

    /// Rebuilds a sampler that had reached a state.
    pub fn from_state(
        candidates: Vec<Vec<Candidate>>,
        thresholds: Vec<Vec<u64>>,
        dead_cards: DeckMask,
        rng_state: u64,
        total_attempts: u64,
    ) -> (result: Result<Self, SamplerError>)
        requires
            candidates_valid(candidates@),
            thresholds_fit(candidates@, thresholds@),
        ensures
            match result {
                Ok(sampler) => {
                    &&& sampler.wf()
                    &&& sampler.candidates@ == candidates@
                    &&& sampler.thresholds@ == thresholds@
                    &&& sampler.dead_cards == dead_cards
                    &&& sampler.rng.state == rng_state
                    &&& sampler.total_attempts == total_attempts
                },
                Err(error) => if rng_state == 0 {
                    error == SamplerError::ZeroState
                } else if !(3 <= candidates@.len() <= 8) {
                    error == (SamplerError::RangeCount { ranges: candidates@.len() as usize })
                } else {
                    &&& first_empty(candidates@, 0) is Some
                    &&& error == (SamplerError::NoLegalCombos {
                        range: first_empty(candidates@, 0)->Some_0 as usize,
                    })
                },
            },
    {
        if rng_state == 0 {
            return Err(SamplerError::ZeroState);
        }
        match Self::new(candidates, thresholds, dead_cards, 1) {
            Ok(mut sampler) => {
                sampler.rng = XorShift64 { state: rng_state };
                sampler.total_attempts = total_attempts;
                Ok(sampler)
            },
            Err(error) => Err(error),
        }
    }

    /// A sampler of the same ranges in another state.
    pub fn fork_with_state(&self, rng_state: u64, total_attempts: u64) -> (result: Result<
        Self,
        SamplerError,
    >)
        requires
            self.wf(),
        ensures
            match result {
                Ok(sampler) => {
                    &&& sampler.wf()
                    &&& sampler.same_ranges(*self)
                    &&& sampler.rng.state == rng_state
                    &&& sampler.total_attempts == total_attempts
                },
                Err(error) => rng_state == 0 && error == SamplerError::ZeroState,
            },
    {
        if rng_state == 0 {
            return Err(SamplerError::ZeroState);
        }
        let sampler = MultiwayPrivateDealSampler {
            candidates: copy_candidate_lists(&self.candidates),
            thresholds: copy_thresholds(&self.thresholds),
            dead_cards: self.dead_cards,
            range_fingerprint: self.range_fingerprint,
            rng: XorShift64 { state: rng_state },
            total_attempts,
        };
        proof {
            lemma_same_lists(self.candidates@, sampler.candidates@, self.dead_cards);
        }
        Ok(sampler)
    }

    pub fn total_attempts(&self) -> (count: u64)
        ensures
            count == self.total_attempts,
    {
        self.total_attempts
    }

    pub fn rng_state(&self) -> (state: u64)
        ensures
            state == self.rng.state,
    {
        self.rng.state
    }

    pub fn dead_cards(&self) -> (mask: DeckMask)
        ensures
            mask == self.dead_cards,
    {
        self.dead_cards
    }

    pub fn range_fingerprint(&self) -> (hash: u64)
        ensures
            hash == self.range_fingerprint,
    {
        self.range_fingerprint
    }

    /// Nothing but the generator and the counter differs.
    pub open spec fn kept(self, before: Self) -> bool {
        &&& self.candidates == before.candidates
        &&& self.thresholds == before.thresholds
        &&& self.dead_cards == before.dead_cards
        &&& self.range_fingerprint == before.range_fingerprint
    }

    /// Draws the hand of one player by the weights of the range.
    pub fn sample_hand_for_player(&mut self, player: usize) -> (result: Result<
        Combo,
        SamplerError,
    >)
        requires
            old(self).wf(),
        ensures
            final(self).wf(),
            final(self).kept(*old(self)),
            final(self).total_attempts == old(self).total_attempts,
            match result {
                Ok(hand) => {
                    let next = xorshift(old(self).rng.state);
                    &&& player < old(self).candidates@.len()
                    &&& final(self).rng.state == next
                    &&& hand == old(self).candidates@[player as int]@[chosen_index(
                        old(self).thresholds@[player as int]@,
                        draw_of(next),
                    )].combo
                },
                Err(error) => {
                    &&& player >= old(self).candidates@.len()
                    &&& error == (SamplerError::UnknownPlayer { player })
                    &&& *final(self) == *old(self)
                },
            },
    {
        if player >= self.candidates.len() {
            return Err(SamplerError::UnknownPlayer { player });
        }
        proof {
            lemma_no_empty(self.candidates@, 0, player as int);
            lemma_state_never_zero(self.rng.state);
        }
        let index = self.rng.sample_index(self.thresholds[player].as_slice());
        Ok(self.candidates[player][index].combo)
    }

    /// One attempt, with the hand of one seat given or all hands drawn.
    fn deal_once(&mut self, fixed: Option<FixedHand>) -> (dealt: Option<Vec<Combo>>)
        requires
            old(self).wf(),
            fixed matches Some(held) ==> held.hand.valid(),
        ensures
            final(self).wf(),
            final(self).kept(*old(self)),
            final(self).total_attempts == old(self).total_attempts,
            ({
                let outcome = attempt(
                    old(self).candidates@,
                    old(self).thresholds@,
                    fixed,
                    0,
                    old(self).dead_cards,
                    Seq::empty(),
                    old(self).rng.state,
                );
                &&& final(self).rng.state == outcome.1
                &&& match dealt {
                    Some(hands) => outcome.0 == Some(hands@),
                    None => outcome.0 is None,
                }
            }),
    {
        let mut used: u64 = self.dead_cards;
        let mut hands: Vec<Combo> = Vec::new();
        let mut player: usize = 0;
        let ghost before = *self;
        let ghost outcome = attempt(
            before.candidates@,
            before.thresholds@,
            fixed,
            0,
            before.dead_cards,
            Seq::empty(),
            before.rng.state,
        );
        assert(hands@ =~= Seq::<Combo>::empty());
        while player < self.candidates.len()
            invariant
                self.wf(),
                self.kept(before),
                before == *old(self),
                outcome == attempt(
                    before.candidates@,
                    before.thresholds@,
                    fixed,
                    0,
                    before.dead_cards,
                    Seq::empty(),
                    before.rng.state,
                ),
                self.total_attempts == before.total_attempts,
                fixed matches Some(held) ==> held.hand.valid(),
                player <= self.candidates@.len(),
                outcome == attempt(
                    self.candidates@,
                    self.thresholds@,
                    fixed,
                    player as int,
                    used,
                    hands@,
                    self.rng.state,
                ),
            decreases self.candidates.len() - player,
        {
            let held: Option<Combo> = match fixed {
                Some(given) => if given.player == player {
                    Some(given.hand)
                } else {
                    None
                },
                None => None,
            };
            let combo = match held {
                Some(hand) => hand,
                None => {
                    proof {
                        lemma_no_empty(self.candidates@, 0, player as int);
                        lemma_state_never_zero(self.rng.state);
                    }
                    let index = self.rng.sample_index(self.thresholds[player].as_slice());
                    self.candidates[player][index].combo
                },
            };
            if combo.conflicts(used) {
                return None;
            }
            used = used | combo.mask();
            hands.push(combo);
            player = player + 1;
        }
        Some(hands)
    }

    /// What attempts up to a limit come to: a deal with the number of its attempt,
    /// or none.
    pub open spec fn outcome(self, fixed: Option<FixedHand>, max_attempts: usize) -> Option<
        (Seq<Combo>, int),
    > {
        attempts(
            self.candidates@,
            self.thresholds@,
            fixed,
            self.dead_cards,
            self.rng.state,
            1,
            max_attempts as int,
        ).0
    }

    /// The attempts that are made until a deal is legal, or up to the limit.
    pub open spec fn attempts_made(self, fixed: Option<FixedHand>, max_attempts: usize) -> int {
        match self.outcome(fixed, max_attempts) {
            Some(dealt) => dealt.1,
            None => max_attempts as int,
        }
    }

    /// The counter has room for the attempts that will be made.
    pub open spec fn can_count(self, fixed: Option<FixedHand>, max_attempts: usize) -> bool {
        self.total_attempts + self.attempts_made(fixed, max_attempts) <= u64::MAX
    }

    /// Makes attempts up to a limit.
    fn deal_within(&mut self, fixed: Option<FixedHand>, max_attempts: usize) -> (sample:
        Option<MultiwayPrivateDealSample>)
        requires
            old(self).wf(),
            old(self).can_count(fixed, max_attempts),
            fixed matches Some(held) ==> held.hand.valid(),
        ensures
            final(self).wf(),
            final(self).kept(*old(self)),
            sampled(*old(self), *final(self), fixed, max_attempts, sample),
    {
        let mut number: usize = 0;
        let ghost before = *self;
        let ghost outcome = attempts(
            before.candidates@,
            before.thresholds@,
            fixed,
            before.dead_cards,
            before.rng.state,
            1,
            max_attempts as int,
        );
        while number < max_attempts
            invariant
                self.wf(),
                self.kept(before),
                before == *old(self),
                outcome == attempts(
                    before.candidates@,
                    before.thresholds@,
                    fixed,
                    before.dead_cards,
                    before.rng.state,
                    1,
                    max_attempts as int,
                ),
                number <= max_attempts,
                before.can_count(fixed, max_attempts),
                self.total_attempts == before.total_attempts + number,
                fixed matches Some(held) ==> held.hand.valid(),
                outcome == attempts(
                    self.candidates@,
                    self.thresholds@,
                    fixed,
                    self.dead_cards,
                    self.rng.state,
                    number as int + 1,
                    max_attempts as int,
                ),
            decreases max_attempts - number,
        {
            proof {
                lemma_sampled_deals_are_legal(
                    self.candidates@,
                    self.thresholds@,
                    fixed,
                    self.dead_cards,
                    self.rng.state,
                    number as int + 1,
                    max_attempts as int,
                );
            }
            number = number + 1;
            self.total_attempts = self.total_attempts + 1;
            match self.deal_once(fixed) {
                Some(hands) => {
                    return Some(MultiwayPrivateDealSample { hands, attempts: number as u64 });
                },
                None => {},
            }
        }
        None
    }

    /// Has the counter room for the attempts that drawing a deal will take?
    pub fn has_room(&self, fixed: Option<FixedHand>, max_attempts: usize) -> (yes: bool)
        requires
            self.wf(),
            fixed matches Some(held) ==> held.hand.valid(),
        ensures
            yes == self.can_count(fixed, max_attempts),
    {
        if self.total_attempts <= u64::MAX - max_attempts as u64 {
            proof {
                self.lemma_attempts_within(fixed, max_attempts);
            }
            return true;
        }
        match self.count_attempts(fixed, max_attempts) {
            Some(made) => self.total_attempts <= u64::MAX - made,
            None => false,
        }
    }

    /// The attempts that drawing a deal would take, without drawing it.
    pub fn count_attempts(&self, fixed: Option<FixedHand>, max_attempts: usize) -> (count: Option<
        u64,
    >)
        requires
            self.wf(),
            fixed matches Some(held) ==> held.hand.valid(),
        ensures
            match self.outcome(fixed, max_attempts) {
                Some(dealt) => count == Some(dealt.1 as u64) && 1 <= dealt.1 <= max_attempts,
                None => count is None,
            },
    {
        proof {
            self.lemma_attempts_within(fixed, max_attempts);
        }
        match self.fork_with_state(self.rng.state, 0) {
            Ok(mut trial) => {
                proof {
                    lemma_same_attempts(
                        trial,
                        *self,
                        fixed,
                        self.rng.state,
                        1,
                        max_attempts as int,
                    );
                }
                match trial.deal_within(fixed, max_attempts) {
                    Some(sample) => Some(sample.attempts),
                    None => None,
                }
            },
            Err(_) => None,
        }
    }

    /// A deal takes at least one attempt and no more than the limit.
    pub proof fn lemma_attempts_within(self, fixed: Option<FixedHand>, max_attempts: usize)
        requires
            self.wf(),
        ensures
            0 <= self.attempts_made(fixed, max_attempts) <= max_attempts,
            self.outcome(fixed, max_attempts) is Some ==> 1 <= self.attempts_made(
                fixed,
                max_attempts,
            ),
    {
        lemma_sampled_deals_are_legal(
            self.candidates@,
            self.thresholds@,
            fixed,
            self.dead_cards,
            self.rng.state,
            1,
            max_attempts as int,
        );
    }

    /// Draws a legal deal.
    pub fn sample(&mut self, max_attempts: usize) -> (result: Result<
        MultiwayPrivateDealSample,
        SamplerError,
    >)
        requires
            old(self).wf(),
            old(self).can_count(None, max_attempts),
        ensures
            final(self).wf(),
            sample_outcome(*old(self), *final(self), max_attempts, result),
    {
        if max_attempts == 0 {
            return Err(SamplerError::ZeroMaxAttempts);
        }
        match self.deal_within(None, max_attempts) {
            Some(sample) => Ok(sample),
            None => Err(SamplerError::AttemptsExhausted { limit: max_attempts }),
        }
    }

    /// Draws a legal deal in which one player holds a given hand.
    pub fn sample_conditioned(&mut self, player: usize, hand: Combo, max_attempts: usize) -> (result:
        Result<MultiwayPrivateDealSample, SamplerError>)
        requires
            old(self).wf(),
            player < old(self).candidates@.len() && is_candidate(
                old(self).candidates@[player as int]@,
                hand,
            ) ==> old(self).can_count(Some(FixedHand { player, hand }), max_attempts),
        ensures
            final(self).wf(),
            final(self).kept(*old(self)),
            ({
                let fixed = Some(FixedHand { player, hand });
                let known = player < old(self).candidates@.len();
                let legal = known && is_candidate(old(self).candidates@[player as int]@, hand);
                match result {
                    Ok(sample) => max_attempts > 0 && legal && sampled(
                        *old(self),
                        *final(self),
                        fixed,
                        max_attempts,
                        Some(sample),
                    ),
                    Err(error) => if max_attempts == 0 {
                        error == SamplerError::ZeroMaxAttempts && *final(self) == *old(self)
                    } else if !known {
                        error == (SamplerError::UnknownPlayer { player }) && *final(self) == *old(self)
                    } else if !legal {
                        error == (SamplerError::NotACandidate { player }) && *final(self) == *old(self)
                    } else {
                        &&& error == (SamplerError::ConditionedExhausted { limit: max_attempts })
                        &&& sampled(*old(self), *final(self), fixed, max_attempts, None)
                    },
                }
            }),
    {
        if max_attempts == 0 {
            return Err(SamplerError::ZeroMaxAttempts);
        }
        if player >= self.candidates.len() {
            return Err(SamplerError::UnknownPlayer { player });
        }
        if !holds_candidate(&self.candidates[player], hand) {
            return Err(SamplerError::NotACandidate { player });
        }
        proof {
            let list = self.candidates@[player as int]@;
            let i = choose|i: int| 0 <= i < list.len() && (#[trigger] list[i]).combo == hand;
            assert(self.candidates@[player as int]@[i].combo.valid());
        }
        match self.deal_within(Some(FixedHand { player, hand }), max_attempts) {
            Some(sample) => Ok(sample),
            None => Err(SamplerError::ConditionedExhausted { limit: max_attempts }),
        }
    }
}

/// What a run of attempts leaves behind: the sample is the first legal deal,
/// the counter has moved by the attempts made.
pub open spec fn sampled(
    before: MultiwayPrivateDealSampler,
    after: MultiwayPrivateDealSampler,
    fixed: Option<FixedHand>,
    max_attempts: usize,
    sample: Option<MultiwayPrivateDealSample>,
) -> bool {
    let outcome = attempts(
        before.candidates@,
        before.thresholds@,
        fixed,
        before.dead_cards,
        before.rng.state,
        1,
        max_attempts as int,
    );
    &&& after.rng.state == outcome.1
    &&& match sample {
        Some(found) => {
            &&& outcome.0 == Some((found.hands@, found.attempts as int))
            &&& after.total_attempts == before.total_attempts + found.attempts
        },
        None => outcome.0 is None && after.total_attempts == before.total_attempts + max_attempts,
    }
}

/// What a call of `sample` gives and leaves behind: the first legal deal within
/// the limit, or an error.
pub open spec fn sample_outcome(
    before: MultiwayPrivateDealSampler,
    after: MultiwayPrivateDealSampler,
    max_attempts: usize,
    result: Result<MultiwayPrivateDealSample, SamplerError>,
) -> bool {
    &&& after.kept(before)
    &&& match result {
        Ok(sample) => max_attempts > 0 && sampled(before, after, None, max_attempts, Some(sample)),
        Err(error) => if max_attempts == 0 {
            error == SamplerError::ZeroMaxAttempts && after == before
        } else {
            &&& error == (SamplerError::AttemptsExhausted { limit: max_attempts })
            &&& sampled(before, after, None, max_attempts, None)
        },
    }
}

pub open spec fn is_candidate(list: Seq<Candidate>, hand: Combo) -> bool {
    exists|i: int| 0 <= i < list.len() && (#[trigger] list[i]).combo == hand
}

fn holds_candidate(list: &Vec<Candidate>, hand: Combo) -> (yes: bool)
    ensures
        yes == is_candidate(list@, hand),
{
    let mut index: usize = 0;
    while index < list.len()
        invariant
            index <= list@.len(),
            forall|i: int| 0 <= i < index ==> (#[trigger] list@[i]).combo != hand,
        decreases list.len() - index,
    {
        if list[index].combo == hand {
            assert(list@[index as int].combo == hand);
            return true;
        }
        index = index + 1;
    }
    false
}

/// Draws one deal with a fresh sampler.
pub fn sample_multiway_private_deal(
    candidates: Vec<Vec<Candidate>>,
    thresholds: Vec<Vec<u64>>,
    dead_cards: DeckMask,
    seed: u64,
    max_attempts: usize,
) -> (result: Result<MultiwayPrivateDealSample, SamplerError>)
    requires
        candidates_valid(candidates@),
        thresholds_fit(candidates@, thresholds@),
    ensures
        ({
            let outcome = attempts(
                candidates@,
                thresholds@,
                None,
                dead_cards,
                seeded_state(seed),
                1,
                max_attempts as int,
            );
            if !(3 <= candidates@.len() <= 8) {
                result == Err::<MultiwayPrivateDealSample, SamplerError>(
                    SamplerError::RangeCount { ranges: candidates@.len() as usize },
                )
            } else if first_empty(candidates@, 0) is Some {
                result == Err::<MultiwayPrivateDealSample, SamplerError>(
                    SamplerError::NoLegalCombos {
                        range: first_empty(candidates@, 0)->Some_0 as usize,
                    },
                )
            } else if max_attempts == 0 {
                result == Err::<MultiwayPrivateDealSample, SamplerError>(
                    SamplerError::ZeroMaxAttempts,
                )
            } else {
                match result {
                    Ok(sample) => outcome.0 == Some((sample.hands@, sample.attempts as int)),
                    Err(error) => outcome.0 is None && error == (SamplerError::AttemptsExhausted {
                        limit: max_attempts,
                    }),
                }
            }
        }),
{
    match MultiwayPrivateDealSampler::new(candidates, thresholds, dead_cards, seed) {
        Ok(mut sampler) => {
            proof {
                sampler.lemma_attempts_within(None, max_attempts);
            }
            sampler.sample(max_attempts)
        },
        Err(error) => Err(error),
    }
}

proof fn lemma_no_empty(candidates: Seq<Vec<Candidate>>, from: int, player: int)
    requires
        first_empty(candidates, from) is None,
        from <= player < candidates.len(),
    ensures
        candidates[player]@.len() > 0,
    decreases player - from,
{
    if from < player {
        lemma_no_empty(candidates, from + 1, player);
    }
}

proof fn lemma_same_lists(left: Seq<Vec<Candidate>>, right: Seq<Vec<Candidate>>, dead_cards: u64)
    requires
        left.len() == right.len(),
        forall|i: int| 0 <= i < left.len() ==> (#[trigger] right[i])@ == left[i]@,
    ensures
        sampler_words(dead_cards, left) == sampler_words(dead_cards, right),
        first_empty(left, 0) == first_empty(right, 0),
        candidates_valid(left) ==> candidates_valid(right),
{
    lemma_same_concat(left, right, left.len() as int);
    lemma_same_empty(left, right, 0);
    assert(left.take(left.len() as int) =~= left);
    assert(right.take(left.len() as int) =~= right);
}

proof fn lemma_same_concat(left: Seq<Vec<Candidate>>, right: Seq<Vec<Candidate>>, count: int)
    requires
        left.len() == right.len(),
        0 <= count <= left.len(),
        forall|i: int| 0 <= i < left.len() ==> (#[trigger] right[i])@ == left[i]@,
    ensures
        concat_words(left.take(count), candidate_list_encoding()) == concat_words(
            right.take(count),
            candidate_list_encoding(),
        ),
    decreases count,
{
    if count > 0 {
        lemma_same_concat(left, right, count - 1);
        lemma_concat_step(left, candidate_list_encoding(), count - 1);
        lemma_concat_step(right, candidate_list_encoding(), count - 1);
        assert(right[count - 1]@ == left[count - 1]@);
    } else {
        assert(left.take(0) =~= right.take(0));
    }
}

proof fn lemma_same_empty(left: Seq<Vec<Candidate>>, right: Seq<Vec<Candidate>>, from: int)
    requires
        left.len() == right.len(),
        0 <= from,
        forall|i: int| 0 <= i < left.len() ==> (#[trigger] right[i])@ == left[i]@,
    ensures
        first_empty(left, from) == first_empty(right, from),
    decreases left.len() - from,
{
    if from < left.len() {
        assert(right[from]@ == left[from]@);
        lemma_same_empty(left, right, from + 1);
    }
}

/// The hands dealt so far fit together.
pub open spec fn dealt_so_far(
    candidates: Seq<Vec<Candidate>>,
    fixed: Option<FixedHand>,
    dead_cards: u64,
    hands: Seq<Combo>,
) -> bool {
    &&& forall|p: int|
        0 <= p < hands.len() ==> (#[trigger] hands[p]).spec_mask() & dead_cards == 0
    &&& forall|p: int|
        0 <= p < hands.len() ==> if fixed matches Some(held) && held.player == p {
            (#[trigger] hands[p]) == fixed->Some_0.hand
        } else {
            is_candidate(candidates[p]@, hands[p])
        }
    &&& forall|p: int, q: int|
        0 <= p < q < hands.len() ==> (#[trigger] hands[p]).spec_mask() & (
        #[trigger] hands[q]).spec_mask() == 0
}

proof fn lemma_or_meets(mask: u64, left: u64, right: u64)
    ensures
        mask & (left | right) == 0 <==> mask & left == 0 && mask & right == 0,
        mask & left == left & mask,
{
    assert(mask & (left | right) == 0 <==> mask & left == 0 && mask & right == 0) by (bit_vector);
    assert(mask & left == left & mask) by (bit_vector);
}

/// The mask meets neither the dead cards nor a hand.
spec fn avoids(mask: u64, dead_cards: u64, hands: Seq<Combo>) -> bool {
    &&& mask & dead_cards == 0
    &&& forall|p: int| 0 <= p < hands.len() ==> mask & (#[trigger] hands[p]).spec_mask() == 0
}

proof fn lemma_attempt(
    candidates: Seq<Vec<Candidate>>,
    thresholds: Seq<Vec<u64>>,
    fixed: Option<FixedHand>,
    dead_cards: u64,
    player: int,
    used: u64,
    hands: Seq<Combo>,
    state: u64,
)
    requires
        0 <= player <= candidates.len(),
        hands.len() == player,
        thresholds_fit(candidates, thresholds),
        first_empty(candidates, 0) is None,
        dealt_so_far(candidates, fixed, dead_cards, hands),
        forall|mask: u64| #[trigger] (mask & used) == 0 ==> avoids(mask, dead_cards, hands),
    ensures
        attempt(candidates, thresholds, fixed, player, used, hands, state).0 matches Some(
            dealt,
        ) ==> dealt.len() == candidates.len() && dealt_so_far(candidates, fixed, dead_cards, dealt),
    decreases candidates.len() - player,
{
    if player < candidates.len() {
        let held = fixed matches Some(held) && held.player == player;
        let next = if held { state } else { xorshift(state) };
        let index = chosen_index(thresholds[player]@, draw_of(next));
        let combo = if held { fixed->Some_0.hand } else { candidates[player]@[index].combo };
        if combo.spec_mask() & used == 0 {
            let more = hands.push(combo);
            let mask = combo.spec_mask();
            assert(avoids(mask, dead_cards, hands));
            assert(dealt_so_far(candidates, fixed, dead_cards, more)) by {
                assert forall|p: int, q: int| 0 <= p < q < more.len() implies (
                #[trigger] more[p]).spec_mask() & (#[trigger] more[q]).spec_mask() == 0 by {
                    if q == player {
                        assert(mask & hands[p].spec_mask() == 0);
                        lemma_or_meets(mask, hands[p].spec_mask(), 0);
                    } else {
                        assert(more[p] == hands[p] && more[q] == hands[q]);
                    }
                }
                assert forall|p: int| 0 <= p < more.len() implies if fixed matches Some(held)
                    && held.player == p {
                    (#[trigger] more[p]) == fixed->Some_0.hand
                } else {
                    is_candidate(candidates[p]@, more[p])
                } by {
                    if p < player {
                        assert(more[p] == hands[p]);
                    } else if !held {
                        lemma_no_empty(candidates, 0, player);
                        lemma_chosen_index(thresholds[player]@, draw_of(next));
                        assert(candidates[player]@[index].combo == more[p]);
                    }
                }
                assert forall|p: int| 0 <= p < more.len() implies (
                #[trigger] more[p]).spec_mask() & dead_cards == 0 by {
                    if p < player {
                        assert(more[p] == hands[p]);
                    }
                }
            }
            assert forall|other: u64| #[trigger] (other & (used | mask)) == 0 implies avoids(
                other,
                dead_cards,
                more,
            ) by {
                lemma_or_meets(other, used, mask);
                assert(avoids(other, dead_cards, hands));
                assert forall|p: int| 0 <= p < more.len() implies other & (
                #[trigger] more[p]).spec_mask() == 0 by {
                    if p < player {
                        assert(other & hands[p].spec_mask() == 0);
                    }
                }
            }
            lemma_attempt(
                candidates,
                thresholds,
                fixed,
                dead_cards,
                player + 1,
                used | mask,
                more,
                next,
            );
        }
    }
}

/// A sampled deal gives each player a hand of their range, or the given hand,
/// with no dead card and no card twice; its number lies within the limit.
pub proof fn lemma_sampled_deals_are_legal(
    candidates: Seq<Vec<Candidate>>,
    thresholds: Seq<Vec<u64>>,
    fixed: Option<FixedHand>,
    dead_cards: u64,
    state: u64,
    number: int,
    limit: int,
)
    requires
        thresholds_fit(candidates, thresholds),
        first_empty(candidates, 0) is None,
    ensures
        attempts(candidates, thresholds, fixed, dead_cards, state, number, limit).0 matches Some(
            sample,
        ) ==> {
            &&& number <= sample.1 <= limit
            &&& sample.0.len() == candidates.len()
            &&& dealt_so_far(candidates, fixed, dead_cards, sample.0)
        },
    decreases limit - number + 1,
{
    if number <= limit {
        lemma_attempt(
            candidates,
            thresholds,
            fixed,
            dead_cards,
            0,
            dead_cards,
            Seq::empty(),
            state,
        );
        let (dealt, next) = attempt(
            candidates,
            thresholds,
            fixed,
            0,
            dead_cards,
            Seq::empty(),
            state,
        );
        if dealt is None {
            lemma_sampled_deals_are_legal(
                candidates,
                thresholds,
                fixed,
                dead_cards,
                next,
                number + 1,
                limit,
            );
        }
    }
}

proof fn lemma_candidates_readable()
    ensures
        readable(candidate_encoding(), |a: Candidate, b: Candidate| a == b),
{
    let encode = candidate_encoding();
    assert forall|a: Candidate, b: Candidate, s: Seq<u64>, t: Seq<u64>|
        #![trigger encode(a) + s, encode(b) + t]
        encode(a) + s == encode(b) + t implies a == b && s == t by {
        lemma_same_front(encode(a), encode(b), s, t);
        assert(encode(a)[0] == encode(b)[0]);
        assert(encode(a)[1] == encode(b)[1]);
        assert(encode(a)[2] == encode(b)[2]);
    }
}

/// The words behind a range fingerprint identify the dead cards and the
/// candidates with their weights.
pub proof fn lemma_sampler_words_identify_the_ranges(
    left_dead: u64,
    left: Vec<Vec<Candidate>>,
    right_dead: u64,
    right: Vec<Vec<Candidate>>,
)
    requires
        sampler_words(left_dead, left@) == sampler_words(right_dead, right@),
    ensures
        left_dead == right_dead,
        left@.len() == right@.len(),
        forall|i: int| 0 <= i < left@.len() ==> (#[trigger] left@[i])@ == right@[i]@,
{
    let same_one = |a: Candidate, b: Candidate| a == b;
    let same = |a: Vec<Candidate>, b: Vec<Candidate>| a@ == b@;
    let encode = candidate_list_encoding();
    lemma_candidates_readable();
    assert(readable(encode, same)) by {
        assert forall|a: Vec<Candidate>, b: Vec<Candidate>, s: Seq<u64>, t: Seq<u64>|
            #![trigger encode(a) + s, encode(b) + t]
            encode(a) + s == encode(b) + t implies same(a, b) && s == t by {
            lemma_vec_len(a);
            lemma_vec_len(b);
            lemma_list_readable(a@, b@, s, t, candidate_encoding(), same_one);
            assert(a@ =~= b@);
        }
    }
    lemma_vec_len(left);
    lemma_vec_len(right);
    assert(sampler_words(left_dead, left@)[0] == left_dead);
    assert(sampler_words(right_dead, right@)[0] == right_dead);
    let l = list_words(left@, encode);
    let r = list_words(right@, encode);
    assert(l =~= sampler_words(left_dead, left@).skip(1));
    assert(r =~= sampler_words(right_dead, right@).skip(1));
    assert(l + Seq::<u64>::empty() =~= r + Seq::<u64>::empty());
    lemma_list_readable(left@, right@, Seq::empty(), Seq::empty(), encode, same);
    assert forall|i: int| 0 <= i < left@.len() implies (#[trigger] left@[i])@ == right@[i]@ by {
        assert(same(left@[i], right@[i]));
    }
}

proof fn lemma_same_attempt(
    left: MultiwayPrivateDealSampler,
    right: MultiwayPrivateDealSampler,
    fixed: Option<FixedHand>,
    player: int,
    used: u64,
    hands: Seq<Combo>,
    state: u64,
)
    requires
        left.same_ranges(right),
        left.thresholds@.len() == left.candidates@.len(),
        0 <= player,
    ensures
        attempt(left.candidates@, left.thresholds@, fixed, player, used, hands, state) == attempt(
            right.candidates@,
            right.thresholds@,
            fixed,
            player,
            used,
            hands,
            state,
        ),
    decreases left.candidates@.len() - player,
{
    if player < left.candidates@.len() {
        let held = fixed matches Some(held) && held.player == player;
        let next = if held {
            state
        } else {
            xorshift(state)
        };
        assert(left.candidates@[player]@ == right.candidates@[player]@);
        assert(left.thresholds@[player]@ == right.thresholds@[player]@);
        let at = chosen_index(
            left.thresholds@[player]@,
            draw_of(next),
        );
        let combo = if held {
            fixed->Some_0.hand
        } else {
            left.candidates@[player]@[at].combo
        };
        lemma_same_attempt(
            left,
            right,
            fixed,
            player + 1,
            used | combo.spec_mask(),
            hands.push(combo),
            next,
        );
    }
}

/// Samplers over the same ranges make the same attempts from the same state.
pub proof fn lemma_same_attempts(
    left: MultiwayPrivateDealSampler,
    right: MultiwayPrivateDealSampler,
    fixed: Option<FixedHand>,
    state: u64,
    number: int,
    limit: int,
)
    requires
        left.same_ranges(right),
        left.thresholds@.len() == left.candidates@.len(),
    ensures
        attempts(left.candidates@, left.thresholds@, fixed, left.dead_cards, state, number, limit)
            == attempts(
            right.candidates@,
            right.thresholds@,
            fixed,
            right.dead_cards,
            state,
            number,
            limit,
        ),
    decreases limit - number + 1,
{
    if number <= limit {
        lemma_same_attempt(left, right, fixed, 0, left.dead_cards, Seq::empty(), state);
        let (dealt, next) = attempt(
            left.candidates@,
            left.thresholds@,
            fixed,
            0,
            left.dead_cards,
            Seq::empty(),
            state,
        );
        if dealt is None {
            lemma_same_attempts(left, right, fixed, next, number + 1, limit);
        }
    }
}

} // verus!
