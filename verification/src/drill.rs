//! Drills: the hero is dealt hands of a spot, answers each with an action, and
//! learns afterwards what the action cost and how often the strategy takes it.
use vstd::prelude::*;

use crate::cards::Combo;
use crate::csv::{join_texts, joined, string_views};
use crate::domain::{Action, Chips, PlayerId};
use crate::rng::{chosen_index, draw_of, lemma_chosen_index, seeded_state, xorshift, XorShift64};
use crate::spot::MultiwayHoldemSpotConfig;
use crate::text::{decimal_text, push_decimal};

verus! {

pub const DRILL_SESSION_SCHEMA_VERSION: u32 = 1;

pub const DRILL_DEFAULT_HANDS: usize = 10;

#[derive(Debug, Clone, Copy, PartialEq, Eq, Structural)]
pub struct DrillParams {
    pub hands: usize,
    /// Deals per hand; each is played with the strategy and with the answer.
    pub ev_samples: usize,
    pub max_private_attempts: usize,
    pub seed: u64,
}

impl DrillParams {
    /// A drill asks for hands and values them by samples: neither count is zero.
    pub fn check(&self) -> (result: Result<(), DrillError>)
        ensures
            result == if self.hands == 0 {
                Err::<(), DrillError>(DrillError::ZeroHands)
            } else if self.ev_samples == 0 {
                Err(DrillError::ZeroEvSamples)
            } else {
                Ok(())
            },
    {
        if self.hands == 0 {
            return Err(DrillError::ZeroHands);
        }
        if self.ev_samples == 0 {
            return Err(DrillError::ZeroEvSamples);
        }
        Ok(())
    }
}

impl Default for DrillParams {
    fn default() -> (params: Self)
        ensures
            params == (DrillParams {
                hands: 10,
                ev_samples: 256,
                max_private_attempts: 100_000,
                seed: 0,
            }),
    {
        DrillParams {
            hands: DRILL_DEFAULT_HANDS,
            ev_samples: 256,
            max_private_attempts: 100_000,
            seed: 0,
        }
    }
}

#[derive(Debug, Clone, Copy, PartialEq, Eq, Structural)]
pub enum DrillError {
    ZeroHands,
    ZeroEvSamples,
    NoActions,
    NoHeroRange,
    NoLegalHands,
    InvalidTotalWeight,
    UnknownAction { index: usize, actions: usize },
}

pub open spec fn label_text(action: Action) -> Seq<char> {
    match action {
        Action::Fold => "fold"@,
        Action::Check => "check"@,
        Action::Call => "call"@,
        Action::Bet { to } => "bet "@ + decimal_text(to as nat),
        Action::Raise { to } => "raise to "@ + decimal_text(to as nat),
        Action::AllIn => "all-in"@,
    }
}

fn numbered(word: &str, value: u64) -> (text: String)
    ensures
        text@ == word@ + decimal_text(value as nat),
{
    let mut text = String::new();
    text.append(word);
    push_decimal(&mut text, value);
    assert(text@ =~= word@ + decimal_text(value as nat));
    text
}

fn plain(word: &str) -> (text: String)
    ensures
        text@ == word@,
{
    let mut text = String::new();
    text.append(word);
    assert(text@ =~= word@);
    text
}

pub fn action_label(action: &Action) -> (label: String)
    ensures
        label@ == label_text(*action),
{
    match *action {
        Action::Fold => plain("fold"),
        Action::Check => plain("check"),
        Action::Call => plain("call"),
        Action::Bet { to } => numbered("bet ", to),
        Action::Raise { to } => numbered("raise to ", to),
        Action::AllIn => plain("all-in"),
    }
}

pub open spec fn label_texts(actions: Seq<Action>) -> Seq<Seq<char>> {
    actions.map_values(|action: Action| label_text(action))
}

pub fn action_labels(actions: &Vec<Action>) -> (labels: Vec<String>)
    ensures
        string_views(labels@) == label_texts(actions@),
{
    let mut labels: Vec<String> = Vec::new();
    let mut index: usize = 0;
    while index < actions.len()
        invariant
            index <= actions@.len(),
            labels@.len() == index,
            forall|i: int| 0 <= i < index ==> (#[trigger] labels@[i])@ == label_text(actions@[i]),
        decreases actions.len() - index,
    {
        labels.push(action_label(&actions[index]));
        index = index + 1;
    }
    assert(string_views(labels@) =~= label_texts(actions@));
    labels
}

/// Cards in a row, from the texts of each.
pub fn cards_text(cards: &Vec<String>) -> (text: String)
    ensures
        text@ == joined(string_views(cards@), " "@),
{
    join_texts(cards, " ")
}

/// Those of the first `count` hands that can be dealt: they meet no dead card,
/// and the range gives them weight.
pub open spec fn playable(
    hands: Seq<Combo>,
    dead_cards: u64,
    weighted: Seq<bool>,
    count: int,
) -> Seq<usize>
    decreases count,
{
    if count <= 0 {
        Seq::empty()
    } else {
        let before = playable(hands, dead_cards, weighted, count - 1);
        if hands[count - 1].spec_mask() & dead_cards == 0 && weighted[count - 1] {
            before.push((count - 1) as usize)
        } else {
            before
        }
    }
}

/// The places of the hero hands that can be dealt. `weighted` tells of each
/// whether its weight is above zero and finite.
pub fn playable_hands(config: &MultiwayHoldemSpotConfig, weighted: &Vec<bool>) -> (result: Result<
    Vec<usize>,
    DrillError,
>)
    requires
        config.hands_valid(),
        weighted@.len() == config.hero_hands@.len(),
    ensures
        ({
            let hands = playable(
                config.hero_hands@,
                config.dead_cards,
                weighted@,
                weighted@.len() as int,
            );
            match result {
                Ok(list) => {
                    &&& config.hero_player < config.ranges@.len()
                    &&& list@ == hands
                    &&& list@.len() > 0
                },
                Err(error) => if config.hero_player >= config.ranges@.len() {
                    error == DrillError::NoHeroRange
                } else {
                    error == DrillError::NoLegalHands && hands.len() == 0
                },
            }
        }),
{
    if config.hero_player >= config.ranges.len() {
        return Err(DrillError::NoHeroRange);
    }
    let mut list: Vec<usize> = Vec::new();
    let mut index: usize = 0;
    while index < config.hero_hands.len()
        invariant
            index <= config.hero_hands@.len(),
            config.hands_valid(),
            weighted@.len() == config.hero_hands@.len(),
            list@ == playable(config.hero_hands@, config.dead_cards, weighted@, index as int),
        decreases config.hero_hands.len() - index,
    {
        if !config.hero_hands[index].conflicts(config.dead_cards) && weighted[index] {
            list.push(index);
        }
        index = index + 1;
    }
    if list.len() == 0 {
        return Err(DrillError::NoLegalHands);
    }
    Ok(list)
}

/// Draws one of the hands. `thresholds` are the running sums of their weights,
/// as shares of the total, and `total_ok` tells whether that is above zero and
/// finite.
pub fn select_weighted_hand(
    hands: &Vec<Combo>,
    thresholds: &Vec<u64>,
    total_ok: bool,
    rng: &mut XorShift64,
) -> (result: Result<Combo, DrillError>)
    requires
        hands@.len() > 0,
        thresholds@.len() == hands@.len(),
    ensures
        if !total_ok {
            &&& result == Err::<Combo, DrillError>(DrillError::InvalidTotalWeight)
            &&& *final(rng) == *old(rng)
        } else {
            &&& final(rng).state == xorshift(old(rng).state)
            &&& result == Ok::<Combo, DrillError>(
                hands@[chosen_index(thresholds@, draw_of(final(rng).state))],
            )
        },
{
    if !total_ok {
        return Err(DrillError::InvalidTotalWeight);
    }
    let index = rng.sample_index(thresholds.as_slice());
    proof {
        lemma_chosen_index(thresholds@, draw_of(rng.state));
    }
    Ok(hands[index])
}

/// How often the strategy takes an action; the number as bits.
#[derive(Debug, Clone)]
pub struct DrillFrequency {
    pub action: String,
    pub frequency: u64,
}

/// What one hand cost; numbers as bits.
#[derive(Debug, Clone, Copy, PartialEq, Eq, Structural)]
pub struct DrillLoss {
    pub chips: u64,
    pub big_blinds: u64,
    pub pot_percent: u64,
    pub standard_error: u64,
    pub deals: u64,
}

#[derive(Debug, Clone)]
pub struct DrillHandRecord {
    pub hand_index: usize,
    pub hero_hand: Combo,
    pub action: String,
    pub action_index: usize,
    pub loss: DrillLoss,
    pub frequencies: Vec<DrillFrequency>,
}

#[derive(Debug, Clone)]
pub struct DrillSession {
    pub schema_version: u32,
    pub format: String,
    pub tree_fingerprint: u64,
    pub hero_player: PlayerId,
    pub hero_label: String,
    pub hands_total: usize,
    pub hands_completed: usize,
    pub big_blind: Chips,
    pub pot: Chips,
    pub hands: Vec<DrillHandRecord>,
}

/// What the hero sees before answering. The strategy is not part of it.
#[derive(Debug, Clone, Copy, PartialEq, Eq, Structural)]
pub struct DrillPrompt {
    pub hand_index: usize,
    pub hands_total: usize,
    pub hero_player: PlayerId,
    pub hero_hand: Combo,
    pub pot: Chips,
    pub big_blind: Chips,
}

/// What follows an answer.
#[derive(Debug, Clone, Copy, PartialEq, Eq, Structural)]
pub enum DrillStep {
    /// The hand is evaluated for the action, then recorded.
    Evaluate { action: usize },
    /// The hero leaves.
    Quit,
}

/// A drill under way.
pub struct DrillRun {
    pub session: DrillSession,
    pub hands: Vec<Combo>,
    pub thresholds: Vec<u64>,
    pub total_ok: bool,
    pub labels: Vec<String>,
    pub seed: u64,
    pub rng: XorShift64,
    pub asked: Option<Combo>,
    pub answer: Option<usize>,
    pub over: bool,
}

/// The state of the generator after some draws.
pub open spec fn drawn_state(seed: u64, draws: nat) -> u64
    decreases draws,
{
    if draws == 0 {
        seeded_state(seed)
    } else {
        xorshift(drawn_state(seed, (draws - 1) as nat))
    }
}

/// The hand with number `index` of a drill.
pub open spec fn dealt_hand(
    hands: Seq<Combo>,
    thresholds: Seq<u64>,
    seed: u64,
    index: nat,
) -> Combo {
    hands[chosen_index(thresholds, draw_of(drawn_state(seed, index + 1)))]
}

impl DrillSession {
    /// The records are those of the hands played, in order.
    pub open spec fn records_ok(
        self,
        hands: Seq<Combo>,
        thresholds: Seq<u64>,
        labels: Seq<String>,
        seed: u64,
    ) -> bool {
        &&& self.hands_completed == self.hands@.len()
        &&& self.hands_completed <= self.hands_total
        &&& forall|i: int|
            0 <= i < self.hands@.len() ==> {
                &&& (#[trigger] self.hands@[i]).hand_index == i
                &&& self.hands@[i].hero_hand == dealt_hand(hands, thresholds, seed, i as nat)
                &&& self.hands@[i].action_index < labels.len()
                &&& self.hands@[i].action@ == labels[self.hands@[i].action_index as int]@
            }
    }

    /// Nothing but the hands played differs.
    pub open spec fn continued(self, before: Self) -> bool {
        &&& self.schema_version == before.schema_version
        &&& self.format == before.format
        &&& self.tree_fingerprint == before.tree_fingerprint
        &&& self.hero_player == before.hero_player
        &&& self.hero_label == before.hero_label
        &&& self.hands_total == before.hands_total
        &&& self.big_blind == before.big_blind
        &&& self.pot == before.pot
    }
}

/// The next hand was dealt, or the drill is over.
pub open spec fn prompted(
    before: DrillRun,
    after: DrillRun,
    result: Result<Option<DrillPrompt>, DrillError>,
) -> bool {
    &&& after.same_drill(before)
    &&& after.session == before.session
    &&& after.over == before.over
    &&& ({
        let played = before.session.hands@.len();
        if before.over || played >= before.session.hands_total {
            &&& result == Ok::<Option<DrillPrompt>, DrillError>(None)
            &&& after.asked is None
        } else if !before.total_ok {
            &&& result == Err::<Option<DrillPrompt>, DrillError>(
                DrillError::InvalidTotalWeight,
            )
            &&& after == before
        } else {
            let hand = dealt_hand(
                before.hands@,
                before.thresholds@,
                before.seed,
                played,
            );
            &&& after.asked == Some(hand)
            &&& after.answer is None
            &&& result == Ok::<Option<DrillPrompt>, DrillError>(
                Some(
                    DrillPrompt {
                        hand_index: played as usize,
                        hands_total: before.session.hands_total,
                        hero_player: before.session.hero_player,
                        hero_hand: hand,
                        pot: before.session.pot,
                        big_blind: before.session.big_blind,
                    },
                ),
            )
        }
    })
}

/// The hero answered.
pub open spec fn answer_noted(
    before: DrillRun,
    after: DrillRun,
    answer: Option<usize>,
    result: Result<DrillStep, DrillError>,
) -> bool {
    &&& after.same_drill(before)
    &&& after.session == before.session
    &&& match answer {
        None => {
            &&& result == Ok::<DrillStep, DrillError>(DrillStep::Quit)
            &&& after.over
        },
        Some(index) => if index < before.labels@.len() {
            &&& result == Ok::<DrillStep, DrillError>(
                DrillStep::Evaluate { action: index },
            )
            &&& after.asked == before.asked
            &&& after.answer == Some(index)
        } else {
            &&& result == Err::<DrillStep, DrillError>(
                DrillError::UnknownAction {
                    index,
                    actions: before.labels@.len() as usize,
                },
            )
            &&& after == before
        },
    }
}

/// What the answer cost was recorded.
pub open spec fn hand_recorded(
    before: DrillRun,
    after: DrillRun,
    loss: DrillLoss,
    frequencies: Vec<DrillFrequency>,
) -> bool {
    &&& after.same_drill(before)
    &&& after.asked is None
    &&& after.over == before.over
    &&& after.session.hands@.len() == before.session.hands@.len() + 1
    &&& after.session.hands@.drop_last() == before.session.hands@
    &&& ({
        let record = after.session.hands@.last();
        &&& record.hand_index == before.session.hands@.len()
        &&& record.hero_hand == before.asked->0
        &&& record.action_index == before.answer->0
        &&& record.action@ == before.labels@[before.answer->0 as int]@
        &&& record.loss == loss
        &&& record.frequencies == frequencies
    })
}

impl DrillRun {
    pub open spec fn wf(self) -> bool {
        let seed = self.seed;
        &&& self.hands@.len() > 0
        &&& self.thresholds@.len() == self.hands@.len()
        &&& self.labels@.len() > 0
        &&& self.session.hands_total > 0
        &&& self.session.records_ok(self.hands@, self.thresholds@, self.labels@, seed)
        &&& match self.asked {
            None => self.answer is None && !self.over ==> self.rng.state == drawn_state(
                seed,
                self.session.hands@.len(),
            ),
            Some(hand) => {
                &&& self.session.hands@.len() < self.session.hands_total
                &&& self.rng.state == drawn_state(seed, self.session.hands@.len() + 1)
                &&& hand == dealt_hand(
                    self.hands@,
                    self.thresholds@,
                    seed,
                    self.session.hands@.len(),
                )
            },
        }
        &&& self.answer matches Some(action) ==> self.asked is Some && action < self.labels@.len()
        &&& self.over ==> self.asked is None
    }

    /// The settings stay as they are.
    pub open spec fn same_drill(self, before: Self) -> bool {
        &&& self.hands == before.hands
        &&& self.thresholds == before.thresholds
        &&& self.total_ok == before.total_ok
        &&& self.labels == before.labels
        &&& self.seed == before.seed
        &&& self.session.continued(before.session)
    }

    /// Begins a drill with the hands that can be dealt.
    pub fn start(
        params: &DrillParams,
        config: &MultiwayHoldemSpotConfig,
        actions: &Vec<Action>,
        hands: Vec<Combo>,
        thresholds: Vec<u64>,
        total_ok: bool,
        tree_fingerprint: u64,
        pot: Chips,
    ) -> (result: Result<Self, DrillError>)
        requires
            thresholds@.len() == hands@.len(),
        ensures
            match result {
                Ok(run) => {
                    &&& params.hands > 0
                    &&& params.ev_samples > 0
                    &&& actions@.len() > 0
                    &&& hands@.len() > 0
                    &&& run.wf()
                    &&& run.seed == params.seed
                    &&& run.hands == hands
                    &&& run.thresholds == thresholds
                    &&& run.total_ok == total_ok
                    &&& string_views(run.labels@) == label_texts(actions@)
                    &&& run.asked is None
                    &&& !run.over
                    &&& run.session.schema_version == 1
                    &&& run.session.format@ == "drill_session"@
                    &&& run.session.tree_fingerprint == tree_fingerprint
                    &&& run.session.hero_player == config.hero_player
                    &&& run.session.hero_label@ == config.hero_label@
                    &&& run.session.hands_total == params.hands
                    &&& run.session.hands@.len() == 0
                    &&& run.session.big_blind == config.table.big_blind
                    &&& run.session.pot == pot
                },
                Err(error) => if params.hands == 0 {
                    error == DrillError::ZeroHands
                } else if params.ev_samples == 0 {
                    error == DrillError::ZeroEvSamples
                } else if actions@.len() == 0 {
                    error == DrillError::NoActions
                } else {
                    error == DrillError::NoLegalHands && hands@.len() == 0
                },
            },
    {
        match params.check() {
            Ok(_) => {},
            Err(error) => {
                return Err(error);
            },
        }
        if actions.len() == 0 {
            return Err(DrillError::NoActions);
        }
        if hands.len() == 0 {
            return Err(DrillError::NoLegalHands);
        }
        let labels = action_labels(actions);
        assert(string_views(labels@).len() == label_texts(actions@).len());
        Ok(
            DrillRun {
                session: DrillSession {
                    schema_version: DRILL_SESSION_SCHEMA_VERSION,
                    format: plain("drill_session"),
                    tree_fingerprint,
                    hero_player: config.hero_player,
                    hero_label: config.hero_label.clone(),
                    hands_total: params.hands,
                    hands_completed: 0,
                    big_blind: config.table.big_blind,
                    pot,
                    hands: Vec::new(),
                },
                hands,
                thresholds,
                total_ok,
                labels,
                seed: params.seed,
                rng: XorShift64::new(params.seed),
                asked: None,
                answer: None,
                over: false,
            },
        )
    }

    /// Deals the next hand; none when the drill is over.
    pub fn next_prompt(&mut self) -> (result: Result<
        Option<DrillPrompt>,
        DrillError,
    >)
        requires
            old(self).wf(),
            old(self).asked is None,
        ensures
            final(self).wf(),
            prompted(*old(self), *final(self), result),
    {
        if self.over || self.session.hands.len() >= self.session.hands_total {
            return Ok(None);
        }
        let hand = match select_weighted_hand(
            &self.hands,
            &self.thresholds,
            self.total_ok,
            &mut self.rng,
        ) {
            Ok(hand) => hand,
            Err(error) => {
                return Err(error);
            },
        };
        self.asked = Some(hand);
        Ok(
            Some(
                DrillPrompt {
                    hand_index: self.session.hands.len(),
                    hands_total: self.session.hands_total,
                    hero_player: self.session.hero_player,
                    hero_hand: hand,
                    pot: self.session.pot,
                    big_blind: self.session.big_blind,
                },
            ),
        )
    }

    /// Takes the hero's answer to the hand that was dealt.
    pub fn answered(&mut self, answer: Option<usize>) -> (result: Result<
        DrillStep,
        DrillError,
    >)
        requires
            old(self).wf(),
            old(self).asked is Some,
            old(self).answer is None,
        ensures
            final(self).wf(),
            answer_noted(*old(self), *final(self), answer, result),
    {
        match answer {
            None => {
                self.over = true;
                self.asked = None;
                Ok(DrillStep::Quit)
            },
            Some(index) => {
                if index >= self.labels.len() {
                    return Err(
                        DrillError::UnknownAction { index, actions: self.labels.len() },
                    );
                }
                self.answer = Some(index);
                Ok(DrillStep::Evaluate { action: index })
            },
        }
    }

    /// Records what the answer cost. The session is saved after that.
    pub fn recorded(
        &mut self,
        loss: DrillLoss,
        frequencies: Vec<DrillFrequency>,
    )
        requires
            old(self).wf(),
            old(self).answer is Some,
        ensures
            final(self).wf(),
            hand_recorded(*old(self), *final(self), loss, frequencies),
    {
        let ghost before = self.session.hands@;
        match (self.asked, self.answer) {
            (Some(hand), Some(action)) => {
                let record = DrillHandRecord {
                    hand_index: self.session.hands.len(),
                    hero_hand: hand,
                    action: self.labels[action].clone(),
                    action_index: action,
                    loss,
                    frequencies,
                };
                self.session.hands.push(record);
                self.session.hands_completed = self.session.hands.len();
            },
            _ => {},
        }
        self.asked = None;
        self.answer = None;
        assert(self.session.hands@.drop_last() =~= before);
    }
}

} // verus!
