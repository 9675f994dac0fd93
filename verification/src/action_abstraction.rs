//! Street-specific action abstraction.
//!
//! The abstraction turns explicit targets, pot fractions and raise multipliers
//! into the absolute targets that the acting player may choose.
use vstd::prelude::*;

use crate::bits::{above_one, above_zero, finite, is_above_one, is_above_zero, is_finite};
use crate::checkpoint::copy_words;
use crate::domain::{ActionSizes, Chips, GameState, PlayerState, Street};
use crate::hash::{
    concat_words, flag_word, fnv_words, lemma_concat_step, list_words, Fingerprint, FNV_OFFSET,
};

verus! {

/// Sizes of one street. Fractions and multipliers are IEEE-754 bits.
#[derive(Debug)]
pub struct StreetSizing {
    pub explicit_bet_to: Vec<Chips>,
    pub bet_fractions: Vec<u64>,
    pub explicit_raise_to: Vec<Chips>,
    pub raise_multipliers: Vec<u64>,
    pub include_all_in: bool,
}

impl StreetSizing {
    pub open spec fn same(self, other: Self) -> bool {
        &&& self.explicit_bet_to@ == other.explicit_bet_to@
        &&& self.bet_fractions@ == other.bet_fractions@
        &&& self.explicit_raise_to@ == other.explicit_raise_to@
        &&& self.raise_multipliers@ == other.raise_multipliers@
        &&& self.include_all_in == other.include_all_in
    }
}

impl Clone for StreetSizing {
    fn clone(&self) -> (copy: Self)
        ensures
            copy.same(*self),
    {
        StreetSizing {
            explicit_bet_to: copy_words(&self.explicit_bet_to),
            bet_fractions: copy_words(&self.bet_fractions),
            explicit_raise_to: copy_words(&self.explicit_raise_to),
            raise_multipliers: copy_words(&self.raise_multipliers),
            include_all_in: self.include_all_in,
        }
    }
}

impl Default for StreetSizing {
    fn default() -> (sizing: Self)
        ensures
            sizing.explicit_bet_to@.len() == 0,
            sizing.bet_fractions@.len() == 0,
            sizing.explicit_raise_to@.len() == 0,
            sizing.raise_multipliers@.len() == 0,
            !sizing.include_all_in,
    {
        StreetSizing {
            explicit_bet_to: Vec::new(),
            bet_fractions: Vec::new(),
            explicit_raise_to: Vec::new(),
            raise_multipliers: Vec::new(),
            include_all_in: false,
        }
    }
}

#[derive(Debug)]
pub struct ActionAbstraction {
    pub preflop: StreetSizing,
    pub flop: StreetSizing,
    pub turn: StreetSizing,
    pub river: StreetSizing,
}

impl ActionAbstraction {
    pub open spec fn same(self, other: Self) -> bool {
        &&& self.preflop.same(other.preflop)
        &&& self.flop.same(other.flop)
        &&& self.turn.same(other.turn)
        &&& self.river.same(other.river)
    }
}

impl Clone for ActionAbstraction {
    fn clone(&self) -> (copy: Self)
        ensures
            copy.same(*self),
    {
        ActionAbstraction {
            preflop: self.preflop.clone(),
            flop: self.flop.clone(),
            turn: self.turn.clone(),
            river: self.river.clone(),
        }
    }
}

#[derive(Debug, Clone, Copy, PartialEq, Eq, Structural)]
pub enum SizingError {
    NoActor,
    BadFraction,
    BadMultiplier,
    OutsideChipRange,
}

pub open spec fn word_encoding() -> spec_fn(u64) -> Seq<u64> {
    |value: u64| seq![value]
}

/// Mixes in a list of words.
pub fn hash_words(fingerprint: &mut Fingerprint, values: &Vec<u64>)
    requires
        old(fingerprint).wf(),
    ensures
        final(fingerprint).wf(),
        final(fingerprint).words@ == old(fingerprint).words@ + list_words(values@, word_encoding()),
{
    let ghost start = fingerprint.words@;
    fingerprint.word(values.len() as u64);
    let mut index: usize = 0;
    assert(values@.take(0) =~= Seq::<u64>::empty());
    assert(fingerprint.words@ =~= start.push(values@.len() as u64) + concat_words(
        values@.take(0),
        word_encoding(),
    ));
    while index < values.len()
        invariant
            index <= values@.len(),
            fingerprint.wf(),
            fingerprint.words@ == start.push(values@.len() as u64) + concat_words(
                values@.take(index as int),
                word_encoding(),
            ),
        decreases values.len() - index,
    {
        proof {
            lemma_concat_step(values@, word_encoding(), index as int);
        }
        fingerprint.word(values[index]);
        index = index + 1;
        assert(fingerprint.words@ =~= start.push(values@.len() as u64) + concat_words(
            values@.take(index as int),
            word_encoding(),
        ));
    }
    assert(values@.take(index as int) =~= values@);
    assert(fingerprint.words@ =~= start + list_words(values@, word_encoding()));
}

impl StreetSizing {
    pub open spec fn words(self) -> Seq<u64> {
        (list_words(self.explicit_bet_to@, word_encoding()) + list_words(
            self.bet_fractions@,
            word_encoding(),
        ) + list_words(self.explicit_raise_to@, word_encoding()) + list_words(
            self.raise_multipliers@,
            word_encoding(),
        )).push(flag_word(self.include_all_in))
    }

    pub open spec fn spec_fingerprint(self) -> u64 {
        fnv_words(FNV_OFFSET, self.words())
    }

    /// Deterministic fingerprint for checkpoint and configuration checks.
    pub fn fingerprint(&self) -> (hash: u64)
        ensures
            hash == self.spec_fingerprint(),
    {
        let mut fingerprint = Fingerprint::new();
        hash_words(&mut fingerprint, &self.explicit_bet_to);
        hash_words(&mut fingerprint, &self.bet_fractions);
        hash_words(&mut fingerprint, &self.explicit_raise_to);
        hash_words(&mut fingerprint, &self.raise_multipliers);
        fingerprint.flag(self.include_all_in);
        assert(fingerprint.words@ =~= self.words());
        fingerprint.hash
    }
}

/// The player to act: the first one in the acting seat.
pub open spec fn acting_player(state: GameState) -> Option<PlayerState> {
    match state.actor {
        None => None,
        Some(actor) => player_in_seat(state.players@, actor, 0),
    }
}

pub open spec fn player_in_seat(players: Seq<PlayerState>, seat: usize, from: int) -> Option<
    PlayerState,
>
    decreases players.len() - from,
{
    if from >= players.len() {
        None
    } else if players[from].seat == seat {
        Some(players[from])
    } else {
        player_in_seat(players, seat, from + 1)
    }
}

/// The first player in `seat`.
pub fn find_player(players: &Vec<PlayerState>, seat: usize) -> (player: Option<PlayerState>)
    ensures
        player == player_in_seat(players@, seat, 0),
{
    let mut index: usize = 0;
    while index < players.len()
        invariant
            index <= players@.len(),
            player_in_seat(players@, seat, 0) == player_in_seat(players@, seat, index as int),
        decreases players.len() - index,
    {
        if players[index].seat == seat {
            return Some(players[index]);
        }
        index = index + 1;
    }
    None
}

/// The most that a player can have in front of it on this street.
pub open spec fn street_maximum(player: PlayerState) -> int {
    player.committed_street + player.stack_remaining
}

/// `left + right`, held at the largest chip count.
pub open spec fn saturating_sum(left: u64, right: u64) -> u64 {
    if left + right > u64::MAX {
        u64::MAX
    } else {
        (left + right) as u64
    }
}

/// A bet target that the player can reach.
pub open spec fn bet_allowed(target: u64, maximum: int) -> bool {
    0 < target <= maximum
}

/// A raise target above the current bet that the player can reach.
pub open spec fn raise_allowed(target: u64, current_bet: u64, maximum: int) -> bool {
    current_bet < target <= maximum
}

/// The first fraction that is no positive finite number, or whose chips are
/// out of range.
pub open spec fn fraction_error(
    fractions: Seq<u64>,
    amounts: Seq<Option<u64>>,
    from: int,
) -> Option<SizingError>
    decreases fractions.len() - from,
{
    if from >= fractions.len() {
        None
    } else if !(finite(fractions[from]) && above_zero(fractions[from])) {
        Some(SizingError::BadFraction)
    } else if amounts[from] is None {
        Some(SizingError::OutsideChipRange)
    } else {
        fraction_error(fractions, amounts, from + 1)
    }
}

/// The first multiplier that is no finite number above one, or whose chips are
/// out of range.
pub open spec fn multiplier_error(
    multipliers: Seq<u64>,
    amounts: Seq<Option<u64>>,
    from: int,
) -> Option<SizingError>
    decreases multipliers.len() - from,
{
    if from >= multipliers.len() {
        None
    } else if !(finite(multipliers[from]) && above_one(multipliers[from])) {
        Some(SizingError::BadMultiplier)
    } else if amounts[from] is None {
        Some(SizingError::OutsideChipRange)
    } else {
        multiplier_error(multipliers, amounts, from + 1)
    }
}

/// `target` is offered as a bet: an explicit target, or what a fraction of the
/// pot adds to the chips in front of the player.
pub open spec fn is_bet_target(
    sizing: StreetSizing,
    player: PlayerState,
    amounts: Seq<Option<u64>>,
    target: u64,
) -> bool {
    &&& bet_allowed(target, street_maximum(player))
    &&& sizing.explicit_bet_to@.contains(target) || exists|i: int|
        0 <= i < sizing.bet_fractions@.len() && (#[trigger] amounts[i] matches Some(amount)
            && target == saturating_sum(player.committed_street, amount))
}

/// `target` is offered as a raise: an explicit target, or a multiple of the
/// current bet.
pub open spec fn is_raise_target(
    sizing: StreetSizing,
    player: PlayerState,
    current_bet: u64,
    amounts: Seq<Option<u64>>,
    target: u64,
) -> bool {
    &&& raise_allowed(target, current_bet, street_maximum(player))
    &&& sizing.explicit_raise_to@.contains(target) || exists|i: int|
        0 <= i < sizing.raise_multipliers@.len() && #[trigger] amounts[i] == Some(target)
}

pub open spec fn strictly_increasing(values: Seq<u64>) -> bool {
    forall|i: int, j: int| 0 <= i < j < values.len() ==> values[i] < values[j]
}

impl ActionAbstraction {
    pub open spec fn words(self) -> Seq<u64> {
        seq![
            1u64,
            self.preflop.spec_fingerprint(),
            self.flop.spec_fingerprint(),
            self.turn.spec_fingerprint(),
            self.river.spec_fingerprint(),
        ]
    }

    pub open spec fn spec_fingerprint(self) -> u64 {
        fnv_words(FNV_OFFSET, self.words())
    }

    pub open spec fn spec_sizing_for(self, street: Street) -> StreetSizing {
        match street {
            Street::Preflop => self.preflop,
            Street::Flop => self.flop,
            Street::Turn => self.turn,
            Street::River => self.river,
        }
    }

    /// The numbers whose chip amounts the caller rounds: fractions of the pot
    /// before a bet, multiples of the current bet after one.
    pub open spec fn spec_factors(self, state: GameState) -> Seq<u64> {
        let sizing = self.spec_sizing_for(state.street);
        if state.current_bet == 0 {
            sizing.bet_fractions@
        } else {
            sizing.raise_multipliers@
        }
    }

    /// Deterministic fingerprint of the complete abstraction.
    pub fn fingerprint(&self) -> (hash: u64)
        ensures
            hash == self.spec_fingerprint(),
    {
        let mut fingerprint = Fingerprint::new();
        fingerprint.word(1);
        fingerprint.word(self.preflop.fingerprint());
        fingerprint.word(self.flop.fingerprint());
        fingerprint.word(self.turn.fingerprint());
        fingerprint.word(self.river.fingerprint());
        assert(fingerprint.words@ =~= self.words());
        fingerprint.hash
    }

    pub fn sizing_for(&self, street: Street) -> (sizing: &StreetSizing)
        ensures
            *sizing == self.spec_sizing_for(street),
    {
        match street {
            Street::Preflop => &self.preflop,
            Street::Flop => &self.flop,
            Street::Turn => &self.turn,
            Street::River => &self.river,
        }
    }

    /// The targets offered to the acting player.
    ///
    /// `amounts[i]` is factor `i` of [`Self::spec_factors`] times the pot or the
    /// current bet, rounded to chips; none where that is out of range.
    pub fn action_sizes(&self, state: &GameState, amounts: &[Option<u64>]) -> (result: Result<
        ActionSizes,
        SizingError,
    >)
        requires
            amounts@.len() == self.spec_factors(*state).len(),
            acting_player(*state) matches Some(player) ==> street_maximum(player) <= u64::MAX,
        ensures
            ({
                let sizing = self.spec_sizing_for(state.street);
                match acting_player(*state) {
                    None => result == Err::<ActionSizes, SizingError>(SizingError::NoActor),
                    Some(player) => if state.current_bet == 0 {
                        match fraction_error(sizing.bet_fractions@, amounts@, 0) {
                            Some(error) => result == Err::<ActionSizes, SizingError>(error),
                            None => {
                                &&& result matches Ok(sizes)
                                &&& sizes.include_all_in == sizing.include_all_in
                                &&& sizes.raise_to@.len() == 0
                                &&& strictly_increasing(sizes.bet_to@)
                                &&& forall|target: u64| #[trigger]
                                    sizes.bet_to@.contains(target) <==> is_bet_target(
                                        sizing,
                                        player,
                                        amounts@,
                                        target,
                                    )
                            },
                        }
                    } else {
                        match multiplier_error(sizing.raise_multipliers@, amounts@, 0) {
                            Some(error) => result == Err::<ActionSizes, SizingError>(error),
                            None => {
                                &&& result matches Ok(sizes)
                                &&& sizes.include_all_in == sizing.include_all_in
                                &&& sizes.bet_to@.len() == 0
                                &&& strictly_increasing(sizes.raise_to@)
                                &&& forall|target: u64| #[trigger]
                                    sizes.raise_to@.contains(target) <==> is_raise_target(
                                        sizing,
                                        player,
                                        state.current_bet,
                                        amounts@,
                                        target,
                                    )
                            },
                        }
                    },
                }
            }),
    {
        let sizing = self.sizing_for(state.street);
        let player = match state.actor {
            None => {
                return Err(SizingError::NoActor);
            },
            Some(actor) => match find_player(&state.players, actor) {
                None => {
                    return Err(SizingError::NoActor);
                },
                Some(player) => player,
            },
        };
        let mut sizes = ActionSizes::default();
        sizes.include_all_in = sizing.include_all_in;
        if state.current_bet == 0 {
            match bet_targets(sizing, player, amounts) {
                Err(error) => Err(error),
                Ok(targets) => {
                    sizes.bet_to = targets;
                    Ok(sizes)
                },
            }
        } else {
            match raise_targets(sizing, player, state.current_bet, amounts) {
                Err(error) => Err(error),
                Ok(targets) => {
                    sizes.raise_to = targets;
                    Ok(sizes)
                },
            }
        }
    }
}

fn bet_targets(
    sizing: &StreetSizing,
    player: PlayerState,
    amounts: &[Option<u64>],
) -> (result: Result<Vec<u64>, SizingError>)
    requires
        amounts@.len() == sizing.bet_fractions@.len(),
        street_maximum(player) <= u64::MAX,
    ensures
        match fraction_error(sizing.bet_fractions@, amounts@, 0) {
            Some(error) => result == Err::<Vec<u64>, SizingError>(error),
            None => {
                &&& result matches Ok(targets)
                &&& strictly_increasing(targets@)
                &&& forall|target: u64| #[trigger]
                    targets@.contains(target) <==> is_bet_target(*sizing, player, amounts@, target)
            },
        },
{
    let maximum = player.committed_street + player.stack_remaining;
    let mut targets: Vec<u64> = Vec::new();
    let mut index: usize = 0;
    while index < sizing.explicit_bet_to.len()
        invariant
            index <= sizing.explicit_bet_to@.len(),
            forall|target: u64| #[trigger]
                targets@.contains(target) <==> bet_allowed(target, maximum as int)
                    && sizing.explicit_bet_to@.take(index as int).contains(target),
        decreases sizing.explicit_bet_to.len() - index,
    {
        let target = sizing.explicit_bet_to[index];
        proof {
            lemma_take_contains(sizing.explicit_bet_to@, index as int);
        }
        if target > 0 && target <= maximum {
            proof {
                lemma_push_contains(targets@, target);
            }
            targets.push(target);
        }
        index = index + 1;
    }
    assert(sizing.explicit_bet_to@.take(index as int) =~= sizing.explicit_bet_to@);
    let mut k: usize = 0;
    while k < sizing.bet_fractions.len()
        invariant
            k <= sizing.bet_fractions@.len(),
            amounts@.len() == sizing.bet_fractions@.len(),
            maximum == street_maximum(player),
            fraction_error(sizing.bet_fractions@, amounts@, 0) == fraction_error(
                sizing.bet_fractions@,
                amounts@,
                k as int,
            ),
            forall|target: u64| #[trigger]
                targets@.contains(target) <==> bet_allowed(target, maximum as int) && (
                sizing.explicit_bet_to@.contains(target) || exists|i: int|
                    0 <= i < k && (#[trigger] amounts@[i] matches Some(amount) && target
                        == saturating_sum(player.committed_street, amount))),
        decreases sizing.bet_fractions.len() - k,
    {
        let fraction = sizing.bet_fractions[k];
        if !is_finite(fraction) || !is_above_zero(fraction) {
            return Err(SizingError::BadFraction);
        }
        let amount = match amounts[k] {
            None => {
                return Err(SizingError::OutsideChipRange);
            },
            Some(amount) => amount,
        };
        let target = player.committed_street.saturating_add(amount);
        let ghost before = targets@;
        proof {
            lemma_push_contains(before, target);
            assert(amounts@[k as int] == Some(amount));
        }
        if target > 0 && target <= maximum {
            targets.push(target);
        }
        k = k + 1;
    }
    dedup_sort(&mut targets);
    Ok(targets)
}

fn raise_targets(
    sizing: &StreetSizing,
    player: PlayerState,
    current_bet: u64,
    amounts: &[Option<u64>],
) -> (result: Result<Vec<u64>, SizingError>)
    requires
        amounts@.len() == sizing.raise_multipliers@.len(),
        street_maximum(player) <= u64::MAX,
    ensures
        match multiplier_error(sizing.raise_multipliers@, amounts@, 0) {
            Some(error) => result == Err::<Vec<u64>, SizingError>(error),
            None => {
                &&& result matches Ok(targets)
                &&& strictly_increasing(targets@)
                &&& forall|target: u64| #[trigger]
                    targets@.contains(target) <==> is_raise_target(
                        *sizing,
                        player,
                        current_bet,
                        amounts@,
                        target,
                    )
            },
        },
{
    let maximum = player.committed_street + player.stack_remaining;
    let mut targets: Vec<u64> = Vec::new();
    let mut index: usize = 0;
    while index < sizing.explicit_raise_to.len()
        invariant
            index <= sizing.explicit_raise_to@.len(),
            forall|target: u64| #[trigger]
                targets@.contains(target) <==> raise_allowed(target, current_bet, maximum as int)
                    && sizing.explicit_raise_to@.take(index as int).contains(target),
        decreases sizing.explicit_raise_to.len() - index,
    {
        let target = sizing.explicit_raise_to[index];
        proof {
            lemma_take_contains(sizing.explicit_raise_to@, index as int);
        }
        if target > current_bet && target <= maximum {
            proof {
                lemma_push_contains(targets@, target);
            }
            targets.push(target);
        }
        index = index + 1;
    }
    assert(sizing.explicit_raise_to@.take(index as int) =~= sizing.explicit_raise_to@);
    let mut k: usize = 0;
    while k < sizing.raise_multipliers.len()
        invariant
            k <= sizing.raise_multipliers@.len(),
            amounts@.len() == sizing.raise_multipliers@.len(),
            maximum == street_maximum(player),
            multiplier_error(sizing.raise_multipliers@, amounts@, 0) == multiplier_error(
                sizing.raise_multipliers@,
                amounts@,
                k as int,
            ),
            forall|target: u64| #[trigger]
                targets@.contains(target) <==> raise_allowed(target, current_bet, maximum as int)
                    && (sizing.explicit_raise_to@.contains(target) || exists|i: int|
                    0 <= i < k && #[trigger] amounts@[i] == Some(target)),
        decreases sizing.raise_multipliers.len() - k,
    {
        let multiplier = sizing.raise_multipliers[k];
        if !is_finite(multiplier) || !is_above_one(multiplier) {
            return Err(SizingError::BadMultiplier);
        }
        let target = match amounts[k] {
            None => {
                return Err(SizingError::OutsideChipRange);
            },
            Some(target) => target,
        };
        let ghost before = targets@;
        proof {
            lemma_push_contains(before, target);
            assert(amounts@[k as int] == Some(target));
        }
        if target > current_bet && target <= maximum {
            targets.push(target);
        }
        k = k + 1;
    }
    dedup_sort(&mut targets);
    Ok(targets)
}

/// Sorts the values and keeps one of each.
pub fn dedup_sort(values: &mut Vec<u64>)
    ensures
        strictly_increasing(final(values)@),
        forall|value: u64| #[trigger]
            final(values)@.contains(value) <==> old(values)@.contains(value),
{
    let mut sorted: Vec<u64> = Vec::new();
    let mut index: usize = 0;
    while index < values.len()
        invariant
            index <= values@.len(),
            strictly_increasing(sorted@),
            forall|value: u64| #[trigger]
                sorted@.contains(value) <==> values@.take(index as int).contains(value),
        decreases values.len() - index,
    {
        proof {
            lemma_take_contains(values@, index as int);
        }
        insert_sorted(&mut sorted, values[index]);
        index = index + 1;
    }
    assert(values@.take(index as int) =~= values@);
    *values = sorted;
}

/// Puts `value` in its place, unless it is there.
fn insert_sorted(sorted: &mut Vec<u64>, value: u64)
    requires
        strictly_increasing(old(sorted)@),
    ensures
        strictly_increasing(final(sorted)@),
        forall|other: u64| #[trigger]
            final(sorted)@.contains(other) <==> old(sorted)@.contains(other) || other == value,
{
    let ghost before = sorted@;
    let mut place: usize = 0;
    while place < sorted.len() && sorted[place] < value
        invariant
            sorted@ == before,
            place <= sorted@.len(),
            forall|i: int| 0 <= i < place ==> sorted@[i] < value,
        decreases sorted.len() - place,
    {
        place = place + 1;
    }
    if place < sorted.len() && sorted[place] == value {
        assert(before[place as int] == value);
        return ;
    }
    sorted.insert(place, value);
    proof {
        let after = sorted@;
        assert(after[place as int] == value);
        assert forall|other: u64| #[trigger]
            after.contains(other) <==> before.contains(other) || other == value by {
            if after.contains(other) {
                let i = choose|i: int| 0 <= i < after.len() && after[i] == other;
                if i < place {
                    assert(before[i] == other);
                } else if i > place {
                    assert(before[i - 1] == other);
                }
            }
            if before.contains(other) {
                let i = choose|i: int| 0 <= i < before.len() && before[i] == other;
                if i < place {
                    assert(after[i] == other);
                } else {
                    assert(after[i + 1] == other);
                }
            }
        }
    }
}

proof fn lemma_push_contains(values: Seq<u64>, value: u64)
    ensures
        forall|other: u64| #[trigger]
            values.push(value).contains(other) <==> values.contains(other) || other == value,
{
    let after = values.push(value);
    assert(after[values.len() as int] == value);
    assert forall|other: u64| #[trigger]
        after.contains(other) <==> values.contains(other) || other == value by {
        if values.contains(other) {
            let i = choose|i: int| 0 <= i < values.len() && values[i] == other;
            assert(after[i] == other);
        }
        if after.contains(other) && other != value {
            let i = choose|i: int| 0 <= i < after.len() && after[i] == other;
            assert(values[i] == other);
        }
    }
}

proof fn lemma_take_contains(values: Seq<u64>, index: int)
    requires
        0 <= index < values.len(),
    ensures
        forall|other: u64| #[trigger]
            values.take(index + 1).contains(other) <==> values.take(index).contains(other) || other
                == values[index],
{
    assert(values.take(index + 1) =~= values.take(index).push(values[index]));
    lemma_push_contains(values.take(index), values[index]);
}

/// Every target that the abstraction offers is one that the acting player can
/// reach and that moves the betting forward.
pub proof fn lemma_targets_are_reachable(
    sizing: StreetSizing,
    player: PlayerState,
    current_bet: u64,
    amounts: Seq<Option<u64>>,
    target: u64,
)
    ensures
        is_bet_target(sizing, player, amounts, target) ==> 0 < target <= street_maximum(player),
        is_raise_target(sizing, player, current_bet, amounts, target) ==> current_bet < target
            <= street_maximum(player),
{
}

} // verus!
