//! Bet sizes: what a street of an abstraction offers to the player in turn.
use vstd::prelude::*;

use crate::action_abstraction::{
    fraction_error, multiplier_error, player_in_seat, ActionAbstraction, SizingError, StreetSizing,
};
use crate::bits::{above_one, above_zero, finite};
use crate::domain::{ActionSizes, GameState, PlayerState, Street};

verus! {

/// The player at `index` is the first in the acting seat.
pub open spec fn is_to_act(state: GameState, index: int) -> bool {
    &&& 0 <= index < state.players@.len()
    &&& state.actor == Some(state.players@[index].seat)
    &&& forall|j: int|
        0 <= j < index ==> (#[trigger] state.players@[j]).seat != state.players@[index].seat
}

/// The bets on offer are the reachable ones among the listed targets and the pot
/// fractions of one street.
pub open spec fn bets_of(
    sizes: ActionSizes,
    street: StreetSizing,
    player: PlayerState,
    amounts: Seq<Option<u64>>,
) -> bool {
    &&& sizes.raise_to@ == Seq::<u64>::empty()
    &&& sizes.include_all_in == street.include_all_in
    &&& forall|i: int|
        0 <= i < street.explicit_bet_to@.len() && 0 < #[trigger] street.explicit_bet_to@[i]
            <= player.committed_street + player.stack_remaining ==> sizes.bet_to@.contains(
            street.explicit_bet_to@[i],
        )
    &&& forall|i: int|
        0 <= i < street.bet_fractions@.len() ==> (#[trigger] amounts[i] matches Some(amount) && {
            &&& 0 < player.committed_street + amount <= player.committed_street
                + player.stack_remaining
                ==> sizes.bet_to@.contains((player.committed_street + amount) as u64)
        })
    &&& forall|target: u64| #[trigger]
        sizes.bet_to@.contains(target) ==> {
            &&& 0 < target <= player.committed_street + player.stack_remaining
            &&& street.explicit_bet_to@.contains(target) || exists|i: int|
                0 <= i < street.bet_fractions@.len() && (#[trigger] amounts[i] matches Some(amount)
                    && (target == player.committed_street + amount || target == u64::MAX
                    && player.committed_street + amount > u64::MAX))
        }
    &&& forall|i: int, j: int|
        0 <= i < j < sizes.bet_to@.len() ==> sizes.bet_to@[i] < sizes.bet_to@[j]
}

/// The raises on offer are the reachable ones above the bet among the listed
/// targets and the multiples of one street.
pub open spec fn raises_of(
    sizes: ActionSizes,
    street: StreetSizing,
    player: PlayerState,
    bet: u64,
    amounts: Seq<Option<u64>>,
) -> bool {
    &&& sizes.bet_to@ == Seq::<u64>::empty()
    &&& sizes.include_all_in == street.include_all_in
    &&& forall|i: int|
        0 <= i < street.explicit_raise_to@.len() && bet < #[trigger] street.explicit_raise_to@[i]
            <= player.committed_street + player.stack_remaining ==> sizes.raise_to@.contains(
            street.explicit_raise_to@[i],
        )
    &&& forall|i: int|
        0 <= i < street.raise_multipliers@.len() ==> (#[trigger] amounts[i] matches Some(target)
            && (bet < target <= player.committed_street + player.stack_remaining
            ==> sizes.raise_to@.contains(target)))
    &&& forall|target: u64| #[trigger]
        sizes.raise_to@.contains(target) ==> {
            &&& bet < target <= player.committed_street + player.stack_remaining
            &&& street.explicit_raise_to@.contains(target) || exists|i: int|
                0 <= i < street.raise_multipliers@.len() && #[trigger] amounts[i] == Some(target)
        }
    &&& forall|i: int, j: int|
        0 <= i < j < sizes.raise_to@.len() ==> sizes.raise_to@[i] < sizes.raise_to@[j]
}

proof fn lemma_first_in_seat(players: Seq<PlayerState>, from: int, index: int)
    requires
        0 <= from <= index < players.len(),
        forall|j: int| from <= j < index ==> (#[trigger] players[j]).seat != players[index].seat,
    ensures
        player_in_seat(players, players[index].seat, from) == Some(players[index]),
    decreases index - from,
{
    if from < index {
        lemma_first_in_seat(players, from + 1, index);
    }
}

proof fn lemma_nobody_in_seat(players: Seq<PlayerState>, seat: usize, from: int)
    requires
        0 <= from,
        forall|j: int| from <= j < players.len() ==> (#[trigger] players[j]).seat != seat,
    ensures
        player_in_seat(players, seat, from) is None,
    decreases players.len() - from,
{
    if from < players.len() {
        lemma_nobody_in_seat(players, seat, from + 1);
    }
}

/// The first number that is refused, and why; the number of them where none is.
proof fn lemma_fractions(fractions: Seq<u64>, amounts: Seq<Option<u64>>, from: int) -> (at: int)
    requires
        0 <= from <= fractions.len(),
    ensures
        from <= at <= fractions.len(),
        forall|i: int|
            from <= i < at ==> finite(#[trigger] fractions[i]) && above_zero(fractions[i])
                && amounts[i] is Some,
        at == fractions.len() <==> fraction_error(fractions, amounts, from) is None,
        at < fractions.len() ==> if finite(fractions[at]) && above_zero(fractions[at]) {
            amounts[at] is None && fraction_error(fractions, amounts, from) == Some(
                SizingError::OutsideChipRange,
            )
        } else {
            fraction_error(fractions, amounts, from) == Some(SizingError::BadFraction)
        },
    decreases fractions.len() - from,
{
    if from < fractions.len() && finite(fractions[from]) && above_zero(fractions[from])
        && amounts[from] is Some {
        lemma_fractions(fractions, amounts, from + 1)
    } else {
        from
    }
}

/// The first number that is refused, and why; the number of them where none is.
proof fn lemma_multipliers(multipliers: Seq<u64>, amounts: Seq<Option<u64>>, from: int) -> (at: int)
    requires
        0 <= from <= multipliers.len(),
    ensures
        from <= at <= multipliers.len(),
        forall|i: int|
            from <= i < at ==> finite(#[trigger] multipliers[i]) && above_one(multipliers[i])
                && amounts[i] is Some,
        at == multipliers.len() <==> multiplier_error(multipliers, amounts, from) is None,
        at < multipliers.len() ==> if finite(multipliers[at]) && above_one(multipliers[at]) {
            amounts[at] is None && multiplier_error(multipliers, amounts, from) == Some(
                SizingError::OutsideChipRange,
            )
        } else {
            multiplier_error(multipliers, amounts, from) == Some(SizingError::BadMultiplier)
        },
    decreases multipliers.len() - from,
{
    if from < multipliers.len() && finite(multipliers[from]) && above_one(multipliers[from])
        && amounts[from] is Some {
        lemma_multipliers(multipliers, amounts, from + 1)
    } else {
        from
    }
}

/// Each street offers what is set for that street, and nothing else: before a bet
/// the reachable bets of its own list and its own fractions, after one the reachable
/// raises of its own list and its own multiples.
pub proof fn lemma_each_street_offers_its_own_sizes(
    abstraction: ActionAbstraction,
    state: GameState,
    amounts: &[Option<u64>],
    index: int,
    result: Result<ActionSizes, SizingError>,
)
    requires
        call_ensures(ActionAbstraction::action_sizes, (&abstraction, &state, amounts), result),
        is_to_act(state, index),
        state.players@[index].committed_street + state.players@[index].stack_remaining <= u64::MAX,
        result is Ok,
    ensures
        ({
            let sizes = result->Ok_0;
            let player = state.players@[index];
            let bet = state.current_bet;
            &&& state.street == Street::Preflop ==> if bet == 0 {
                bets_of(sizes, abstraction.preflop, player, amounts@)
            } else {
                raises_of(sizes, abstraction.preflop, player, bet, amounts@)
            }
            &&& state.street == Street::Flop ==> if bet == 0 {
                bets_of(sizes, abstraction.flop, player, amounts@)
            } else {
                raises_of(sizes, abstraction.flop, player, bet, amounts@)
            }
            &&& state.street == Street::Turn ==> if bet == 0 {
                bets_of(sizes, abstraction.turn, player, amounts@)
            } else {
                raises_of(sizes, abstraction.turn, player, bet, amounts@)
            }
            &&& state.street == Street::River ==> if bet == 0 {
                bets_of(sizes, abstraction.river, player, amounts@)
            } else {
                raises_of(sizes, abstraction.river, player, bet, amounts@)
            }
        }),
{
    lemma_first_in_seat(state.players@, 0, index);
    let sizes = result->Ok_0;
    let player = state.players@[index];
    let bet = state.current_bet;
    let street = match state.street {
        Street::Preflop => abstraction.preflop,
        Street::Flop => abstraction.flop,
        Street::Turn => abstraction.turn,
        Street::River => abstraction.river,
    };
    if bet == 0 {
        let fault = lemma_fractions(street.bet_fractions@, amounts@, 0);
        assert(sizes.raise_to@ =~= Seq::<u64>::empty());
        assert forall|i: int|
            0 <= i < street.explicit_bet_to@.len() && 0 < #[trigger] street.explicit_bet_to@[i]
                <= player.committed_street + player.stack_remaining implies sizes.bet_to@.contains(
            street.explicit_bet_to@[i],
        ) by {
            assert(street.explicit_bet_to@.contains(street.explicit_bet_to@[i]));
        }
        assert forall|i: int| 0 <= i < street.bet_fractions@.len() implies (#[trigger] amounts@[i] matches Some(
            amount,
        ) && {
            &&& 0 < player.committed_street + amount <= player.committed_street
                + player.stack_remaining ==> sizes.bet_to@.contains(
                (player.committed_street + amount) as u64,
            )
        }) by {
            assert(finite(street.bet_fractions@[i]));
        }
        assert(bets_of(sizes, street, player, amounts@));
    } else {
        let fault = lemma_multipliers(street.raise_multipliers@, amounts@, 0);
        assert(sizes.bet_to@ =~= Seq::<u64>::empty());
        assert forall|i: int|
            0 <= i < street.explicit_raise_to@.len() && bet
                < #[trigger] street.explicit_raise_to@[i] <= player.committed_street
                + player.stack_remaining implies sizes.raise_to@.contains(
            street.explicit_raise_to@[i],
        ) by {
            assert(street.explicit_raise_to@.contains(street.explicit_raise_to@[i]));
        }
        assert forall|i: int|
            0 <= i < street.raise_multipliers@.len() implies (#[trigger] amounts@[i] matches Some(
            target,
        ) && (bet < target <= player.committed_street + player.stack_remaining
            ==> sizes.raise_to@.contains(target))) by {
            assert(finite(street.raise_multipliers@[i]));
        }
        assert(raises_of(sizes, street, player, bet, amounts@));
    }
}

/// Sizes are refused for three reasons: nobody sits in the acting seat, a number of
/// the street is out of order, or its chips are out of range. The first number that
/// is at fault decides, and where none is, sizes are given.
pub proof fn lemma_the_first_fault_refuses_sizes(
    abstraction: ActionAbstraction,
    state: GameState,
    amounts: &[Option<u64>],
    index: int,
    numbers: Seq<u64>,
    result: Result<ActionSizes, SizingError>,
) -> (at: int)
    requires
        call_ensures(ActionAbstraction::action_sizes, (&abstraction, &state, amounts), result),
        is_to_act(state, index),
        ({
            let street = match state.street {
                Street::Preflop => abstraction.preflop,
                Street::Flop => abstraction.flop,
                Street::Turn => abstraction.turn,
                Street::River => abstraction.river,
            };
            numbers == if state.current_bet == 0 {
                street.bet_fractions@
            } else {
                street.raise_multipliers@
            }
        }),
    ensures
        0 <= at <= numbers.len(),
        forall|i: int|
            0 <= i < at ==> finite(#[trigger] numbers[i]) && (if state.current_bet == 0 {
                above_zero(numbers[i])
            } else {
                above_one(numbers[i])
            }) && amounts@[i] is Some,
        at == numbers.len() <==> result is Ok,
        at < numbers.len() ==> ({
            let number_ok = finite(numbers[at]) && if state.current_bet == 0 {
                above_zero(numbers[at])
            } else {
                above_one(numbers[at])
            };
            &&& number_ok ==> amounts@[at] is None
            &&& result == Err::<ActionSizes, SizingError>(
                if number_ok {
                    SizingError::OutsideChipRange
                } else if state.current_bet == 0 {
                    SizingError::BadFraction
                } else {
                    SizingError::BadMultiplier
                },
            )
        }),
{
    lemma_first_in_seat(state.players@, 0, index);
    if state.current_bet == 0 {
        lemma_fractions(numbers, amounts@, 0)
    } else {
        lemma_multipliers(numbers, amounts@, 0)
    }
}

/// Where nobody sits in the acting seat, there are no sizes.
pub proof fn lemma_nobody_to_act_no_sizes(
    abstraction: ActionAbstraction,
    state: GameState,
    amounts: &[Option<u64>],
    result: Result<ActionSizes, SizingError>,
)
    requires
        call_ensures(ActionAbstraction::action_sizes, (&abstraction, &state, amounts), result),
        forall|j: int|
            0 <= j < state.players@.len() ==> state.actor != Some(
                (#[trigger] state.players@[j]).seat,
            ),
    ensures
        result == Err::<ActionSizes, SizingError>(SizingError::NoActor),
{
    if let Some(seat) = state.actor {
        lemma_nobody_in_seat(state.players@, seat, 0);
    }
}

/// The four streets do not share their sizes: an abstraction gives back for each
/// street what was put in for it.
pub proof fn lemma_streets_keep_their_sizes(
    abstraction: ActionAbstraction,
    preflop: &StreetSizing,
    flop: &StreetSizing,
    turn: &StreetSizing,
    river: &StreetSizing,
)
    requires
        call_ensures(ActionAbstraction::sizing_for, (&abstraction, Street::Preflop), preflop),
        call_ensures(ActionAbstraction::sizing_for, (&abstraction, Street::Flop), flop),
        call_ensures(ActionAbstraction::sizing_for, (&abstraction, Street::Turn), turn),
        call_ensures(ActionAbstraction::sizing_for, (&abstraction, Street::River), river),
    ensures
        abstraction == (ActionAbstraction {
            preflop: *preflop,
            flop: *flop,
            turn: *turn,
            river: *river,
        }),
{
}

} // verus!
