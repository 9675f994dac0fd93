//! From the preflop state to the decision of a spot: the observed actions, one
//! after the other, with the board cards where a street ends.
use vstd::prelude::*;

use crate::cards::Card;
use crate::domain::{Action, GameState};
use crate::spot::{MultiwayHoldemSpotConfig, SpotError};

verus! {

/// What is to be done with the state of the table.
#[derive(Debug)]
pub enum HistoryCommand {
    Apply { action: Action },
    Deal { cards: Vec<Card> },
    Done,
}

/// How far the history has been played.
#[derive(Debug, Clone, Copy, PartialEq, Eq, Structural)]
pub struct HistoryRun {
    /// Actions handed out.
    pub actions: usize,
    /// Board cards handed out.
    pub board: usize,
    /// An action was handed out, and the street may have ended with it.
    pub acted: bool,
}

/// The betting round is over and the hand is not.
pub open spec fn between_rounds(state: GameState) -> bool {
    state.terminal is None && state.actor is None
}

/// Why no cards can be dealt at the end of a street.
pub open spec fn deal_error(state: GameState, remaining: int) -> Option<SpotError> {
    let needed = state.street.spec_required();
    if remaining == 0 {
        Some(SpotError::BetweenRounds)
    } else if needed == 0 || remaining < needed {
        Some(SpotError::ShortBoard { remaining: remaining as usize, needed: needed as usize })
    } else {
        None
    }
}

/// Why the next action of the history cannot be taken.
pub open spec fn action_error(
    config: MultiwayHoldemSpotConfig,
    state: GameState,
    index: usize,
) -> Option<SpotError> {
    let observed = config.action_history@[index as int];
    if state.terminal is Some {
        Some(SpotError::AfterTerminal { index })
    } else if state.actor != Some(observed.player) {
        Some(SpotError::WrongActor { index, player: observed.player, actor: state.actor })
    } else {
        None
    }
}

/// Why a state is not the decision that the spot asks for.
pub open spec fn end_error(
    config: MultiwayHoldemSpotConfig,
    state: GameState,
    board: int,
) -> Option<SpotError> {
    if state.terminal is Some {
        Some(SpotError::TerminalState)
    } else if state.actor is None {
        Some(SpotError::BetweenRounds)
    } else if board < config.board_cards@.len() {
        Some(SpotError::UnusedBoard { remaining: (config.board_cards@.len() - board) as usize })
    } else if state.actor != Some(config.hero_player) {
        Some(SpotError::NotHero { actor: state.actor, hero: config.hero_player })
    } else {
        None
    }
}

/// The next command was given.
pub open spec fn advanced(
    before: HistoryRun,
    after: HistoryRun,
    config: MultiwayHoldemSpotConfig,
    state: GameState,
    result: Result<HistoryCommand, SpotError>,
) -> bool {
    &&& result is Err ==> after == before
    &&& result matches Ok(command) ==> stepped(config, before, after, command)
    &&& if before.deals(state) {
        match deal_error(state, config.board_cards@.len() - before.board) {
            Some(error) => result == Err::<HistoryCommand, SpotError>(error),
            None => {
                &&& result matches Ok(HistoryCommand::Deal { cards })
                &&& cards@ == config.board_cards@.subrange(
                    before.board as int,
                    after.board as int,
                )
                &&& after.board == before.board + state.street.spec_required()
                &&& after.actions == before.actions
                &&& !after.acted
            },
        }
    } else if before.actions < config.action_history@.len() {
        match action_error(config, state, before.actions) {
            Some(error) => result == Err::<HistoryCommand, SpotError>(error),
            None => {
                &&& result == Ok::<HistoryCommand, SpotError>(
                    HistoryCommand::Apply {
                        action: config.action_history@[before.actions as int].action,
                    },
                )
                &&& after.actions == before.actions + 1
                &&& after.board == before.board
                &&& after.acted
            },
        }
    } else {
        match end_error(config, state, before.board as int) {
            Some(error) => result == Err::<HistoryCommand, SpotError>(error),
            None => {
                &&& result == Ok::<HistoryCommand, SpotError>(HistoryCommand::Done)
                &&& after == before
            },
        }
    }
}

impl HistoryRun {
    pub open spec fn wf(self, config: MultiwayHoldemSpotConfig) -> bool {
        &&& self.actions <= config.action_history@.len()
        &&& self.board <= config.board_cards@.len()
    }

    /// The street has ended and its cards are due.
    pub open spec fn deals(self, state: GameState) -> bool {
        self.acted && between_rounds(state)
    }

    /// Nothing played.
    pub fn start(config: &MultiwayHoldemSpotConfig) -> (run: Self)
        ensures
            run.wf(*config),
            run == (HistoryRun { actions: 0, board: 0, acted: false }),
    {
        HistoryRun { actions: 0, board: 0, acted: false }
    }

    /// What to do next, in the state that the last command led to.
    pub fn next(&mut self, config: &MultiwayHoldemSpotConfig, state: &GameState) -> (result: Result<
        HistoryCommand,
        SpotError,
    >)
        requires
            old(self).wf(*config),
        ensures
            final(self).wf(*config),
            advanced(*old(self), *final(self), *config, *state, result),
    {
        if self.acted && state.terminal.is_none() && state.actor.is_none() {
            let remaining = config.board_cards.len() - self.board;
            if remaining == 0 {
                return Err(SpotError::BetweenRounds);
            }
            let needed = state.street.required_new_board_cards();
            if needed == 0 || remaining < needed {
                return Err(SpotError::ShortBoard { remaining, needed });
            }
            let first = self.board;
            let last = first + needed;
            let mut cards: Vec<Card> = Vec::new();
            let mut index = first;
            while index < last
                invariant
                    first <= index <= last <= config.board_cards@.len(),
                    cards@ == config.board_cards@.subrange(first as int, index as int),
                decreases last - index,
            {
                cards.push(config.board_cards[index]);
                index = index + 1;
                assert(cards@ =~= config.board_cards@.subrange(first as int, index as int));
            }
            self.board = last;
            self.acted = false;
            return Ok(HistoryCommand::Deal { cards });
        }
        if self.actions < config.action_history.len() {
            let observed = config.action_history[self.actions];
            if state.terminal.is_some() {
                return Err(SpotError::AfterTerminal { index: self.actions });
            }
            if state.actor != Some(observed.player) {
                return Err(
                    SpotError::WrongActor {
                        index: self.actions,
                        player: observed.player,
                        actor: state.actor,
                    },
                );
            }
            self.actions = self.actions + 1;
            self.acted = true;
            return Ok(HistoryCommand::Apply { action: observed.action });
        }
        if state.terminal.is_some() {
            return Err(SpotError::TerminalState);
        }
        if state.actor.is_none() {
            return Err(SpotError::BetweenRounds);
        }
        if self.board < config.board_cards.len() {
            return Err(
                SpotError::UnusedBoard { remaining: config.board_cards.len() - self.board },
            );
        }
        if state.actor != Some(config.hero_player) {
            return Err(
                SpotError::NotHero { actor: state.actor, hero: config.hero_player },
            );
        }
        Ok(HistoryCommand::Done)
    }
}

/// The observed actions among the commands, in order.
pub open spec fn applied(commands: Seq<HistoryCommand>) -> Seq<Action>
    decreases commands.len(),
{
    if commands.len() == 0 {
        Seq::empty()
    } else {
        match commands.last() {
            HistoryCommand::Apply { action } => applied(commands.drop_last()).push(action),
            _ => applied(commands.drop_last()),
        }
    }
}

/// The board cards among the commands, in order.
pub open spec fn dealt(commands: Seq<HistoryCommand>) -> Seq<Card>
    decreases commands.len(),
{
    if commands.len() == 0 {
        Seq::empty()
    } else {
        match commands.last() {
            HistoryCommand::Deal { cards } => dealt(commands.drop_last()) + cards@,
            _ => dealt(commands.drop_last()),
        }
    }
}

/// One step of a run, whatever state it was taken in.
pub open spec fn stepped(
    config: MultiwayHoldemSpotConfig,
    before: HistoryRun,
    after: HistoryRun,
    command: HistoryCommand,
) -> bool {
    match command {
        HistoryCommand::Deal { cards } => {
            &&& before.board <= after.board <= config.board_cards@.len()
            &&& cards@ == config.board_cards@.subrange(before.board as int, after.board as int)
            &&& after.actions == before.actions
        },
        HistoryCommand::Apply { action } => {
            &&& before.actions < config.action_history@.len()
            &&& action == config.action_history@[before.actions as int].action
            &&& after.actions == before.actions + 1
            &&& after.board == before.board
        },
        HistoryCommand::Done => {
            &&& before.actions == config.action_history@.len()
            &&& before.board == config.board_cards@.len()
            &&& after == before
        },
    }
}

/// The commands of a run are steps, from the start on.
pub open spec fn played(
    config: MultiwayHoldemSpotConfig,
    runs: Seq<HistoryRun>,
    commands: Seq<HistoryCommand>,
) -> bool {
    &&& runs.len() == commands.len() + 1
    &&& runs[0] == (HistoryRun { actions: 0, board: 0, acted: false })
    &&& forall|i: int|
        0 <= i < commands.len() ==> stepped(config, runs[i], runs[i + 1], #[trigger] commands[i])
}

/// The commands play the observed actions and the board cards in order, each
/// once, and a finished run has played all of them.
pub proof fn lemma_history_is_played_in_order(
    config: MultiwayHoldemSpotConfig,
    runs: Seq<HistoryRun>,
    commands: Seq<HistoryCommand>,
)
    requires
        played(config, runs, commands),
    ensures
        runs.last().actions <= config.action_history@.len(),
        runs.last().board <= config.board_cards@.len(),
        applied(commands) == config.action_history@.take(runs.last().actions as int).map_values(
            |observed: crate::spot::MultiwayHoldemSpotAction| observed.action,
        ),
        dealt(commands) == config.board_cards@.take(runs.last().board as int),
        commands.len() > 0 && commands.last() is Done ==> {
            &&& applied(commands).len() == config.action_history@.len()
            &&& dealt(commands) == config.board_cards@
        },
    decreases commands.len(),
{
    let of = |observed: crate::spot::MultiwayHoldemSpotAction| observed.action;
    if commands.len() == 0 {
        assert(applied(commands) =~= config.action_history@.take(0).map_values(of));
        assert(dealt(commands) =~= config.board_cards@.take(0));
    } else {
        let last = commands.len() - 1;
        let earlier = commands.drop_last();
        let earlier_runs = runs.drop_last();
        assert forall|i: int| 0 <= i < earlier.len() implies stepped(
            config,
            earlier_runs[i],
            earlier_runs[i + 1],
            #[trigger] earlier[i],
        ) by {
            assert(stepped(config, runs[i], runs[i + 1], commands[i]));
        }
        lemma_history_is_played_in_order(config, earlier_runs, earlier);
        let before = runs[last];
        let after = runs[last + 1];
        assert(earlier_runs.last() == before);
        assert(stepped(config, before, after, commands[last]));
        assert(commands.last() == commands[last]);
        match commands[last] {
            HistoryCommand::Deal { cards } => {
                assert(dealt(commands) =~= config.board_cards@.take(after.board as int));
            },
            HistoryCommand::Apply { action } => {
                assert(applied(commands) =~= config.action_history@.take(
                    after.actions as int,
                ).map_values(of));
            },
            HistoryCommand::Done => {
                assert(config.board_cards@.take(after.board as int) =~= config.board_cards@);
            },
        }
    }
}

} // verus!
