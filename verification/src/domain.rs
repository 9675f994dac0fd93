//! The table state that trees and fingerprints read.
use vstd::prelude::*;

use crate::cards::Card;

verus! {

pub type PlayerId = usize;

pub type Chips = u64;

#[derive(Debug, Clone, Copy, PartialEq, Eq, Structural)]
pub enum Street {
    Preflop,
    Flop,
    Turn,
    River,
}

impl Street {
    pub open spec fn spec_next(self) -> Option<Street> {
        match self {
            Street::Preflop => Some(Street::Flop),
            Street::Flop => Some(Street::Turn),
            Street::Turn => Some(Street::River),
            Street::River => None,
        }
    }

    /// Cards that come on the board with the street that follows.
    pub open spec fn spec_required(self) -> nat {
        match self {
            Street::Preflop => 3,
            Street::Flop => 1,
            Street::Turn => 1,
            Street::River => 0,
        }
    }

    pub open spec fn spec_code(self) -> u64 {
        match self {
            Street::Preflop => 0,
            Street::Flop => 1,
            Street::Turn => 2,
            Street::River => 3,
        }
    }

    pub fn next(self) -> (next: Option<Street>)
        ensures
            next == self.spec_next(),
    {
        match self {
            Street::Preflop => Some(Street::Flop),
            Street::Flop => Some(Street::Turn),
            Street::Turn => Some(Street::River),
            Street::River => None,
        }
    }

    pub fn required_new_board_cards(self) -> (count: usize)
        ensures
            count == self.spec_required(),
    {
        match self {
            Street::Preflop => 3,
            Street::Flop => 1,
            Street::Turn => 1,
            Street::River => 0,
        }
    }

    pub fn code(self) -> (code: u64)
        ensures
            code == self.spec_code(),
    {
        match self {
            Street::Preflop => 0,
            Street::Flop => 1,
            Street::Turn => 2,
            Street::River => 3,
        }
    }
}

#[derive(Debug, Clone, Copy, PartialEq, Eq, Structural)]
pub enum Action {
    Fold,
    Check,
    Call,
    Bet { to: u64 },
    Raise { to: u64 },
    AllIn,
}

#[derive(Debug, Clone, Copy, PartialEq, Eq, Structural)]
pub enum TerminalState {
    Fold { winner: usize },
    Showdown,
}

#[derive(Debug, Clone, Copy, PartialEq, Eq, Structural)]
pub enum PlayerStatus {
    Active,
    Folded,
    AllIn,
    OutOfHand,
}

#[derive(Debug, Clone, Copy, PartialEq, Eq, Structural)]
pub enum Position {
    Unknown,
    ButtonSmallBlind,
    Button,
    SmallBlind,
    BigBlind,
    Utg,
    Utg1,
    Lj,
    Hj,
    Co,
}

#[derive(Debug, Clone, Copy, PartialEq, Eq, Structural)]
pub enum AnteMode {
    NoAnte,
    Uniform,
    BigBlind,
}

/// Absolute bet and raise targets offered to the acting player.
#[derive(Debug)]
pub struct ActionSizes {
    pub bet_to: Vec<Chips>,
    pub raise_to: Vec<Chips>,
    pub include_all_in: bool,
}

impl Clone for ActionSizes {
    fn clone(&self) -> (copy: Self)
        ensures
            copy.bet_to@ == self.bet_to@,
            copy.raise_to@ == self.raise_to@,
            copy.include_all_in == self.include_all_in,
    {
        let bet_to = self.bet_to.clone();
        let raise_to = self.raise_to.clone();
        assert(bet_to@ =~= self.bet_to@);
        assert(raise_to@ =~= self.raise_to@);
        ActionSizes { bet_to, raise_to, include_all_in: self.include_all_in }
    }
}

impl Default for ActionSizes {
    fn default() -> (sizes: Self)
        ensures
            sizes.bet_to@.len() == 0,
            sizes.raise_to@.len() == 0,
            !sizes.include_all_in,
    {
        ActionSizes { bet_to: Vec::new(), raise_to: Vec::new(), include_all_in: false }
    }
}

#[derive(Debug, Clone, Copy, PartialEq, Eq, Structural)]
pub struct PlayerState {
    pub seat: usize,
    pub position: Position,
    pub stack_remaining: u64,
    pub committed_total: u64,
    pub committed_street: u64,
    pub ante_paid: u64,
    pub status: PlayerStatus,
}

#[derive(Debug)]
pub struct GameState {
    pub table_size: usize,
    pub street: Street,
    pub board: Vec<Card>,
    pub players: Vec<PlayerState>,
    pub dead_money: Chips,
    pub pot: Chips,
    pub actor: Option<PlayerId>,
    pub current_bet: Chips,
    pub min_raise_increment: Chips,
    pub pending_players: Vec<PlayerId>,
    pub raise_allowed: Vec<PlayerId>,
    pub terminal: Option<TerminalState>,
}

impl GameState {
    /// The states agree in every field.
    pub open spec fn same(self, other: Self) -> bool {
        &&& self.table_size == other.table_size
        &&& self.street == other.street
        &&& self.board@ == other.board@
        &&& self.players@ == other.players@
        &&& self.dead_money == other.dead_money
        &&& self.pot == other.pot
        &&& self.actor == other.actor
        &&& self.current_bet == other.current_bet
        &&& self.min_raise_increment == other.min_raise_increment
        &&& self.pending_players@ == other.pending_players@
        &&& self.raise_allowed@ == other.raise_allowed@
        &&& self.terminal == other.terminal
    }
}

impl Clone for GameState {
    fn clone(&self) -> (copy: Self)
        ensures
            copy.same(*self),
    {
        let board = self.board.clone();
        let players = self.players.clone();
        let pending_players = self.pending_players.clone();
        let raise_allowed = self.raise_allowed.clone();
        assert(board@ =~= self.board@);
        assert(players@ =~= self.players@);
        assert(pending_players@ =~= self.pending_players@);
        assert(raise_allowed@ =~= self.raise_allowed@);
        GameState {
            table_size: self.table_size,
            street: self.street,
            board,
            players,
            dead_money: self.dead_money,
            pot: self.pot,
            actor: self.actor,
            current_bet: self.current_bet,
            min_raise_increment: self.min_raise_increment,
            pending_players,
            raise_allowed,
            terminal: self.terminal,
        }
    }
}

/// Each street is followed by the next one, the river by none: from any
/// street the hand ends after at most three steps.
pub proof fn lemma_streets_end(street: Street)
    ensures
        street.spec_next() matches Some(next) ==> next.spec_code() == street.spec_code() + 1,
        street.spec_next() is None <==> street == Street::River,
        street.spec_next() is Some <==> street.spec_required() > 0,
{
}

} // verus!
