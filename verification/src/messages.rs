//! Errors in words.
use vstd::prelude::*;

use crate::arena::ArenaError;
use crate::cards::CardError;
use crate::compile::CompileError;
use crate::domain::Action;
use crate::game::GameError;
use crate::holdem::HoldemError;
use crate::multiway::MultiwayError;
use crate::parallel::ParallelError;
use crate::payoff::PayoffError;
use crate::sampler::SamplerError;
use crate::spot::SpotError;
use crate::tree::TreeError;
use crate::text::{decimal_text, push_decimal};

verus! {

/// An action with its target.
pub open spec fn action_text(action: Action) -> Seq<char> {
    match action {
        Action::Fold => "Fold"@,
        Action::Check => "Check"@,
        Action::Call => "Call"@,
        Action::Bet { to } => "Bet { to: "@ + decimal_text(to as nat) + " }"@,
        Action::Raise { to } => "Raise { to: "@ + decimal_text(to as nat) + " }"@,
        Action::AllIn => "AllIn"@,
    }
}

fn push_action(text: &mut String, action: Action)
    ensures
        final(text)@ == old(text)@ + action_text(action),
{
    match action {
        Action::Fold => text.append("Fold"),
        Action::Check => text.append("Check"),
        Action::Call => text.append("Call"),
        Action::Bet { to } => {
            text.append("Bet { to: ");
            push_decimal(text, to);
            text.append(" }");
        },
        Action::Raise { to } => {
            text.append("Raise { to: ");
            push_decimal(text, to);
            text.append(" }");
        },
        Action::AllIn => text.append("AllIn"),
    }
    assert(text@ =~= old(text)@ + action_text(action));
}

/// A number that may be missing.
pub open spec fn option_text(number: Option<usize>) -> Seq<char> {
    match number {
        Some(number) => "Some("@ + decimal_text(number as nat) + ")"@,
        None => "None"@,
    }
}

pub(crate) fn push_option(text: &mut String, number: Option<usize>)
    ensures
        final(text)@ == old(text)@ + option_text(number),
{
    match number {
        Some(number) => {
            text.append("Some(");
            push_decimal(text, number as u64);
            text.append(")");
        },
        None => {
            text.append("None");
        },
    }
    assert(text@ =~= old(text)@ + option_text(number));
}

impl CardError {
    pub open spec fn message_text(self) -> Seq<char> {
        match self {
            CardError::OutOfDeck { card } => "card "@ + decimal_text(card as nat)
                + " is not in the deck"@,
            CardError::Duplicate { card } => "card "@ + decimal_text(card as nat)
                + " appears twice"@,
        }
    }

    /// What went wrong, in words.
    pub fn message(&self) -> (text: String)
        ensures
            text@ == self.message_text(),
    {
        let mut text = String::new();
        match self {
            CardError::OutOfDeck { card } => {
                text.append("card ");
                push_decimal(&mut text, *card as u64);
                text.append(" is not in the deck");
            },
            CardError::Duplicate { card } => {
                text.append("card ");
                push_decimal(&mut text, *card as u64);
                text.append(" appears twice");
            },
        }
        assert(text@ =~= self.message_text());
        text
    }
}

impl SamplerError {
    pub open spec fn message_text(self) -> Seq<char> {
        match self {
            SamplerError::RangeCount { ranges } => "multiway private sampler requires 3-8 ranges, got "@
                + decimal_text(ranges as nat),
            SamplerError::NoLegalCombos { range } => "range "@ + decimal_text(range as nat)
                + " has no legal weighted combos"@,
            SamplerError::ZeroMaxAttempts => "max_attempts must be positive"@,
            SamplerError::UnknownPlayer { player } => "sampler player "@
                + decimal_text(player as nat) + " is outside the range vector"@,
            SamplerError::NotACandidate { player } => "conditioned hand is not a legal candidate for player "@
                + decimal_text(player as nat),
            SamplerError::AttemptsExhausted { limit } => "could not sample a legal multiway private deal within "@
                + decimal_text(limit as nat) + " attempts"@,
            SamplerError::ConditionedExhausted { limit } => "could not sample a conditioned multiway private deal within "@
                + decimal_text(limit as nat) + " attempts"@,
            SamplerError::ZeroState => "multiway private sampler RNG state cannot be zero"@,
        }
    }

    /// What went wrong, in words.
    pub fn message(&self) -> (text: String)
        ensures
            text@ == self.message_text(),
    {
        let mut text = String::new();
        match self {
            SamplerError::RangeCount { ranges } => {
                text.append("multiway private sampler requires 3-8 ranges, got ");
                push_decimal(&mut text, *ranges as u64);
            },
            SamplerError::NoLegalCombos { range } => {
                text.append("range ");
                push_decimal(&mut text, *range as u64);
                text.append(" has no legal weighted combos");
            },
            SamplerError::ZeroMaxAttempts => {
                text.append("max_attempts must be positive");
            },
            SamplerError::UnknownPlayer { player } => {
                text.append("sampler player ");
                push_decimal(&mut text, *player as u64);
                text.append(" is outside the range vector");
            },
            SamplerError::NotACandidate { player } => {
                text.append("conditioned hand is not a legal candidate for player ");
                push_decimal(&mut text, *player as u64);
            },
            SamplerError::AttemptsExhausted { limit } => {
                text.append("could not sample a legal multiway private deal within ");
                push_decimal(&mut text, *limit as u64);
                text.append(" attempts");
            },
            SamplerError::ConditionedExhausted { limit } => {
                text.append("could not sample a conditioned multiway private deal within ");
                push_decimal(&mut text, *limit as u64);
                text.append(" attempts");
            },
            SamplerError::ZeroState => {
                text.append("multiway private sampler RNG state cannot be zero");
            },
        }
        assert(text@ =~= self.message_text());
        text
    }
}

impl TreeError {
    pub open spec fn message_text(self) -> Seq<char> {
        match self {
            TreeError::NoNodes => "tree has no nodes"@,
            TreeError::RootNotZero => "tree root must have id zero"@,
            TreeError::IdMismatch { node } => "node id/index mismatch at "@
                + decimal_text(node as nat),
            TreeError::InvalidState { node } => "node "@ + decimal_text(node as nat)
                + " has an invalid table state"@,
            TreeError::RootHasParent => "root cannot have parent or incoming action"@,
            TreeError::MissingParent { node } => "non-root node "@ + decimal_text(node as nat)
                + " has no parent"@,
            TreeError::InvalidParent { node, parent } => "node "@ + decimal_text(node as nat)
                + " has invalid parent "@ + decimal_text(parent as nat),
            TreeError::ParentMissesChild { parent, node } => "parent "@
                + decimal_text(parent as nat) + " does not reference child "@
                + decimal_text(node as nat),
            TreeError::WrongEdge { node } => "invalid incoming edge type for node "@
                + decimal_text(node as nat),
            TreeError::InvalidChild { node, child } => "node "@ + decimal_text(node as nat)
                + " references invalid child "@ + decimal_text(child as nat),
            TreeError::WrongParent { child } => "child "@ + decimal_text(child as nat)
                + " has wrong parent"@,
            TreeError::LeafAndChance { node } => "node "@ + decimal_text(node as nat)
                + " cannot be leaf and chance"@,
            TreeError::LeafWithChildren { node } => "leaf node "@ + decimal_text(node as nat)
                + " has children"@,
            TreeError::LeafWithActor { node } => "leaf node "@ + decimal_text(node as nat)
                + " still has an actor"@,
            TreeError::ChanceWithActor { node } => "chance node "@ + decimal_text(node as nat)
                + " has an actor"@,
            TreeError::OutcomeMismatch { node } => "chance node "@ + decimal_text(node as nat)
                + " outcome/child mismatch"@,
            TreeError::BadProbabilities { node } => "chance node "@ + decimal_text(node as nat)
                + " probabilities do not sum to one"@,
            TreeError::NoActor { node } => "non-leaf node "@ + decimal_text(node as nat)
                + " has no actor"@,
            TreeError::NoChildren { node } => "decision node "@ + decimal_text(node as nat)
                + " has no children"@,
            TreeError::UnknownNode { node } => "unknown tree node "@ + decimal_text(node as nat),
            TreeError::ZeroMaxNodes => "max_nodes must be positive"@,
            TreeError::ZeroMaxDepth => "max_depth must be positive"@,
            TreeError::InvalidInitialState => "the initial table state is invalid"@,
            TreeError::EmptyPostflopOrder => "postflop action order cannot be empty"@,
            TreeError::DepthLimit { node } => "tree depth limit exceeded at node "@
                + decimal_text(node as nat),
            TreeError::NodeLimit { limit } => "tree node limit exceeded: "@
                + decimal_text(limit as nat),
            TreeError::NoLegalActions { node } => "decision node "@ + decimal_text(node as nat)
                + " has no legal actions"@,
        }
    }

    /// What went wrong, in words.
    pub fn message(&self) -> (text: String)
        ensures
            text@ == self.message_text(),
    {
        let mut text = String::new();
        match self {
            TreeError::NoNodes => {
                text.append("tree has no nodes");
            },
            TreeError::RootNotZero => {
                text.append("tree root must have id zero");
            },
            TreeError::IdMismatch { node } => {
                text.append("node id/index mismatch at ");
                push_decimal(&mut text, *node as u64);
            },
            TreeError::InvalidState { node } => {
                text.append("node ");
                push_decimal(&mut text, *node as u64);
                text.append(" has an invalid table state");
            },
            TreeError::RootHasParent => {
                text.append("root cannot have parent or incoming action");
            },
            TreeError::MissingParent { node } => {
                text.append("non-root node ");
                push_decimal(&mut text, *node as u64);
                text.append(" has no parent");
            },
            TreeError::InvalidParent { node, parent } => {
                text.append("node ");
                push_decimal(&mut text, *node as u64);
                text.append(" has invalid parent ");
                push_decimal(&mut text, *parent as u64);
            },
            TreeError::ParentMissesChild { parent, node } => {
                text.append("parent ");
                push_decimal(&mut text, *parent as u64);
                text.append(" does not reference child ");
                push_decimal(&mut text, *node as u64);
            },
            TreeError::WrongEdge { node } => {
                text.append("invalid incoming edge type for node ");
                push_decimal(&mut text, *node as u64);
            },
            TreeError::InvalidChild { node, child } => {
                text.append("node ");
                push_decimal(&mut text, *node as u64);
                text.append(" references invalid child ");
                push_decimal(&mut text, *child as u64);
            },
            TreeError::WrongParent { child } => {
                text.append("child ");
                push_decimal(&mut text, *child as u64);
                text.append(" has wrong parent");
            },
            TreeError::LeafAndChance { node } => {
                text.append("node ");
                push_decimal(&mut text, *node as u64);
                text.append(" cannot be leaf and chance");
            },
            TreeError::LeafWithChildren { node } => {
                text.append("leaf node ");
                push_decimal(&mut text, *node as u64);
                text.append(" has children");
            },
            TreeError::LeafWithActor { node } => {
                text.append("leaf node ");
                push_decimal(&mut text, *node as u64);
                text.append(" still has an actor");
            },
            TreeError::ChanceWithActor { node } => {
                text.append("chance node ");
                push_decimal(&mut text, *node as u64);
                text.append(" has an actor");
            },
            TreeError::OutcomeMismatch { node } => {
                text.append("chance node ");
                push_decimal(&mut text, *node as u64);
                text.append(" outcome/child mismatch");
            },
            TreeError::BadProbabilities { node } => {
                text.append("chance node ");
                push_decimal(&mut text, *node as u64);
                text.append(" probabilities do not sum to one");
            },
            TreeError::NoActor { node } => {
                text.append("non-leaf node ");
                push_decimal(&mut text, *node as u64);
                text.append(" has no actor");
            },
            TreeError::NoChildren { node } => {
                text.append("decision node ");
                push_decimal(&mut text, *node as u64);
                text.append(" has no children");
            },
            TreeError::UnknownNode { node } => {
                text.append("unknown tree node ");
                push_decimal(&mut text, *node as u64);
            },
            TreeError::ZeroMaxNodes => {
                text.append("max_nodes must be positive");
            },
            TreeError::ZeroMaxDepth => {
                text.append("max_depth must be positive");
            },
            TreeError::InvalidInitialState => {
                text.append("the initial table state is invalid");
            },
            TreeError::EmptyPostflopOrder => {
                text.append("postflop action order cannot be empty");
            },
            TreeError::DepthLimit { node } => {
                text.append("tree depth limit exceeded at node ");
                push_decimal(&mut text, *node as u64);
            },
            TreeError::NodeLimit { limit } => {
                text.append("tree node limit exceeded: ");
                push_decimal(&mut text, *limit as u64);
            },
            TreeError::NoLegalActions { node } => {
                text.append("decision node ");
                push_decimal(&mut text, *node as u64);
                text.append(" has no legal actions");
            },
        }
        assert(text@ =~= self.message_text());
        text
    }
}

impl PayoffError {
    pub open spec fn message_text(self) -> Seq<char> {
        match self {
            PayoffError::HandCount { .. } =>
                "the first Hold'em payoff adapter supports exactly two hands"@,
            PayoffError::SameSeat => "solver seats must be distinct"@,
            PayoffError::DuplicateCards => "private hands contain duplicate cards"@,
            PayoffError::SeatCount { .. } =>
                "the first Hold'em payoff adapter supports heads-up states only"@,
            PayoffError::SeatMissing => "solver seat is not present in the state"@,
            PayoffError::RoundComplete => "round-complete node cannot receive terminal utility"@,
            PayoffError::NotTerminal => "utility requested for a non-terminal node"@,
            PayoffError::WinnerOutOfRange { winner } => "fold winner is out of range: "@
                + decimal_text(winner as nat),
            PayoffError::NotSettled { node } => "terminal node "@ + decimal_text(node as nat)
                + " could not be settled"@,
        }
    }

    /// What went wrong between two players, in words.
    pub fn message(&self) -> (text: String)
        ensures
            text@ == self.message_text(),
    {
        let mut text = String::new();
        match self {
            PayoffError::HandCount { .. } => {
                text.append("the first Hold'em payoff adapter supports exactly two hands");
            },
            PayoffError::SameSeat => {
                text.append("solver seats must be distinct");
            },
            PayoffError::DuplicateCards => {
                text.append("private hands contain duplicate cards");
            },
            PayoffError::SeatCount { .. } => {
                text.append("the first Hold'em payoff adapter supports heads-up states only");
            },
            PayoffError::SeatMissing => {
                text.append("solver seat is not present in the state");
            },
            PayoffError::RoundComplete => {
                text.append("round-complete node cannot receive terminal utility");
            },
            PayoffError::NotTerminal => {
                text.append("utility requested for a non-terminal node");
            },
            PayoffError::WinnerOutOfRange { winner } => {
                text.append("fold winner is out of range: ");
                push_decimal(&mut text, *winner as u64);
            },
            PayoffError::NotSettled { node } => {
                text.append("terminal node ");
                push_decimal(&mut text, *node as u64);
                text.append(" could not be settled");
            },
        }
        assert(text@ =~= self.message_text());
        text
    }

    pub open spec fn multiway_message_text(self) -> Seq<char> {
        match self {
            PayoffError::HandCount { hands } => "multiway Hold'em payoff requires 3-8 hands, got "@
                + decimal_text(hands as nat),
            PayoffError::SameSeat => "solver seats must be distinct"@,
            PayoffError::DuplicateCards => "multiway private hands contain duplicate cards"@,
            PayoffError::SeatCount { players, hands } => "tree state has "@
                + decimal_text(players as nat) + " players but payoff has "@
                + decimal_text(hands as nat) + " hands"@,
            PayoffError::SeatMissing => "solver seat is not present in the state"@,
            PayoffError::RoundComplete => "round-complete node cannot receive terminal utility"@,
            PayoffError::NotTerminal => "utility requested for a non-terminal node"@,
            PayoffError::WinnerOutOfRange { winner } => "fold winner is out of range: "@
                + decimal_text(winner as nat),
            PayoffError::NotSettled { node } => "terminal node "@ + decimal_text(node as nat)
                + " could not be settled"@,
        }
    }

    /// What went wrong between many players, in words.
    pub fn multiway_message(&self) -> (text: String)
        ensures
            text@ == self.multiway_message_text(),
    {
        let mut text = String::new();
        match self {
            PayoffError::HandCount { hands } => {
                text.append("multiway Hold'em payoff requires 3-8 hands, got ");
                push_decimal(&mut text, *hands as u64);
            },
            PayoffError::SameSeat => {
                text.append("solver seats must be distinct");
            },
            PayoffError::DuplicateCards => {
                text.append("multiway private hands contain duplicate cards");
            },
            PayoffError::SeatCount { players, hands } => {
                text.append("tree state has ");
                push_decimal(&mut text, *players as u64);
                text.append(" players but payoff has ");
                push_decimal(&mut text, *hands as u64);
                text.append(" hands");
            },
            PayoffError::SeatMissing => {
                text.append("solver seat is not present in the state");
            },
            PayoffError::RoundComplete => {
                text.append("round-complete node cannot receive terminal utility");
            },
            PayoffError::NotTerminal => {
                text.append("utility requested for a non-terminal node");
            },
            PayoffError::WinnerOutOfRange { winner } => {
                text.append("fold winner is out of range: ");
                push_decimal(&mut text, *winner as u64);
            },
            PayoffError::NotSettled { node } => {
                text.append("terminal node ");
                push_decimal(&mut text, *node as u64);
                text.append(" could not be settled");
            },
        }
        assert(text@ =~= self.multiway_message_text());
        text
    }
}

impl CompileError {
    pub open spec fn message_text(self) -> Seq<char> {
        match self {
            CompileError::Tree(error) => error.message_text(),
            CompileError::Cycle { node } => "tree contains a cycle at node "@
                + decimal_text(node as nat),
            CompileError::Unreachable => "tree contains a node unreachable from root"@,
            CompileError::NoDeals => "private deal list cannot be empty"@,
            CompileError::SeatCount { players } => "multiway Hold'em compiler requires 3-8 seats, got "@
                + decimal_text(players as nat),
            CompileError::DealHands { hands, players } => "deal has "@ + decimal_text(hands as nat)
                + " hands, expected "@ + decimal_text(players as nat),
            CompileError::DealProbability =>
                "private deal probability must be finite and positive"@,
            CompileError::Payoff(error) => error.message_text(),
            CompileError::Cards(error) => error.message_text(),
            CompileError::BoardConflict { node } => "private deal conflicts with public board at tree node "@
                + decimal_text(node as nat),
            CompileError::NoLegalOutcomes { node } => "private deal has no legal public-card outcomes at tree node "@
                + decimal_text(node as nat),
            CompileError::RoundComplete { node } => "round-complete node "@
                + decimal_text(node as nat) + " has no terminal payoff"@,
            CompileError::NoActor { node } => "decision node "@ + decimal_text(node as nat)
                + " has no actor"@,
            CompileError::PlayerOutside { player, .. } => "generic solver supports players 0 and 1, got player "@
                + decimal_text(player as nat),
            CompileError::MissingAction { node, child } => "decision edge "@
                + decimal_text(node as nat) + " -> "@ + decimal_text(child as nat)
                + " has no action"@,
            CompileError::DuplicateAction { node, action } => "decision node "@
                + decimal_text(node as nat) + " contains duplicate action "@ + action_text(action),
            CompileError::NoActions { node } => "decision node "@ + decimal_text(node as nat)
                + " has no actions"@,
        }
    }

    /// What keeps a heads-up tree from being compiled, in words.
    pub fn message(&self) -> (text: String)
        ensures
            text@ == self.message_text(),
    {
        let mut text = String::new();
        match self {
            CompileError::Tree(error) => {
                text.append(error.message().as_str());
            },
            CompileError::Cycle { node } => {
                text.append("tree contains a cycle at node ");
                push_decimal(&mut text, *node as u64);
            },
            CompileError::Unreachable => {
                text.append("tree contains a node unreachable from root");
            },
            CompileError::NoDeals => {
                text.append("private deal list cannot be empty");
            },
            CompileError::SeatCount { players } => {
                text.append("multiway Hold'em compiler requires 3-8 seats, got ");
                push_decimal(&mut text, *players as u64);
            },
            CompileError::DealHands { hands, players } => {
                text.append("deal has ");
                push_decimal(&mut text, *hands as u64);
                text.append(" hands, expected ");
                push_decimal(&mut text, *players as u64);
            },
            CompileError::DealProbability => {
                text.append("private deal probability must be finite and positive");
            },
            CompileError::Payoff(error) => {
                text.append(error.message().as_str());
            },
            CompileError::Cards(error) => {
                text.append(error.message().as_str());
            },
            CompileError::BoardConflict { node } => {
                text.append("private deal conflicts with public board at tree node ");
                push_decimal(&mut text, *node as u64);
            },
            CompileError::NoLegalOutcomes { node } => {
                text.append("private deal has no legal public-card outcomes at tree node ");
                push_decimal(&mut text, *node as u64);
            },
            CompileError::RoundComplete { node } => {
                text.append("round-complete node ");
                push_decimal(&mut text, *node as u64);
                text.append(" has no terminal payoff");
            },
            CompileError::NoActor { node } => {
                text.append("decision node ");
                push_decimal(&mut text, *node as u64);
                text.append(" has no actor");
            },
            CompileError::PlayerOutside { player, .. } => {
                text.append("generic solver supports players 0 and 1, got player ");
                push_decimal(&mut text, *player as u64);
            },
            CompileError::MissingAction { node, child } => {
                text.append("decision edge ");
                push_decimal(&mut text, *node as u64);
                text.append(" -> ");
                push_decimal(&mut text, *child as u64);
                text.append(" has no action");
            },
            CompileError::DuplicateAction { node, action } => {
                text.append("decision node ");
                push_decimal(&mut text, *node as u64);
                text.append(" contains duplicate action ");
                push_action(&mut text, *action);
            },
            CompileError::NoActions { node } => {
                text.append("decision node ");
                push_decimal(&mut text, *node as u64);
                text.append(" has no actions");
            },
        }
        assert(text@ =~= self.message_text());
        text
    }

    pub open spec fn multiway_message_text(self) -> Seq<char> {
        match self {
            CompileError::Tree(error) => error.message_text(),
            CompileError::Cycle { node } => "tree contains a cycle at node "@
                + decimal_text(node as nat),
            CompileError::Unreachable => "tree contains a node unreachable from root"@,
            CompileError::NoDeals => "multiway private deal list cannot be empty"@,
            CompileError::SeatCount { players } => "multiway Hold'em compiler requires 3-8 seats, got "@
                + decimal_text(players as nat),
            CompileError::DealHands { hands, players } => "deal has "@ + decimal_text(hands as nat)
                + " hands, expected "@ + decimal_text(players as nat),
            CompileError::DealProbability =>
                "private deal probability must be finite and positive"@,
            CompileError::Payoff(error) => error.multiway_message_text(),
            CompileError::Cards(error) => error.message_text(),
            CompileError::BoardConflict { node } => "private deal conflicts with public board at tree node "@
                + decimal_text(node as nat),
            CompileError::NoLegalOutcomes { node } => "private deal has no legal public-card outcomes at tree node "@
                + decimal_text(node as nat),
            CompileError::RoundComplete { node } => "round-complete node "@
                + decimal_text(node as nat) + " has no terminal payoff"@,
            CompileError::NoActor { node } => "decision node "@ + decimal_text(node as nat)
                + " has no actor"@,
            CompileError::PlayerOutside { node, player } => "decision node "@
                + decimal_text(node as nat) + " has player "@ + decimal_text(player as nat)
                + " outside private deal"@,
            CompileError::MissingAction { node, child } => "decision edge "@
                + decimal_text(node as nat) + " -> "@ + decimal_text(child as nat)
                + " has no action"@,
            CompileError::DuplicateAction { node, action } => "decision node "@
                + decimal_text(node as nat) + " contains duplicate action "@ + action_text(action),
            CompileError::NoActions { node } => "decision node "@ + decimal_text(node as nat)
                + " has no actions"@,
        }
    }

    /// What keeps a tree of many seats from being compiled, in words.
    pub fn multiway_message(&self) -> (text: String)
        ensures
            text@ == self.multiway_message_text(),
    {
        let mut text = String::new();
        match self {
            CompileError::Tree(error) => {
                text.append(error.message().as_str());
            },
            CompileError::Cycle { node } => {
                text.append("tree contains a cycle at node ");
                push_decimal(&mut text, *node as u64);
            },
            CompileError::Unreachable => {
                text.append("tree contains a node unreachable from root");
            },
            CompileError::NoDeals => {
                text.append("multiway private deal list cannot be empty");
            },
            CompileError::SeatCount { players } => {
                text.append("multiway Hold'em compiler requires 3-8 seats, got ");
                push_decimal(&mut text, *players as u64);
            },
            CompileError::DealHands { hands, players } => {
                text.append("deal has ");
                push_decimal(&mut text, *hands as u64);
                text.append(" hands, expected ");
                push_decimal(&mut text, *players as u64);
            },
            CompileError::DealProbability => {
                text.append("private deal probability must be finite and positive");
            },
            CompileError::Payoff(error) => {
                text.append(error.multiway_message().as_str());
            },
            CompileError::Cards(error) => {
                text.append(error.message().as_str());
            },
            CompileError::BoardConflict { node } => {
                text.append("private deal conflicts with public board at tree node ");
                push_decimal(&mut text, *node as u64);
            },
            CompileError::NoLegalOutcomes { node } => {
                text.append("private deal has no legal public-card outcomes at tree node ");
                push_decimal(&mut text, *node as u64);
            },
            CompileError::RoundComplete { node } => {
                text.append("round-complete node ");
                push_decimal(&mut text, *node as u64);
                text.append(" has no terminal payoff");
            },
            CompileError::NoActor { node } => {
                text.append("decision node ");
                push_decimal(&mut text, *node as u64);
                text.append(" has no actor");
            },
            CompileError::PlayerOutside { node, player } => {
                text.append("decision node ");
                push_decimal(&mut text, *node as u64);
                text.append(" has player ");
                push_decimal(&mut text, *player as u64);
                text.append(" outside private deal");
            },
            CompileError::MissingAction { node, child } => {
                text.append("decision edge ");
                push_decimal(&mut text, *node as u64);
                text.append(" -> ");
                push_decimal(&mut text, *child as u64);
                text.append(" has no action");
            },
            CompileError::DuplicateAction { node, action } => {
                text.append("decision node ");
                push_decimal(&mut text, *node as u64);
                text.append(" contains duplicate action ");
                push_action(&mut text, *action);
            },
            CompileError::NoActions { node } => {
                text.append("decision node ");
                push_decimal(&mut text, *node as u64);
                text.append(" has no actions");
            },
        }
        assert(text@ =~= self.multiway_message_text());
        text
    }
}

impl ArenaError {
    pub open spec fn message_text(self) -> Seq<char> {
        match self {
            ArenaError::Tree(error) => error.message_text(),
            ArenaError::SeatCount { seats } => "public multiway arena requires 3-8 seats, got "@
                + decimal_text(seats as nat),
            ArenaError::HandCount { hands, expected } => "public profile has "@
                + decimal_text(hands as nat) + " hands, expected "@ + decimal_text(expected as nat),
            ArenaError::Payoff(error) => error.multiway_message_text(),
            ArenaError::UnknownNode { node } => "unknown public node "@ + decimal_text(node as nat),
            ArenaError::NotAChanceNode { node } => "public node "@ + decimal_text(node as nat)
                + " is not a chance node"@,
            ArenaError::Cards(error) => error.message_text(),
            ArenaError::NoLegalOutcomes { node } => "private profile has no legal public outcomes at node "@
                + decimal_text(node as nat),
            ArenaError::RoundComplete { node } => "round-complete public node "@
                + decimal_text(node as nat) + " has no payoff"@,
            ArenaError::NoActor { node } => "public decision node "@ + decimal_text(node as nat)
                + " has no actor"@,
            ArenaError::NoActions { node } => "public decision node "@ + decimal_text(node as nat)
                + " has no actions"@,
            ArenaError::PlayerOutside { player, .. } => "public decision player "@
                + decimal_text(player as nat) + " is outside traversal state"@,
        }
    }

    /// What went wrong, in words.
    pub fn message(&self) -> (text: String)
        ensures
            text@ == self.message_text(),
    {
        let mut text = String::new();
        match self {
            ArenaError::Tree(error) => {
                text.append(error.message().as_str());
            },
            ArenaError::SeatCount { seats } => {
                text.append("public multiway arena requires 3-8 seats, got ");
                push_decimal(&mut text, *seats as u64);
            },
            ArenaError::HandCount { hands, expected } => {
                text.append("public profile has ");
                push_decimal(&mut text, *hands as u64);
                text.append(" hands, expected ");
                push_decimal(&mut text, *expected as u64);
            },
            ArenaError::Payoff(error) => {
                text.append(error.multiway_message().as_str());
            },
            ArenaError::UnknownNode { node } => {
                text.append("unknown public node ");
                push_decimal(&mut text, *node as u64);
            },
            ArenaError::NotAChanceNode { node } => {
                text.append("public node ");
                push_decimal(&mut text, *node as u64);
                text.append(" is not a chance node");
            },
            ArenaError::Cards(error) => {
                text.append(error.message().as_str());
            },
            ArenaError::NoLegalOutcomes { node } => {
                text.append("private profile has no legal public outcomes at node ");
                push_decimal(&mut text, *node as u64);
            },
            ArenaError::RoundComplete { node } => {
                text.append("round-complete public node ");
                push_decimal(&mut text, *node as u64);
                text.append(" has no payoff");
            },
            ArenaError::NoActor { node } => {
                text.append("public decision node ");
                push_decimal(&mut text, *node as u64);
                text.append(" has no actor");
            },
            ArenaError::NoActions { node } => {
                text.append("public decision node ");
                push_decimal(&mut text, *node as u64);
                text.append(" has no actions");
            },
            ArenaError::PlayerOutside { player, .. } => {
                text.append("public decision player ");
                push_decimal(&mut text, *player as u64);
                text.append(" is outside traversal state");
            },
        }
        assert(text@ =~= self.message_text());
        text
    }
}

impl ParallelError {
    pub open spec fn message_text(self) -> Seq<char> {
        match self {
            ParallelError::ZeroWorkers => "parallel worker_count must be positive"@,
            ParallelError::ZeroBatchSize => "parallel batch_size must be positive"@,
            ParallelError::CompiledDeals =>
                "parallel multiway batching requires the public-tree arena mode; use new()"@,
            ParallelError::TaskCountOverflow => "parallel batch task count overflowed"@,
            ParallelError::AttemptCountOverflow => "private sampling attempt counter overflowed"@,
            ParallelError::VisitCountOverflow =>
                "parallel information-set visit counter overflowed"@,
            ParallelError::MissingResult { .. } => "parallel worker did not return a task result"@,
            ParallelError::NonFinite => "parallel batch produced non-finite information-set data"@,
            ParallelError::NonFiniteUpdate => "parallel batch produced non-finite regret update"@,
            ParallelError::ActionCountChange { player, node } => "parallel information set "@
                + decimal_text(player as nat) + ":"@ + decimal_text(node as nat)
                + " changes action count"@,
            ParallelError::UpdateActionCount { player, node } => "parallel batch information set "@
                + decimal_text(player as nat) + ":"@ + decimal_text(node as nat)
                + " changes action count"@,
            ParallelError::Sampler(error) => error.message_text(),
            ParallelError::Arena(error) => error.message_text(),
        }
    }

    /// What went wrong, in words.
    pub fn message(&self) -> (text: String)
        ensures
            text@ == self.message_text(),
    {
        let mut text = String::new();
        match self {
            ParallelError::ZeroWorkers => {
                text.append("parallel worker_count must be positive");
            },
            ParallelError::ZeroBatchSize => {
                text.append("parallel batch_size must be positive");
            },
            ParallelError::CompiledDeals => {
                text.append("parallel multiway batching requires the public-tree arena mode; use new()");
            },
            ParallelError::TaskCountOverflow => {
                text.append("parallel batch task count overflowed");
            },
            ParallelError::AttemptCountOverflow => {
                text.append("private sampling attempt counter overflowed");
            },
            ParallelError::VisitCountOverflow => {
                text.append("parallel information-set visit counter overflowed");
            },
            ParallelError::MissingResult { .. } => {
                text.append("parallel worker did not return a task result");
            },
            ParallelError::NonFinite => {
                text.append("parallel batch produced non-finite information-set data");
            },
            ParallelError::NonFiniteUpdate => {
                text.append("parallel batch produced non-finite regret update");
            },
            ParallelError::ActionCountChange { player, node } => {
                text.append("parallel information set ");
                push_decimal(&mut text, *player as u64);
                text.append(":");
                push_decimal(&mut text, *node as u64);
                text.append(" changes action count");
            },
            ParallelError::UpdateActionCount { player, node } => {
                text.append("parallel batch information set ");
                push_decimal(&mut text, *player as u64);
                text.append(":");
                push_decimal(&mut text, *node as u64);
                text.append(" changes action count");
            },
            ParallelError::Sampler(error) => {
                text.append(error.message().as_str());
            },
            ParallelError::Arena(error) => {
                text.append(error.message().as_str());
            },
        }
        assert(text@ =~= self.message_text());
        text
    }
}

impl SpotError {
    pub open spec fn message_text(self) -> Seq<char> {
        match self {
            SpotError::TableSize { .. } => "multiway spot requires a 3-8 player table"@,
            SpotError::RangeCount { ranges, expected } => "spot has "@ + decimal_text(ranges as nat)
                + " ranges, expected "@ + decimal_text(expected as nat),
            SpotError::HeroOutsideTable { hero, size } => "hero player "@
                + decimal_text(hero as nat) + " is outside table size "@
                + decimal_text(size as nat),
            SpotError::NoHeroHands => "spot hero_hands cannot be empty"@,
            SpotError::ZeroMaxPrivateAttempts => "spot max_private_attempts must be positive"@,
            SpotError::ZeroWorkerCount => "spot worker_count must be positive"@,
            SpotError::ZeroReductionBatchSize => "spot reduction_batch_size must be positive"@,
            SpotError::DuplicateHeroHand { .. } => "spot hero_hands contains a duplicate combo"@,
            SpotError::DeadHeroHand { .. } => "spot hero hand conflicts with dead cards"@,
            SpotError::HeroHandNotInRange { hand } => "hero combo ["@
                + decimal_text(hand.first as nat) + ", "@ + decimal_text(hand.second as nat)
                + "] is absent or has zero weight in hero range"@,
            SpotError::BadCards(error) => error.message_text(),
            SpotError::PublicCardConflict =>
                "chance outcome cards conflict with earlier public cards"@,
            SpotError::AfterTerminal { index } => "spot action history continues after terminal action at index "@
                + decimal_text(index as nat),
            SpotError::WrongActor { index, player, actor } => "spot history action "@
                + decimal_text(index as nat) + " belongs to player "@ + decimal_text(player as nat)
                + ", expected actor "@ + option_text(actor),
            SpotError::BetweenRounds =>
                "spot history ends between betting rounds without an actor"@,
            SpotError::ShortBoard { remaining, needed } => "spot board has "@
                + decimal_text(remaining as nat) + " card(s) left, but street needs "@
                + decimal_text(needed as nat),
            SpotError::TerminalState =>
                "spot history ends at a terminal state, not a hero decision"@,
            SpotError::UnusedBoard { remaining } => "spot board has "@
                + decimal_text(remaining as nat)
                + " unconsumed card(s) while a decision is pending"@,
            SpotError::NotHero { actor, hero } => "spot history ends at actor "@
                + option_text(actor) + ", not hero "@ + decimal_text(hero as nat),
            SpotError::RoundCompleteLeaves =>
                "spot solver tree contains RoundComplete leaves; use Full tree config with terminal streets"@,
            SpotError::ZeroIterations => "spot iterations must be positive"@,
            SpotError::NoRequestedWeight => "hero requested hands have no positive range weight"@,
            SpotError::NoHandVisited =>
                "no requested hero combo was visited; increase iterations or private sampling coverage"@,
            SpotError::DifferentActions { .. } =>
                "hero information sets do not share the same action abstraction"@,
        }
    }

    /// What went wrong, in words.
    pub fn message(&self) -> (text: String)
        ensures
            text@ == self.message_text(),
    {
        let mut text = String::new();
        match self {
            SpotError::TableSize { .. } => {
                text.append("multiway spot requires a 3-8 player table");
            },
            SpotError::RangeCount { ranges, expected } => {
                text.append("spot has ");
                push_decimal(&mut text, *ranges as u64);
                text.append(" ranges, expected ");
                push_decimal(&mut text, *expected as u64);
            },
            SpotError::HeroOutsideTable { hero, size } => {
                text.append("hero player ");
                push_decimal(&mut text, *hero as u64);
                text.append(" is outside table size ");
                push_decimal(&mut text, *size as u64);
            },
            SpotError::NoHeroHands => {
                text.append("spot hero_hands cannot be empty");
            },
            SpotError::ZeroMaxPrivateAttempts => {
                text.append("spot max_private_attempts must be positive");
            },
            SpotError::ZeroWorkerCount => {
                text.append("spot worker_count must be positive");
            },
            SpotError::ZeroReductionBatchSize => {
                text.append("spot reduction_batch_size must be positive");
            },
            SpotError::DuplicateHeroHand { .. } => {
                text.append("spot hero_hands contains a duplicate combo");
            },
            SpotError::DeadHeroHand { .. } => {
                text.append("spot hero hand conflicts with dead cards");
            },
            SpotError::HeroHandNotInRange { hand } => {
                text.append("hero combo [");
                push_decimal(&mut text, hand.first as u64);
                text.append(", ");
                push_decimal(&mut text, hand.second as u64);
                text.append("] is absent or has zero weight in hero range");
            },
            SpotError::BadCards(error) => {
                text.append(error.message().as_str());
            },
            SpotError::PublicCardConflict => {
                text.append("chance outcome cards conflict with earlier public cards");
            },
            SpotError::AfterTerminal { index } => {
                text.append("spot action history continues after terminal action at index ");
                push_decimal(&mut text, *index as u64);
            },
            SpotError::WrongActor { index, player, actor } => {
                text.append("spot history action ");
                push_decimal(&mut text, *index as u64);
                text.append(" belongs to player ");
                push_decimal(&mut text, *player as u64);
                text.append(", expected actor ");
                push_option(&mut text, *actor);
            },
            SpotError::BetweenRounds => {
                text.append("spot history ends between betting rounds without an actor");
            },
            SpotError::ShortBoard { remaining, needed } => {
                text.append("spot board has ");
                push_decimal(&mut text, *remaining as u64);
                text.append(" card(s) left, but street needs ");
                push_decimal(&mut text, *needed as u64);
            },
            SpotError::TerminalState => {
                text.append("spot history ends at a terminal state, not a hero decision");
            },
            SpotError::UnusedBoard { remaining } => {
                text.append("spot board has ");
                push_decimal(&mut text, *remaining as u64);
                text.append(" unconsumed card(s) while a decision is pending");
            },
            SpotError::NotHero { actor, hero } => {
                text.append("spot history ends at actor ");
                push_option(&mut text, *actor);
                text.append(", not hero ");
                push_decimal(&mut text, *hero as u64);
            },
            SpotError::RoundCompleteLeaves => {
                text.append("spot solver tree contains RoundComplete leaves; use Full tree config with terminal streets");
            },
            SpotError::ZeroIterations => {
                text.append("spot iterations must be positive");
            },
            SpotError::NoRequestedWeight => {
                text.append("hero requested hands have no positive range weight");
            },
            SpotError::NoHandVisited => {
                text.append("no requested hero combo was visited; increase iterations or private sampling coverage");
            },
            SpotError::DifferentActions { .. } => {
                text.append("hero information sets do not share the same action abstraction");
            },
        }
        assert(text@ =~= self.message_text());
        text
    }
}

impl GameError {
    pub open spec fn message_text(self) -> Seq<char> {
        match self {
            GameError::NoNodes => "game has no nodes"@,
            GameError::RootOutOfRange => "game root is out of range"@,
            GameError::UnsupportedPlayer { player } => "only two players are supported, got "@
                + decimal_text(player as nat),
            GameError::NoActions { node } => "decision node "@ + decimal_text(node as nat)
                + " has no actions"@,
            GameError::InvalidChild { node, child } => "node "@ + decimal_text(node as nat)
                + " references invalid child "@ + decimal_text(child as nat),
            GameError::NoOutcomes { node } => "chance node "@ + decimal_text(node as nat)
                + " has no outcomes"@,
            GameError::InvalidProbability { node } => "chance node "@ + decimal_text(node as nat)
                + " has invalid probability"@,
            GameError::InvalidChanceChild { node, child } => "chance node "@
                + decimal_text(node as nat) + " references invalid child "@
                + decimal_text(child as nat),
            GameError::BadProbabilitySum { node } => "chance node "@ + decimal_text(node as nat)
                + " probabilities do not sum to one"@,
            GameError::NonFiniteUtility { node } => "terminal node "@ + decimal_text(node as nat)
                + " has non-finite utility"@,
        }
    }

    /// What went wrong, in words.
    pub fn message(&self) -> (text: String)
        ensures
            text@ == self.message_text(),
    {
        let mut text = String::new();
        match self {
            GameError::NoNodes => {
                text.append("game has no nodes");
            },
            GameError::RootOutOfRange => {
                text.append("game root is out of range");
            },
            GameError::UnsupportedPlayer { player } => {
                text.append("only two players are supported, got ");
                push_decimal(&mut text, *player as u64);
            },
            GameError::NoActions { node } => {
                text.append("decision node ");
                push_decimal(&mut text, *node as u64);
                text.append(" has no actions");
            },
            GameError::InvalidChild { node, child } => {
                text.append("node ");
                push_decimal(&mut text, *node as u64);
                text.append(" references invalid child ");
                push_decimal(&mut text, *child as u64);
            },
            GameError::NoOutcomes { node } => {
                text.append("chance node ");
                push_decimal(&mut text, *node as u64);
                text.append(" has no outcomes");
            },
            GameError::InvalidProbability { node } => {
                text.append("chance node ");
                push_decimal(&mut text, *node as u64);
                text.append(" has invalid probability");
            },
            GameError::InvalidChanceChild { node, child } => {
                text.append("chance node ");
                push_decimal(&mut text, *node as u64);
                text.append(" references invalid child ");
                push_decimal(&mut text, *child as u64);
            },
            GameError::BadProbabilitySum { node } => {
                text.append("chance node ");
                push_decimal(&mut text, *node as u64);
                text.append(" probabilities do not sum to one");
            },
            GameError::NonFiniteUtility { node } => {
                text.append("terminal node ");
                push_decimal(&mut text, *node as u64);
                text.append(" has non-finite utility");
            },
        }
        assert(text@ =~= self.message_text());
        text
    }
}

impl MultiwayError {
    pub open spec fn message_text(self) -> Seq<char> {
        match self {
            MultiwayError::TooFewPlayers { players } => "multiway game requires at least three players, got "@
                + decimal_text(players as nat),
            MultiwayError::NoNodes => "multiway game has no nodes"@,
            MultiwayError::RootOutOfRange => "multiway game root is out of range"@,
            MultiwayError::PlayerOutside { node, player, players } => "decision node "@
                + decimal_text(node as nat) + " has player "@ + decimal_text(player as nat)
                + " outside "@ + decimal_text(players as nat) + " players"@,
            MultiwayError::UtilityLength { node, length, players } => "terminal node "@
                + decimal_text(node as nat) + " has utility length "@ + decimal_text(length as nat)
                + ", expected "@ + decimal_text(players as nat),
            MultiwayError::Node { error } => error.message_text(),
            MultiwayError::Cycle { node } => "multiway game contains a cycle at node "@
                + decimal_text(node as nat),
            MultiwayError::Unreachable => "multiway game contains unreachable nodes"@,
        }
    }

    /// What went wrong, in words.
    pub fn message(&self) -> (text: String)
        ensures
            text@ == self.message_text(),
    {
        let mut text = String::new();
        match self {
            MultiwayError::TooFewPlayers { players } => {
                text.append("multiway game requires at least three players, got ");
                push_decimal(&mut text, *players as u64);
            },
            MultiwayError::NoNodes => {
                text.append("multiway game has no nodes");
            },
            MultiwayError::RootOutOfRange => {
                text.append("multiway game root is out of range");
            },
            MultiwayError::PlayerOutside { node, player, players } => {
                text.append("decision node ");
                push_decimal(&mut text, *node as u64);
                text.append(" has player ");
                push_decimal(&mut text, *player as u64);
                text.append(" outside ");
                push_decimal(&mut text, *players as u64);
                text.append(" players");
            },
            MultiwayError::UtilityLength { node, length, players } => {
                text.append("terminal node ");
                push_decimal(&mut text, *node as u64);
                text.append(" has utility length ");
                push_decimal(&mut text, *length as u64);
                text.append(", expected ");
                push_decimal(&mut text, *players as u64);
            },
            MultiwayError::Node { error } => {
                text.append(error.message().as_str());
            },
            MultiwayError::Cycle { node } => {
                text.append("multiway game contains a cycle at node ");
                push_decimal(&mut text, *node as u64);
            },
            MultiwayError::Unreachable => {
                text.append("multiway game contains unreachable nodes");
            },
        }
        assert(text@ =~= self.message_text());
        text
    }
}

impl HoldemError {
    pub open spec fn message_text(self) -> Seq<char> {
        match self {
            HoldemError::Compile(error) => error.message_text(),
            HoldemError::Game(error) => error.message_text(),
            HoldemError::Multiway(error) => error.message_text(),
        }
    }

    /// What went wrong with a heads-up game, in words.
    pub fn message(&self) -> (text: String)
        ensures
            text@ == self.message_text(),
    {
        let mut text = String::new();
        match self {
            HoldemError::Compile(error) => {
                text.append(error.message().as_str());
            },
            HoldemError::Game(error) => {
                text.append(error.message().as_str());
            },
            HoldemError::Multiway(error) => {
                text.append(error.message().as_str());
            },
        }
        assert(text@ =~= self.message_text());
        text
    }

    pub open spec fn multiway_message_text(self) -> Seq<char> {
        match self {
            HoldemError::Compile(error) => error.multiway_message_text(),
            HoldemError::Game(error) => error.message_text(),
            HoldemError::Multiway(error) => error.message_text(),
        }
    }

    /// What went wrong with a game of many seats, in words.
    pub fn multiway_message(&self) -> (text: String)
        ensures
            text@ == self.multiway_message_text(),
    {
        let mut text = String::new();
        match self {
            HoldemError::Compile(error) => {
                text.append(error.multiway_message().as_str());
            },
            HoldemError::Game(error) => {
                text.append(error.message().as_str());
            },
            HoldemError::Multiway(error) => {
                text.append(error.message().as_str());
            },
        }
        assert(text@ =~= self.multiway_message_text());
        text
    }
}

} // verus!
