//! Errors of solvers, jobs and reports in words.
use vstd::prelude::*;

use crate::action_abstraction::SizingError;
use crate::batch::BatchError;
use crate::batch_metrics::{MetricsError, MetricsField};
use crate::batch_report::BatchReportError;
use crate::batch_store::BatchCheckpointError;
use crate::blocking::BlockingError;
use crate::card_abstraction::AbstractionError;
use crate::chance::ChanceError;
use crate::checkpoint::{SolverAlgorithm, SolverError};
use crate::domain::Street;
use crate::drill::DrillError;
use crate::job::JobError;
use crate::matrix::MatrixError;
use crate::messages::{option_text, push_option};
use crate::multiway::MultiwaySolverError;
use crate::range_report::AggregateError;
use crate::ranges::RangeError;
use crate::report::ReportError;
use crate::spot_job::SpotJobError;
use crate::text::{decimal_text, push_decimal};

verus! {

pub open spec fn street_text(street: Street) -> Seq<char> {
    match street {
        Street::Preflop => "Preflop"@,
        Street::Flop => "Flop"@,
        Street::Turn => "Turn"@,
        Street::River => "River"@,
    }
}

fn street_name(street: Street) -> (name: &'static str)
    ensures
        name@ == street_text(street),
{
    match street {
        Street::Preflop => "Preflop",
        Street::Flop => "Flop",
        Street::Turn => "Turn",
        Street::River => "River",
    }
}

pub open spec fn algorithm_text(algorithm: SolverAlgorithm) -> Seq<char> {
    match algorithm {
        SolverAlgorithm::CfrPlus => "CfrPlus"@,
        SolverAlgorithm::ExternalSamplingMccfr => "ExternalSamplingMccfr"@,
    }
}

fn algorithm_name(algorithm: SolverAlgorithm) -> (name: &'static str)
    ensures
        name@ == algorithm_text(algorithm),
{
    match algorithm {
        SolverAlgorithm::CfrPlus => "CfrPlus",
        SolverAlgorithm::ExternalSamplingMccfr => "ExternalSamplingMccfr",
    }
}

pub open spec fn field_text(field: MetricsField) -> Seq<char> {
    match field {
        MetricsField::TraverserUpdates => "traverser_updates_by_player"@,
        MetricsField::SampledPrivateDeals => "sampled_private_deals_by_player"@,
        MetricsField::PrivateSamplingAttempts => "private_sampling_attempts_by_player"@,
        MetricsField::InfosetVisits => "infoset_visits_by_player"@,
    }
}

fn field_name(field: MetricsField) -> (name: &'static str)
    ensures
        name@ == field_text(field),
{
    match field {
        MetricsField::TraverserUpdates => "traverser_updates_by_player",
        MetricsField::SampledPrivateDeals => "sampled_private_deals_by_player",
        MetricsField::PrivateSamplingAttempts => "private_sampling_attempts_by_player",
        MetricsField::InfosetVisits => "infoset_visits_by_player",
    }
}

impl SizingError {
    pub open spec fn message_text(self) -> Seq<char> {
        match self {
            SizingError::NoActor => "action abstraction requires a current actor"@,
            SizingError::BadFraction => "bet fractions must be finite and positive"@,
            SizingError::BadMultiplier => "raise multipliers must be finite and greater than one"@,
            SizingError::OutsideChipRange => "action target is outside chip range"@,
        }
    }

    /// What went wrong, in words.
    pub fn message(&self) -> (text: String)
        ensures
            text@ == self.message_text(),
    {
        let mut text = String::new();
        match self {
            SizingError::NoActor => {
                text.append("action abstraction requires a current actor");
            },
            SizingError::BadFraction => {
                text.append("bet fractions must be finite and positive");
            },
            SizingError::BadMultiplier => {
                text.append("raise multipliers must be finite and greater than one");
            },
            SizingError::OutsideChipRange => {
                text.append("action target is outside chip range");
            },
        }
        assert(text@ =~= self.message_text());
        text
    }
}

impl ChanceError {
    pub open spec fn message_text(self) -> Seq<char> {
        match self {
            ChanceError::ExplicitLimit { count, limit } => "chance outcome limit exceeded: "@
                + decimal_text(count as nat) + " > "@ + decimal_text(limit as nat),
            ChanceError::Limit { limit } => "chance outcome limit exceeded: "@
                + decimal_text(limit as nat),
            ChanceError::NotConfigured { next_street } => "no chance outcomes configured for transition to "@
                + street_text(next_street),
            ChanceError::Board { error } => error.message_text(),
            ChanceError::UnsupportedWidth { width } => "unsupported chance width: "@
                + decimal_text(width as nat),
            ChanceError::NoOutcomes => "chance node has no outcomes"@,
            ChanceError::BadProbability => "chance probability must be finite and positive"@,
            ChanceError::Cards { error } => error.message_text(),
        }
    }

    /// What went wrong, in words.
    pub fn message(&self) -> (text: String)
        ensures
            text@ == self.message_text(),
    {
        let mut text = String::new();
        match self {
            ChanceError::ExplicitLimit { count, limit } => {
                text.append("chance outcome limit exceeded: ");
                push_decimal(&mut text, *count as u64);
                text.append(" > ");
                push_decimal(&mut text, *limit as u64);
            },
            ChanceError::Limit { limit } => {
                text.append("chance outcome limit exceeded: ");
                push_decimal(&mut text, *limit as u64);
            },
            ChanceError::NotConfigured { next_street } => {
                text.append("no chance outcomes configured for transition to ");
                text.append(street_name(*next_street));
            },
            ChanceError::Board { error } => {
                text.append(error.message().as_str());
            },
            ChanceError::UnsupportedWidth { width } => {
                text.append("unsupported chance width: ");
                push_decimal(&mut text, *width as u64);
            },
            ChanceError::NoOutcomes => {
                text.append("chance node has no outcomes");
            },
            ChanceError::BadProbability => {
                text.append("chance probability must be finite and positive");
            },
            ChanceError::Cards { error } => {
                text.append(error.message().as_str());
            },
        }
        assert(text@ =~= self.message_text());
        text
    }
}

impl AbstractionError {
    pub open spec fn message_text(self) -> Seq<char> {
        match self {
            AbstractionError::TooFewEquityGroups { groups } => "equity_groups must be at least 2, got "@
                + decimal_text(groups as nat),
            AbstractionError::UnknownNode { node } => "unknown source node "@
                + decimal_text(node as nat),
            AbstractionError::LeadsToPreflop { node } => "chance node "@ + decimal_text(node as nat)
                + " leads to preflop"@,
        }
    }

    /// What went wrong, in words.
    pub fn message(&self) -> (text: String)
        ensures
            text@ == self.message_text(),
    {
        let mut text = String::new();
        match self {
            AbstractionError::TooFewEquityGroups { groups } => {
                text.append("equity_groups must be at least 2, got ");
                push_decimal(&mut text, *groups as u64);
            },
            AbstractionError::UnknownNode { node } => {
                text.append("unknown source node ");
                push_decimal(&mut text, *node as u64);
            },
            AbstractionError::LeadsToPreflop { node } => {
                text.append("chance node ");
                push_decimal(&mut text, *node as u64);
                text.append(" leads to preflop");
            },
        }
        assert(text@ =~= self.message_text());
        text
    }
}

impl BlockingError {
    pub open spec fn message_text(self) -> Seq<char> {
        match self {
            BlockingError::NoSamples => "blocking estimate requires positive samples"@,
            BlockingError::Sampler(error) => error.message_text(),
            BlockingError::NoLegalDeal => "blocking estimate could not sample any legal deal"@,
        }
    }

    /// What went wrong, in words.
    pub fn message(&self) -> (text: String)
        ensures
            text@ == self.message_text(),
    {
        let mut text = String::new();
        match self {
            BlockingError::NoSamples => {
                text.append("blocking estimate requires positive samples");
            },
            BlockingError::Sampler(error) => {
                text.append(error.message().as_str());
            },
            BlockingError::NoLegalDeal => {
                text.append("blocking estimate could not sample any legal deal");
            },
        }
        assert(text@ =~= self.message_text());
        text
    }
}

impl RangeError {
    pub open spec fn message_text(self) -> Seq<char> {
        match self {
            RangeError::RangeCount { ranges } => "multiway private deals require 3-8 ranges, got "@
                + decimal_text(ranges as nat),
            RangeError::ZeroMaxDeals => "max_deals must be positive"@,
            RangeError::InvalidWeight { range } => "range "@ + decimal_text(range as nat)
                + " contains an invalid combo weight"@,
            RangeError::NoLegalCombos { range } => "range "@ + decimal_text(range as nat)
                + " has no legal weighted combos"@,
            RangeError::DealLimit { limit } => "multiway private-deal limit exceeded: "@
                + decimal_text(limit as nat),
            RangeError::NoLegalDeals => "ranges have no legal private-card deals"@,
        }
    }

    /// What went wrong between two ranges, in words.
    pub fn message(&self) -> (text: String)
        ensures
            text@ == self.message_text(),
    {
        let mut text = String::new();
        match self {
            RangeError::RangeCount { ranges } => {
                text.append("multiway private deals require 3-8 ranges, got ");
                push_decimal(&mut text, *ranges as u64);
            },
            RangeError::ZeroMaxDeals => {
                text.append("max_deals must be positive");
            },
            RangeError::InvalidWeight { range } => {
                text.append("range ");
                push_decimal(&mut text, *range as u64);
                text.append(" contains an invalid combo weight");
            },
            RangeError::NoLegalCombos { range } => {
                text.append("range ");
                push_decimal(&mut text, *range as u64);
                text.append(" has no legal weighted combos");
            },
            RangeError::DealLimit { limit } => {
                text.append("multiway private-deal limit exceeded: ");
                push_decimal(&mut text, *limit as u64);
            },
            RangeError::NoLegalDeals => {
                text.append("ranges have no legal private-card deals");
            },
        }
        assert(text@ =~= self.message_text());
        text
    }

    pub open spec fn multiway_message_text(self) -> Seq<char> {
        match self {
            RangeError::RangeCount { ranges } => "multiway private deals require 3-8 ranges, got "@
                + decimal_text(ranges as nat),
            RangeError::ZeroMaxDeals => "max_deals must be positive"@,
            RangeError::InvalidWeight { range } => "range "@ + decimal_text(range as nat)
                + " contains an invalid combo weight"@,
            RangeError::NoLegalCombos { range } => "range "@ + decimal_text(range as nat)
                + " has no legal weighted combos"@,
            RangeError::DealLimit { limit } => "multiway private-deal limit exceeded: "@
                + decimal_text(limit as nat),
            RangeError::NoLegalDeals => "ranges have no legal multiway private-card deals"@,
        }
    }

    /// What went wrong between many ranges, in words.
    pub fn multiway_message(&self) -> (text: String)
        ensures
            text@ == self.multiway_message_text(),
    {
        let mut text = String::new();
        match self {
            RangeError::RangeCount { ranges } => {
                text.append("multiway private deals require 3-8 ranges, got ");
                push_decimal(&mut text, *ranges as u64);
            },
            RangeError::ZeroMaxDeals => {
                text.append("max_deals must be positive");
            },
            RangeError::InvalidWeight { range } => {
                text.append("range ");
                push_decimal(&mut text, *range as u64);
                text.append(" contains an invalid combo weight");
            },
            RangeError::NoLegalCombos { range } => {
                text.append("range ");
                push_decimal(&mut text, *range as u64);
                text.append(" has no legal weighted combos");
            },
            RangeError::DealLimit { limit } => {
                text.append("multiway private-deal limit exceeded: ");
                push_decimal(&mut text, *limit as u64);
            },
            RangeError::NoLegalDeals => {
                text.append("ranges have no legal multiway private-card deals");
            },
        }
        assert(text@ =~= self.multiway_message_text());
        text
    }
}

impl SolverError {
    pub open spec fn message_text(self) -> Seq<char> {
        match self {
            SolverError::ActionCountChange { infoset, known, offered } => "information set "@
                + decimal_text(infoset as nat) + " changes action count from "@
                + decimal_text(known as nat) + " to "@ + decimal_text(offered as nat),
            SolverError::UnsupportedVersion { version } => "unsupported checkpoint format version: "@
                + decimal_text(version as nat),
            SolverError::InvalidPlayer { player } => "checkpoint has invalid player "@
                + decimal_text(player as nat),
            SolverError::DuplicateInfoSet { player, infoset } => "checkpoint contains duplicate information set "@
                + decimal_text(player as nat) + ":"@ + decimal_text(infoset as nat),
            SolverError::InvalidActionVectors { player, infoset } => "checkpoint information set "@
                + decimal_text(player as nat) + ":"@ + decimal_text(infoset as nat)
                + " has invalid action vectors"@,
            SolverError::InvalidValues { player, infoset } => "checkpoint information set "@
                + decimal_text(player as nat) + ":"@ + decimal_text(infoset as nat)
                + " has invalid values"@,
            SolverError::UnexpectedRngState => "CFR+ checkpoint cannot contain RNG state"@,
            SolverError::MissingRngState => "MCCFR checkpoint must contain RNG state"@,
            SolverError::ZeroRngState => "MCCFR checkpoint cannot contain zero RNG state"@,
            SolverError::Game { error } => error.message_text(),
            SolverError::AlgorithmMismatch { written_by, resumed_by } => "checkpoint algorithm "@
                + algorithm_text(written_by) + " does not match "@ + algorithm_text(resumed_by),
            SolverError::GameMismatch =>
                "checkpoint game fingerprint does not match the supplied game"@,
            SolverError::ConfigMismatch =>
                "checkpoint config fingerprint does not match the supplied context"@,
            SolverError::DealsMismatch => "checkpoint deals do not match the supplied deals"@,
            SolverError::InconsistentActionCount { player, infoset } => "game information set "@
                + decimal_text(player as nat) + ":"@ + decimal_text(infoset as nat)
                + " changes action count"@,
            SolverError::UnknownInfoSet { player, infoset } => "checkpoint references unknown information set "@
                + decimal_text(player as nat) + ":"@ + decimal_text(infoset as nat),
            SolverError::ActionCountMismatch { player, infoset, found, expected } => "checkpoint information set "@
                + decimal_text(player as nat) + ":"@ + decimal_text(infoset as nat) + " has "@
                + decimal_text(found as nat) + " actions, game has "@
                + decimal_text(expected as nat),
            SolverError::UnknownNode { node } => "unknown game node "@ + decimal_text(node as nat),
            SolverError::NotADecision { node } => "game node "@ + decimal_text(node as nat)
                + " is not a decision"@,
        }
    }

    /// What went wrong with a solver for two players, in words.
    pub fn message(&self) -> (text: String)
        ensures
            text@ == self.message_text(),
    {
        let mut text = String::new();
        match self {
            SolverError::ActionCountChange { infoset, known, offered } => {
                text.append("information set ");
                push_decimal(&mut text, *infoset as u64);
                text.append(" changes action count from ");
                push_decimal(&mut text, *known as u64);
                text.append(" to ");
                push_decimal(&mut text, *offered as u64);
            },
            SolverError::UnsupportedVersion { version } => {
                text.append("unsupported checkpoint format version: ");
                push_decimal(&mut text, *version as u64);
            },
            SolverError::InvalidPlayer { player } => {
                text.append("checkpoint has invalid player ");
                push_decimal(&mut text, *player as u64);
            },
            SolverError::DuplicateInfoSet { player, infoset } => {
                text.append("checkpoint contains duplicate information set ");
                push_decimal(&mut text, *player as u64);
                text.append(":");
                push_decimal(&mut text, *infoset as u64);
            },
            SolverError::InvalidActionVectors { player, infoset } => {
                text.append("checkpoint information set ");
                push_decimal(&mut text, *player as u64);
                text.append(":");
                push_decimal(&mut text, *infoset as u64);
                text.append(" has invalid action vectors");
            },
            SolverError::InvalidValues { player, infoset } => {
                text.append("checkpoint information set ");
                push_decimal(&mut text, *player as u64);
                text.append(":");
                push_decimal(&mut text, *infoset as u64);
                text.append(" has invalid values");
            },
            SolverError::UnexpectedRngState => {
                text.append("CFR+ checkpoint cannot contain RNG state");
            },
            SolverError::MissingRngState => {
                text.append("MCCFR checkpoint must contain RNG state");
            },
            SolverError::ZeroRngState => {
                text.append("MCCFR checkpoint cannot contain zero RNG state");
            },
            SolverError::Game { error } => {
                text.append(error.message().as_str());
            },
            SolverError::AlgorithmMismatch { written_by, resumed_by } => {
                text.append("checkpoint algorithm ");
                text.append(algorithm_name(*written_by));
                text.append(" does not match ");
                text.append(algorithm_name(*resumed_by));
            },
            SolverError::GameMismatch => {
                text.append("checkpoint game fingerprint does not match the supplied game");
            },
            SolverError::ConfigMismatch => {
                text.append("checkpoint config fingerprint does not match the supplied context");
            },
            SolverError::DealsMismatch => {
                text.append("checkpoint deals do not match the supplied deals");
            },
            SolverError::InconsistentActionCount { player, infoset } => {
                text.append("game information set ");
                push_decimal(&mut text, *player as u64);
                text.append(":");
                push_decimal(&mut text, *infoset as u64);
                text.append(" changes action count");
            },
            SolverError::UnknownInfoSet { player, infoset } => {
                text.append("checkpoint references unknown information set ");
                push_decimal(&mut text, *player as u64);
                text.append(":");
                push_decimal(&mut text, *infoset as u64);
            },
            SolverError::ActionCountMismatch { player, infoset, found, expected } => {
                text.append("checkpoint information set ");
                push_decimal(&mut text, *player as u64);
                text.append(":");
                push_decimal(&mut text, *infoset as u64);
                text.append(" has ");
                push_decimal(&mut text, *found as u64);
                text.append(" actions, game has ");
                push_decimal(&mut text, *expected as u64);
            },
            SolverError::UnknownNode { node } => {
                text.append("unknown game node ");
                push_decimal(&mut text, *node as u64);
            },
            SolverError::NotADecision { node } => {
                text.append("game node ");
                push_decimal(&mut text, *node as u64);
                text.append(" is not a decision");
            },
        }
        assert(text@ =~= self.message_text());
        text
    }

    pub open spec fn multiway_message_text(self) -> Seq<char> {
        match self {
            SolverError::ActionCountChange { infoset, known, offered } => "information set "@
                + decimal_text(infoset as nat) + " changes action count from "@
                + decimal_text(known as nat) + " to "@ + decimal_text(offered as nat),
            SolverError::UnsupportedVersion { version } => "unsupported multiway checkpoint format version: "@
                + decimal_text(version as nat),
            SolverError::InvalidPlayer { player } => "multiway checkpoint has invalid player "@
                + decimal_text(player as nat),
            SolverError::DuplicateInfoSet { player, infoset } => "multiway checkpoint contains duplicate information set "@
                + decimal_text(player as nat) + ":"@ + decimal_text(infoset as nat),
            SolverError::InvalidActionVectors { player, infoset } => "multiway checkpoint information set "@
                + decimal_text(player as nat) + ":"@ + decimal_text(infoset as nat)
                + " has invalid action vectors"@,
            SolverError::InvalidValues { player, infoset } => "multiway checkpoint information set "@
                + decimal_text(player as nat) + ":"@ + decimal_text(infoset as nat)
                + " has invalid values"@,
            SolverError::UnexpectedRngState => "CFR+ checkpoint cannot contain RNG state"@,
            SolverError::MissingRngState => "MCCFR checkpoint must contain RNG state"@,
            SolverError::ZeroRngState => "MCCFR checkpoint cannot contain zero RNG state"@,
            SolverError::Game { error } => error.message_text(),
            SolverError::AlgorithmMismatch { written_by, resumed_by } => "checkpoint algorithm "@
                + algorithm_text(written_by) + " does not match "@ + algorithm_text(resumed_by),
            SolverError::GameMismatch =>
                "checkpoint game fingerprint does not match the supplied game"@,
            SolverError::ConfigMismatch =>
                "checkpoint config fingerprint does not match the supplied context"@,
            SolverError::DealsMismatch => "checkpoint deals do not match the supplied deals"@,
            SolverError::InconsistentActionCount { player, infoset } => "information set "@
                + decimal_text(player as nat) + ":"@ + decimal_text(infoset as nat)
                + " changes action count"@,
            SolverError::UnknownInfoSet { player, infoset } => "multiway checkpoint references absent information set "@
                + decimal_text(player as nat) + ":"@ + decimal_text(infoset as nat),
            SolverError::ActionCountMismatch { player, infoset, .. } => "multiway checkpoint action count mismatch for information set "@
                + decimal_text(player as nat) + ":"@ + decimal_text(infoset as nat),
            SolverError::UnknownNode { node } => "unknown multiway node "@
                + decimal_text(node as nat),
            SolverError::NotADecision { node } => "game node "@ + decimal_text(node as nat)
                + " is not a decision"@,
        }
    }

    /// What went wrong with a solver for many players, in words.
    pub fn multiway_message(&self) -> (text: String)
        ensures
            text@ == self.multiway_message_text(),
    {
        let mut text = String::new();
        match self {
            SolverError::ActionCountChange { infoset, known, offered } => {
                text.append("information set ");
                push_decimal(&mut text, *infoset as u64);
                text.append(" changes action count from ");
                push_decimal(&mut text, *known as u64);
                text.append(" to ");
                push_decimal(&mut text, *offered as u64);
            },
            SolverError::UnsupportedVersion { version } => {
                text.append("unsupported multiway checkpoint format version: ");
                push_decimal(&mut text, *version as u64);
            },
            SolverError::InvalidPlayer { player } => {
                text.append("multiway checkpoint has invalid player ");
                push_decimal(&mut text, *player as u64);
            },
            SolverError::DuplicateInfoSet { player, infoset } => {
                text.append("multiway checkpoint contains duplicate information set ");
                push_decimal(&mut text, *player as u64);
                text.append(":");
                push_decimal(&mut text, *infoset as u64);
            },
            SolverError::InvalidActionVectors { player, infoset } => {
                text.append("multiway checkpoint information set ");
                push_decimal(&mut text, *player as u64);
                text.append(":");
                push_decimal(&mut text, *infoset as u64);
                text.append(" has invalid action vectors");
            },
            SolverError::InvalidValues { player, infoset } => {
                text.append("multiway checkpoint information set ");
                push_decimal(&mut text, *player as u64);
                text.append(":");
                push_decimal(&mut text, *infoset as u64);
                text.append(" has invalid values");
            },
            SolverError::UnexpectedRngState => {
                text.append("CFR+ checkpoint cannot contain RNG state");
            },
            SolverError::MissingRngState => {
                text.append("MCCFR checkpoint must contain RNG state");
            },
            SolverError::ZeroRngState => {
                text.append("MCCFR checkpoint cannot contain zero RNG state");
            },
            SolverError::Game { error } => {
                text.append(error.message().as_str());
            },
            SolverError::AlgorithmMismatch { written_by, resumed_by } => {
                text.append("checkpoint algorithm ");
                text.append(algorithm_name(*written_by));
                text.append(" does not match ");
                text.append(algorithm_name(*resumed_by));
            },
            SolverError::GameMismatch => {
                text.append("checkpoint game fingerprint does not match the supplied game");
            },
            SolverError::ConfigMismatch => {
                text.append("checkpoint config fingerprint does not match the supplied context");
            },
            SolverError::DealsMismatch => {
                text.append("checkpoint deals do not match the supplied deals");
            },
            SolverError::InconsistentActionCount { player, infoset } => {
                text.append("information set ");
                push_decimal(&mut text, *player as u64);
                text.append(":");
                push_decimal(&mut text, *infoset as u64);
                text.append(" changes action count");
            },
            SolverError::UnknownInfoSet { player, infoset } => {
                text.append("multiway checkpoint references absent information set ");
                push_decimal(&mut text, *player as u64);
                text.append(":");
                push_decimal(&mut text, *infoset as u64);
            },
            SolverError::ActionCountMismatch { player, infoset, .. } => {
                text.append("multiway checkpoint action count mismatch for information set ");
                push_decimal(&mut text, *player as u64);
                text.append(":");
                push_decimal(&mut text, *infoset as u64);
            },
            SolverError::UnknownNode { node } => {
                text.append("unknown multiway node ");
                push_decimal(&mut text, *node as u64);
            },
            SolverError::NotADecision { node } => {
                text.append("game node ");
                push_decimal(&mut text, *node as u64);
                text.append(" is not a decision");
            },
        }
        assert(text@ =~= self.multiway_message_text());
        text
    }
}

impl MultiwaySolverError {
    pub open spec fn message_text(self) -> Seq<char> {
        match self {
            MultiwaySolverError::UnsupportedVersion { version } => "unsupported multiway checkpoint format version: "@
                + decimal_text(version as nat),
            MultiwaySolverError::TooFewPlayers =>
                "multiway checkpoint must contain at least three players"@,
            MultiwaySolverError::MissingRngState =>
                "multiway MCCFR checkpoint is missing RNG state"@,
            MultiwaySolverError::InfoSets(error) => error.multiway_message_text(),
            MultiwaySolverError::Game(error) => error.message_text(),
            MultiwaySolverError::PlayerCountMismatch { written_for, players } => "multiway checkpoint player count "@
                + decimal_text(written_for as nat) + " does not match game "@
                + decimal_text(players as nat),
            MultiwaySolverError::GameMismatch =>
                "multiway checkpoint game fingerprint does not match game"@,
            MultiwaySolverError::ConfigMismatch =>
                "multiway checkpoint config fingerprint does not match"@,
        }
    }

    /// What went wrong, in words.
    pub fn message(&self) -> (text: String)
        ensures
            text@ == self.message_text(),
    {
        let mut text = String::new();
        match self {
            MultiwaySolverError::UnsupportedVersion { version } => {
                text.append("unsupported multiway checkpoint format version: ");
                push_decimal(&mut text, *version as u64);
            },
            MultiwaySolverError::TooFewPlayers => {
                text.append("multiway checkpoint must contain at least three players");
            },
            MultiwaySolverError::MissingRngState => {
                text.append("multiway MCCFR checkpoint is missing RNG state");
            },
            MultiwaySolverError::InfoSets(error) => {
                text.append(error.multiway_message().as_str());
            },
            MultiwaySolverError::Game(error) => {
                text.append(error.message().as_str());
            },
            MultiwaySolverError::PlayerCountMismatch { written_for, players } => {
                text.append("multiway checkpoint player count ");
                push_decimal(&mut text, *written_for as u64);
                text.append(" does not match game ");
                push_decimal(&mut text, *players as u64);
            },
            MultiwaySolverError::GameMismatch => {
                text.append("multiway checkpoint game fingerprint does not match game");
            },
            MultiwaySolverError::ConfigMismatch => {
                text.append("multiway checkpoint config fingerprint does not match");
            },
        }
        assert(text@ =~= self.message_text());
        text
    }
}

impl MetricsError {
    pub open spec fn message_text(self) -> Seq<char> {
        "multiway batch metrics field "@ + field_text(self.field) + " has "@ + decimal_text(
            self.players as nat,
        ) + " players, expected "@ + decimal_text(self.expected as nat)
    }

    /// What went wrong, in words.
    pub fn message(&self) -> (text: String)
        ensures
            text@ == self.message_text(),
    {
        let mut text = String::new();
        text.append("multiway batch metrics field ");
        text.append(field_name(self.field));
        text.append(" has ");
        push_decimal(&mut text, self.players as u64);
        text.append(" players, expected ");
        push_decimal(&mut text, self.expected as u64);
        assert(text@ =~= self.message_text());
        text
    }
}

impl BatchCheckpointError {
    pub open spec fn message_text(self) -> Seq<char> {
        match self {
            BatchCheckpointError::UnsupportedVersion { version } => "unsupported multiway batch checkpoint format version: "@
                + decimal_text(version as nat),
            BatchCheckpointError::PlayerCount { .. } =>
                "multiway batch checkpoint player count must be 3-8"@,
            BatchCheckpointError::ZeroAttemptLimit =>
                "multiway batch checkpoint has zero private-attempt limit"@,
            BatchCheckpointError::Metrics(error) => error.message_text(),
            BatchCheckpointError::ZeroRngState =>
                "multiway batch checkpoint contains zero RNG state"@,
            BatchCheckpointError::InvalidPlayer { player } => "multiway batch checkpoint has invalid player "@
                + decimal_text(player as nat),
            BatchCheckpointError::InvalidActionVectors { player, public_node } => "multiway batch checkpoint information set "@
                + decimal_text(player as nat) + ":"@ + decimal_text(public_node as nat)
                + " has invalid action vectors"@,
            BatchCheckpointError::DuplicateInfoSet =>
                "multiway batch checkpoint contains duplicate information set"@,
            BatchCheckpointError::InvalidValues =>
                "multiway batch checkpoint contains non-finite strategy data"@,
        }
    }

    /// What went wrong, in words.
    pub fn message(&self) -> (text: String)
        ensures
            text@ == self.message_text(),
    {
        let mut text = String::new();
        match self {
            BatchCheckpointError::UnsupportedVersion { version } => {
                text.append("unsupported multiway batch checkpoint format version: ");
                push_decimal(&mut text, *version as u64);
            },
            BatchCheckpointError::PlayerCount { .. } => {
                text.append("multiway batch checkpoint player count must be 3-8");
            },
            BatchCheckpointError::ZeroAttemptLimit => {
                text.append("multiway batch checkpoint has zero private-attempt limit");
            },
            BatchCheckpointError::Metrics(error) => {
                text.append(error.message().as_str());
            },
            BatchCheckpointError::ZeroRngState => {
                text.append("multiway batch checkpoint contains zero RNG state");
            },
            BatchCheckpointError::InvalidPlayer { player } => {
                text.append("multiway batch checkpoint has invalid player ");
                push_decimal(&mut text, *player as u64);
            },
            BatchCheckpointError::InvalidActionVectors { player, public_node } => {
                text.append("multiway batch checkpoint information set ");
                push_decimal(&mut text, *player as u64);
                text.append(":");
                push_decimal(&mut text, *public_node as u64);
                text.append(" has invalid action vectors");
            },
            BatchCheckpointError::DuplicateInfoSet => {
                text.append("multiway batch checkpoint contains duplicate information set");
            },
            BatchCheckpointError::InvalidValues => {
                text.append("multiway batch checkpoint contains non-finite strategy data");
            },
        }
        assert(text@ =~= self.message_text());
        text
    }
}

impl BatchError {
    pub open spec fn message_text(self) -> Seq<char> {
        match self {
            BatchError::Arena(error) => error.message_text(),
            BatchError::ZeroAttempts => "max_private_attempts must be positive"@,
            BatchError::RangeCount { ranges, seats } => "batch solver requires 3-8 ranges matching table size "@
                + decimal_text(seats as nat) + ", got "@ + decimal_text(ranges as nat),
            BatchError::Sampler(error) => error.message_text(),
            BatchError::Checkpoint(error) => error.message_text(),
            BatchError::ContextMismatch =>
                "multiway batch checkpoint context does not match solver"@,
            BatchError::Metrics(error) => error.message_text(),
            BatchError::InvalidHand { entry } => "multiway batch checkpoint entry "@
                + decimal_text(entry as nat) + " has invalid private cards"@,
            BatchError::NotADecision { node } => "public node "@ + decimal_text(node as nat)
                + " is not a decision"@,
            BatchError::ActionCountChange { player, node } => "public batch information set "@
                + decimal_text(player as nat) + ":"@ + decimal_text(node as nat)
                + " changes action count"@,
            BatchError::NoMetadata { node } => "decision node "@ + decimal_text(node as nat)
                + " has no public node metadata"@,
        }
    }

    /// What went wrong, in words.
    pub fn message(&self) -> (text: String)
        ensures
            text@ == self.message_text(),
    {
        let mut text = String::new();
        match self {
            BatchError::Arena(error) => {
                text.append(error.message().as_str());
            },
            BatchError::ZeroAttempts => {
                text.append("max_private_attempts must be positive");
            },
            BatchError::RangeCount { ranges, seats } => {
                text.append("batch solver requires 3-8 ranges matching table size ");
                push_decimal(&mut text, *seats as u64);
                text.append(", got ");
                push_decimal(&mut text, *ranges as u64);
            },
            BatchError::Sampler(error) => {
                text.append(error.message().as_str());
            },
            BatchError::Checkpoint(error) => {
                text.append(error.message().as_str());
            },
            BatchError::ContextMismatch => {
                text.append("multiway batch checkpoint context does not match solver");
            },
            BatchError::Metrics(error) => {
                text.append(error.message().as_str());
            },
            BatchError::InvalidHand { entry } => {
                text.append("multiway batch checkpoint entry ");
                push_decimal(&mut text, *entry as u64);
                text.append(" has invalid private cards");
            },
            BatchError::NotADecision { node } => {
                text.append("public node ");
                push_decimal(&mut text, *node as u64);
                text.append(" is not a decision");
            },
            BatchError::ActionCountChange { player, node } => {
                text.append("public batch information set ");
                push_decimal(&mut text, *player as u64);
                text.append(":");
                push_decimal(&mut text, *node as u64);
                text.append(" changes action count");
            },
            BatchError::NoMetadata { node } => {
                text.append("decision node ");
                push_decimal(&mut text, *node as u64);
                text.append(" has no public node metadata");
            },
        }
        assert(text@ =~= self.message_text());
        text
    }
}

impl JobError {
    pub open spec fn message_text(self) -> Seq<char> {
        match self {
            JobError::ZeroTargetIterations => "multiway job target_iterations must be positive"@,
            JobError::ZeroWorkerCount => "multiway job worker_count must be positive"@,
            JobError::ZeroReductionBatchSize =>
                "multiway job reduction_batch_size must be positive"@,
            JobError::ZeroCheckpointInterval =>
                "multiway job checkpoint_interval must be positive"@,
            JobError::ZeroMaxPrivateAttempts =>
                "multiway job max_private_attempts must be positive"@,
            JobError::ZeroKeepCheckpoints => "multiway job keep_checkpoints must be positive"@,
            JobError::UnsupportedVersion { version } => "unsupported multiway batch job format version: "@
                + decimal_text(version as nat),
            JobError::EmptyJobId => "multiway batch job id cannot be empty"@,
            JobError::PlayerCount { .. } => "multiway batch job player count must be 3-8"@,
            JobError::PastTarget => "multiway batch job completed iterations exceed target"@,
            JobError::NoCheckpoint => "multiway batch job has no latest checkpoint"@,
            JobError::IterationMismatch =>
                "latest checkpoint iteration does not match multiway job manifest"@,
            JobError::SolverPastTarget => "solver is already past the multiway job target"@,
            JobError::AttemptLimitMismatch =>
                "solver max_private_attempts does not match multiway job config"@,
            JobError::Checkpoint(error) => error.message_text(),
            JobError::OtherJob => "multiway job id does not match existing manifest"@,
            JobError::ConfigMismatch => "multiway job config does not match existing manifest "@
                + "(only target_iterations may change on resume)"@,
            JobError::SolverIterationMismatch =>
                "solver iteration count does not match existing multiway job checkpoint"@,
            JobError::ContextMismatch =>
                "solver context does not match existing multiway job manifest"@,
            JobError::SequenceOverflow => "multiway job checkpoint sequence overflowed"@,
        }
    }

    /// What went wrong, in words.
    pub fn message(&self) -> (text: String)
        ensures
            text@ == self.message_text(),
    {
        let mut text = String::new();
        match self {
            JobError::ZeroTargetIterations => {
                text.append("multiway job target_iterations must be positive");
            },
            JobError::ZeroWorkerCount => {
                text.append("multiway job worker_count must be positive");
            },
            JobError::ZeroReductionBatchSize => {
                text.append("multiway job reduction_batch_size must be positive");
            },
            JobError::ZeroCheckpointInterval => {
                text.append("multiway job checkpoint_interval must be positive");
            },
            JobError::ZeroMaxPrivateAttempts => {
                text.append("multiway job max_private_attempts must be positive");
            },
            JobError::ZeroKeepCheckpoints => {
                text.append("multiway job keep_checkpoints must be positive");
            },
            JobError::UnsupportedVersion { version } => {
                text.append("unsupported multiway batch job format version: ");
                push_decimal(&mut text, *version as u64);
            },
            JobError::EmptyJobId => {
                text.append("multiway batch job id cannot be empty");
            },
            JobError::PlayerCount { .. } => {
                text.append("multiway batch job player count must be 3-8");
            },
            JobError::PastTarget => {
                text.append("multiway batch job completed iterations exceed target");
            },
            JobError::NoCheckpoint => {
                text.append("multiway batch job has no latest checkpoint");
            },
            JobError::IterationMismatch => {
                text.append("latest checkpoint iteration does not match multiway job manifest");
            },
            JobError::SolverPastTarget => {
                text.append("solver is already past the multiway job target");
            },
            JobError::AttemptLimitMismatch => {
                text.append("solver max_private_attempts does not match multiway job config");
            },
            JobError::Checkpoint(error) => {
                text.append(error.message().as_str());
            },
            JobError::OtherJob => {
                text.append("multiway job id does not match existing manifest");
            },
            JobError::ConfigMismatch => {
                text.append("multiway job config does not match existing manifest ");
                text.append("(only target_iterations may change on resume)");
            },
            JobError::SolverIterationMismatch => {
                text.append("solver iteration count does not match existing multiway job checkpoint");
            },
            JobError::ContextMismatch => {
                text.append("solver context does not match existing multiway job manifest");
            },
            JobError::SequenceOverflow => {
                text.append("multiway job checkpoint sequence overflowed");
            },
        }
        assert(text@ =~= self.message_text());
        text
    }
}

impl DrillError {
    pub open spec fn message_text(self) -> Seq<char> {
        match self {
            DrillError::ZeroHands => "drill hands must be positive"@,
            DrillError::ZeroEvSamples => "drill ev_samples must be positive"@,
            DrillError::NoActions => "drill root has no actions"@,
            DrillError::NoHeroRange => "drill hero range is missing"@,
            DrillError::NoLegalHands => "drill hero has no legal weighted hands"@,
            DrillError::InvalidTotalWeight => "drill hero hands have invalid total weight"@,
            DrillError::UnknownAction { index, actions } => "drill responder returned action index "@
                + decimal_text(index as nat) + ", expected 0.."@ + decimal_text(actions as nat),
        }
    }

    /// What went wrong, in words.
    pub fn message(&self) -> (text: String)
        ensures
            text@ == self.message_text(),
    {
        let mut text = String::new();
        match self {
            DrillError::ZeroHands => {
                text.append("drill hands must be positive");
            },
            DrillError::ZeroEvSamples => {
                text.append("drill ev_samples must be positive");
            },
            DrillError::NoActions => {
                text.append("drill root has no actions");
            },
            DrillError::NoHeroRange => {
                text.append("drill hero range is missing");
            },
            DrillError::NoLegalHands => {
                text.append("drill hero has no legal weighted hands");
            },
            DrillError::InvalidTotalWeight => {
                text.append("drill hero hands have invalid total weight");
            },
            DrillError::UnknownAction { index, actions } => {
                text.append("drill responder returned action index ");
                push_decimal(&mut text, *index as u64);
                text.append(", expected 0..");
                push_decimal(&mut text, *actions as u64);
            },
        }
        assert(text@ =~= self.message_text());
        text
    }
}

impl MatrixError {
    pub open spec fn message_text(self) -> Seq<char> {
        match self {
            MatrixError::UnknownClass { class_id } => "class id "@ + decimal_text(class_id as nat)
                + " is not a canonical 13x13 Hold'em class"@,
            MatrixError::DuplicateClass { class_id, player, public_node } => "duplicate class "@
                + decimal_text(class_id as nat) + " at player "@ + decimal_text(player as nat)
                + " node "@ + option_text(public_node),
        }
    }

    /// What went wrong, in words.
    pub fn message(&self) -> (text: String)
        ensures
            text@ == self.message_text(),
    {
        let mut text = String::new();
        match self {
            MatrixError::UnknownClass { class_id } => {
                text.append("class id ");
                push_decimal(&mut text, *class_id as u64);
                text.append(" is not a canonical 13x13 Hold'em class");
            },
            MatrixError::DuplicateClass { class_id, player, public_node } => {
                text.append("duplicate class ");
                push_decimal(&mut text, *class_id as u64);
                text.append(" at player ");
                push_decimal(&mut text, *player as u64);
                text.append(" node ");
                push_option(&mut text, *public_node);
            },
        }
        assert(text@ =~= self.message_text());
        text
    }
}

impl AggregateError {
    pub open spec fn message_text(self) -> Seq<char> {
        match self {
            AggregateError::NoDeals => "private deal list cannot be empty"@,
            AggregateError::InvalidProbability =>
                "private deal probability must be finite and positive"@,
            AggregateError::DuplicateCards => "private hands contain duplicate cards"@,
            AggregateError::NoPrivateHand =>
                "range aggregation requires a private-card-conditioned strategy report"@,
            AggregateError::DuplicateInfoSet { player, infoset } => "strategy report contains duplicate information set "@
                + decimal_text(player as nat) + ":"@ + decimal_text(infoset as nat),
            AggregateError::AbsentHand { player } => "a private hand for player "@
                + decimal_text(player as nat) + " is absent from supplied deals"@,
            AggregateError::InconsistentActions { player, public_node } => "class bucket at player "@
                + decimal_text(player as nat) + " node "@ + option_text(public_node)
                + " has inconsistent actions"@,
            AggregateError::DuplicateCombo { player, public_node } => "duplicate exact combo in class bucket at player "@
                + decimal_text(player as nat) + " node "@ + option_text(public_node),
            AggregateError::InvalidFrequency { player, infoset } => "invalid action frequency in information set "@
                + decimal_text(player as nat) + ":"@ + decimal_text(infoset as nat),
        }
    }

    /// What went wrong, in words.
    pub fn message(&self) -> (text: String)
        ensures
            text@ == self.message_text(),
    {
        let mut text = String::new();
        match self {
            AggregateError::NoDeals => {
                text.append("private deal list cannot be empty");
            },
            AggregateError::InvalidProbability => {
                text.append("private deal probability must be finite and positive");
            },
            AggregateError::DuplicateCards => {
                text.append("private hands contain duplicate cards");
            },
            AggregateError::NoPrivateHand => {
                text.append("range aggregation requires a private-card-conditioned strategy report");
            },
            AggregateError::DuplicateInfoSet { player, infoset } => {
                text.append("strategy report contains duplicate information set ");
                push_decimal(&mut text, *player as u64);
                text.append(":");
                push_decimal(&mut text, *infoset as u64);
            },
            AggregateError::AbsentHand { player } => {
                text.append("a private hand for player ");
                push_decimal(&mut text, *player as u64);
                text.append(" is absent from supplied deals");
            },
            AggregateError::InconsistentActions { player, public_node } => {
                text.append("class bucket at player ");
                push_decimal(&mut text, *player as u64);
                text.append(" node ");
                push_option(&mut text, *public_node);
                text.append(" has inconsistent actions");
            },
            AggregateError::DuplicateCombo { player, public_node } => {
                text.append("duplicate exact combo in class bucket at player ");
                push_decimal(&mut text, *player as u64);
                text.append(" node ");
                push_option(&mut text, *public_node);
            },
            AggregateError::InvalidFrequency { player, infoset } => {
                text.append("invalid action frequency in information set ");
                push_decimal(&mut text, *player as u64);
                text.append(":");
                push_decimal(&mut text, *infoset as u64);
            },
        }
        assert(text@ =~= self.message_text());
        text
    }
}

impl ReportError {
    pub open spec fn message_text(self) -> Seq<char> {
        match self {
            ReportError::Checkpoint(error) => error.message_text(),
            ReportError::GameMismatch =>
                "checkpoint game fingerprint does not match compiled game"@,
            ReportError::MissingActions { node } => "missing action metadata for solver node "@
                + decimal_text(node as nat),
            ReportError::NoActions { player, infoset } => "information set "@
                + decimal_text(player as nat) + ":"@ + decimal_text(infoset as nat)
                + " has no actions"@,
            ReportError::InconsistentActions { player, infoset } => "information set "@
                + decimal_text(player as nat) + ":"@ + decimal_text(infoset as nat)
                + " has inconsistent action metadata"@,
            ReportError::InconsistentMetadata { player, infoset } => "information set "@
                + decimal_text(player as nat) + ":"@ + decimal_text(infoset as nat)
                + " has inconsistent private/public metadata"@,
            ReportError::UnknownInfoSet { player, infoset } => "checkpoint references information set "@
                + decimal_text(player as nat) + ":"@ + decimal_text(infoset as nat)
                + " absent from compiled game"@,
            ReportError::ActionCountMismatch { player, infoset } => "checkpoint action count mismatch for information set "@
                + decimal_text(player as nat) + ":"@ + decimal_text(infoset as nat),
        }
    }

    /// What went wrong, in words.
    pub fn message(&self) -> (text: String)
        ensures
            text@ == self.message_text(),
    {
        let mut text = String::new();
        match self {
            ReportError::Checkpoint(error) => {
                text.append(error.message().as_str());
            },
            ReportError::GameMismatch => {
                text.append("checkpoint game fingerprint does not match compiled game");
            },
            ReportError::MissingActions { node } => {
                text.append("missing action metadata for solver node ");
                push_decimal(&mut text, *node as u64);
            },
            ReportError::NoActions { player, infoset } => {
                text.append("information set ");
                push_decimal(&mut text, *player as u64);
                text.append(":");
                push_decimal(&mut text, *infoset as u64);
                text.append(" has no actions");
            },
            ReportError::InconsistentActions { player, infoset } => {
                text.append("information set ");
                push_decimal(&mut text, *player as u64);
                text.append(":");
                push_decimal(&mut text, *infoset as u64);
                text.append(" has inconsistent action metadata");
            },
            ReportError::InconsistentMetadata { player, infoset } => {
                text.append("information set ");
                push_decimal(&mut text, *player as u64);
                text.append(":");
                push_decimal(&mut text, *infoset as u64);
                text.append(" has inconsistent private/public metadata");
            },
            ReportError::UnknownInfoSet { player, infoset } => {
                text.append("checkpoint references information set ");
                push_decimal(&mut text, *player as u64);
                text.append(":");
                push_decimal(&mut text, *infoset as u64);
                text.append(" absent from compiled game");
            },
            ReportError::ActionCountMismatch { player, infoset } => {
                text.append("checkpoint action count mismatch for information set ");
                push_decimal(&mut text, *player as u64);
                text.append(":");
                push_decimal(&mut text, *infoset as u64);
            },
        }
        assert(text@ =~= self.message_text());
        text
    }
}

impl BatchReportError {
    pub open spec fn message_text(self) -> Seq<char> {
        match self {
            BatchReportError::UnknownNode { node } => "unknown public node "@
                + decimal_text(node as nat),
            BatchReportError::MissingAction { node } => "public node "@ + decimal_text(node as nat)
                + " has a child without an incoming action"@,
            BatchReportError::ActionCountMismatch { player, node } => "strategy report action count mismatch at player "@
                + decimal_text(player as nat) + " node "@ + decimal_text(node as nat),
        }
    }

    /// What went wrong, in words.
    pub fn message(&self) -> (text: String)
        ensures
            text@ == self.message_text(),
    {
        let mut text = String::new();
        match self {
            BatchReportError::UnknownNode { node } => {
                text.append("unknown public node ");
                push_decimal(&mut text, *node as u64);
            },
            BatchReportError::MissingAction { node } => {
                text.append("public node ");
                push_decimal(&mut text, *node as u64);
                text.append(" has a child without an incoming action");
            },
            BatchReportError::ActionCountMismatch { player, node } => {
                text.append("strategy report action count mismatch at player ");
                push_decimal(&mut text, *player as u64);
                text.append(" node ");
                push_decimal(&mut text, *node as u64);
            },
        }
        assert(text@ =~= self.message_text());
        text
    }
}

impl SpotJobError {
    pub open spec fn message_text(self) -> Seq<char> {
        match self {
            SpotJobError::UnsupportedSchema { version } => "unsupported multiway Hold'em spot schema version: "@
                + decimal_text(version as nat),
            SpotJobError::InvalidTable => "the table of the spot is invalid"@,
            SpotJobError::BadClassWeight { index } => "range class weight "@
                + decimal_text(index as nat) + " must be finite and non-negative"@,
            SpotJobError::DuplicateClassWeight { index } => "range contains duplicate class weight "@
                + decimal_text(index as nat),
            SpotJobError::NoPositiveWeight => "range has no positive-weight combos"@,
            SpotJobError::Spot(error) => error.message_text(),
        }
    }

    /// What went wrong, in words.
    pub fn message(&self) -> (text: String)
        ensures
            text@ == self.message_text(),
    {
        let mut text = String::new();
        match self {
            SpotJobError::UnsupportedSchema { version } => {
                text.append("unsupported multiway Hold'em spot schema version: ");
                push_decimal(&mut text, *version as u64);
            },
            SpotJobError::InvalidTable => {
                text.append("the table of the spot is invalid");
            },
            SpotJobError::BadClassWeight { index } => {
                text.append("range class weight ");
                push_decimal(&mut text, *index as u64);
                text.append(" must be finite and non-negative");
            },
            SpotJobError::DuplicateClassWeight { index } => {
                text.append("range contains duplicate class weight ");
                push_decimal(&mut text, *index as u64);
            },
            SpotJobError::NoPositiveWeight => {
                text.append("range has no positive-weight combos");
            },
            SpotJobError::Spot(error) => {
                text.append(error.message().as_str());
            },
        }
        assert(text@ =~= self.message_text());
        text
    }
}

} // verus!
