//! Job descriptions of spots.
//!
//! Cards, ranges and hands come as texts; the caller reads them and hands over
//! what they hold. What is checked and filled in beside that is done here.
use vstd::prelude::*;

use crate::action_abstraction::{ActionAbstraction, StreetSizing};
use crate::bits::{
    above_zero, below_zero, finite, is_above_zero, is_below_zero, is_finite, ONE_BITS,
};
use crate::cards::{Combo, DeckMask};
use crate::chance::ChanceConfig;
use crate::domain::{Action, ActionSizes, AnteMode, Chips, PlayerId};
use crate::ranges::{WeightedCombo, WeightedRange};
use crate::spot::{
    spot_error, MultiwayHoldemSpotAction, MultiwayHoldemSpotConfig, MultiwayHoldemSpotTreeConfig,
    SpotError, TableConfig,
};
use crate::text::{word_count, words};
use crate::tree::ChanceOutcome;
use crate::tree_builder::{FullTreeBuildConfig, TreeBuildConfig};

verus! {

pub const MULTIWAY_HOLDEM_SPOT_SCHEMA_VERSION: u32 = 1;

pub fn default_max_nodes() -> (value: usize)
    ensures
        value == 100_000,
{
    100_000
}

pub fn default_max_depth() -> (value: usize)
    ensures
        value == 128,
{
    128
}

pub fn default_max_outcomes() -> (value: usize)
    ensures
        value == 10_000,
{
    10_000
}

pub fn default_max_private_attempts() -> (value: usize)
    ensures
        value == 10_000,
{
    10_000
}

pub fn default_worker_count() -> (value: usize)
    ensures
        value == 1,
{
    1
}

pub fn default_reduction_batch_size() -> (value: usize)
    ensures
        value == 1,
{
    1
}

pub fn default_checkpoint_interval() -> (value: u64)
    ensures
        value == 1_000,
{
    1_000
}

pub fn default_keep_checkpoints() -> (value: usize)
    ensures
        value == 5,
{
    5
}

#[derive(Debug, Clone, Copy, PartialEq, Eq, Structural)]
pub enum SpotJobError {
    UnsupportedSchema { version: u32 },
    InvalidTable,
    BadClassWeight { index: usize },
    DuplicateClassWeight { index: usize },
    NoPositiveWeight,
    Spot(SpotError),
}

#[derive(Debug, Clone, Copy, PartialEq, Eq, Structural)]
pub enum MultiwayHoldemSpotAnteModeJson {
    NoAnte,
    Uniform,
    BigBlind,
}

impl Default for MultiwayHoldemSpotAnteModeJson {
    fn default() -> (mode: Self)
        ensures
            mode == MultiwayHoldemSpotAnteModeJson::NoAnte,
    {
        MultiwayHoldemSpotAnteModeJson::NoAnte
    }
}

impl MultiwayHoldemSpotAnteModeJson {
    pub open spec fn spec_domain(self) -> AnteMode {
        match self {
            MultiwayHoldemSpotAnteModeJson::NoAnte => AnteMode::NoAnte,
            MultiwayHoldemSpotAnteModeJson::Uniform => AnteMode::Uniform,
            MultiwayHoldemSpotAnteModeJson::BigBlind => AnteMode::BigBlind,
        }
    }

    pub fn to_domain(self) -> (mode: AnteMode)
        ensures
            mode == self.spec_domain(),
    {
        match self {
            MultiwayHoldemSpotAnteModeJson::NoAnte => AnteMode::NoAnte,
            MultiwayHoldemSpotAnteModeJson::Uniform => AnteMode::Uniform,
            MultiwayHoldemSpotAnteModeJson::BigBlind => AnteMode::BigBlind,
        }
    }
}

#[derive(Debug, Clone)]
pub struct MultiwayHoldemSpotTableJson {
    pub table_size: usize,
    pub button: usize,
    pub small_blind: Chips,
    pub big_blind: Chips,
    pub ante: Chips,
    pub ante_mode: MultiwayHoldemSpotAnteModeJson,
    pub stacks: Vec<Chips>,
    pub dead_money: Chips,
}

impl MultiwayHoldemSpotTableJson {
    pub fn into_table(self) -> (table: TableConfig)
        ensures
            table.table_size == self.table_size,
            table.button == self.button,
            table.small_blind == self.small_blind,
            table.big_blind == self.big_blind,
            table.ante == self.ante,
            table.ante_mode == self.ante_mode.spec_domain(),
            table.stacks == self.stacks,
            table.dead_money == self.dead_money,
    {
        TableConfig {
            table_size: self.table_size,
            button: self.button,
            small_blind: self.small_blind,
            big_blind: self.big_blind,
            ante: self.ante,
            ante_mode: self.ante_mode.to_domain(),
            stacks: self.stacks,
            dead_money: self.dead_money,
        }
    }
}

#[derive(Debug, Clone, Copy, PartialEq, Eq, Structural)]
pub enum MultiwayHoldemSpotActionKindJson {
    Fold,
    Check,
    Call,
    Bet { to: u64 },
    Raise { to: u64 },
    AllIn,
}

#[derive(Debug, Clone, Copy, PartialEq, Eq, Structural)]
pub struct MultiwayHoldemSpotActionJson {
    pub player: PlayerId,
    pub action: MultiwayHoldemSpotActionKindJson,
}

impl MultiwayHoldemSpotActionKindJson {
    pub open spec fn spec_action(self) -> Action {
        match self {
            MultiwayHoldemSpotActionKindJson::Fold => Action::Fold,
            MultiwayHoldemSpotActionKindJson::Check => Action::Check,
            MultiwayHoldemSpotActionKindJson::Call => Action::Call,
            MultiwayHoldemSpotActionKindJson::Bet { to } => Action::Bet { to },
            MultiwayHoldemSpotActionKindJson::Raise { to } => Action::Raise { to },
            MultiwayHoldemSpotActionKindJson::AllIn => Action::AllIn,
        }
    }

    pub fn to_action(&self) -> (action: Action)
        ensures
            action == self.spec_action(),
    {
        match *self {
            MultiwayHoldemSpotActionKindJson::Fold => Action::Fold,
            MultiwayHoldemSpotActionKindJson::Check => Action::Check,
            MultiwayHoldemSpotActionKindJson::Call => Action::Call,
            MultiwayHoldemSpotActionKindJson::Bet { to } => Action::Bet { to },
            MultiwayHoldemSpotActionKindJson::Raise { to } => Action::Raise { to },
            MultiwayHoldemSpotActionKindJson::AllIn => Action::AllIn,
        }
    }
}

/// The actions of a history.
pub open spec fn history_of(entries: Seq<MultiwayHoldemSpotActionJson>) -> Seq<
    MultiwayHoldemSpotAction,
> {
    entries.map_values(
        |entry: MultiwayHoldemSpotActionJson|
            MultiwayHoldemSpotAction { player: entry.player, action: entry.action.spec_action() },
    )
}

pub fn read_history(entries: &Vec<MultiwayHoldemSpotActionJson>) -> (history: Vec<
    MultiwayHoldemSpotAction,
>)
    ensures
        history@ == history_of(entries@),
{
    let mut history: Vec<MultiwayHoldemSpotAction> = Vec::new();
    let mut index: usize = 0;
    while index < entries.len()
        invariant
            index <= entries@.len(),
            history@.len() == index,
            forall|i: int| 0 <= i < index ==> history@[i] == history_of(entries@)[i],
        decreases entries.len() - index,
    {
        let entry = entries[index];
        history.push(
            MultiwayHoldemSpotAction { player: entry.player, action: entry.action.to_action() },
        );
        index = index + 1;
    }
    assert(history@ =~= history_of(entries@));
    history
}

/// The weight of a hand class, as bits.
#[derive(Debug, Clone)]
pub struct MultiwayHoldemSpotClassWeightJson {
    pub hand: String,
    pub weight: u64,
}

/// A hand class of a range, with its combos.
#[derive(Debug)]
pub struct RangeClass {
    pub name: String,
    pub id: u16,
    pub combos: Vec<Combo>,
}

/// One of the first `count` weights is for the hand.
pub open spec fn names_hand(
    weights: Seq<MultiwayHoldemSpotClassWeightJson>,
    hand: Seq<char>,
    count: int,
) -> bool {
    exists|i: int| 0 <= i < count && (#[trigger] weights[i]).hand@ == hand
}

/// The first thing wrong with the class weights from `from` on.
pub open spec fn class_weight_error(
    weights: Seq<MultiwayHoldemSpotClassWeightJson>,
    from: int,
) -> Option<SpotJobError>
    decreases weights.len() - from,
{
    if from >= weights.len() {
        None
    } else if !finite(weights[from].weight) || below_zero(weights[from].weight) {
        Some(SpotJobError::BadClassWeight { index: from as usize })
    } else if names_hand(weights, weights[from].hand@, from) {
        Some(SpotJobError::DuplicateClassWeight { index: from as usize })
    } else {
        class_weight_error(weights, from + 1)
    }
}

/// The weight of a class: the one that is set for it, or one.
pub open spec fn class_weight(
    weights: Seq<MultiwayHoldemSpotClassWeightJson>,
    name: Seq<char>,
    from: int,
) -> u64
    decreases weights.len() - from,
{
    if from >= weights.len() {
        ONE_BITS
    } else if weights[from].hand@ == name {
        weights[from].weight
    } else {
        class_weight(weights, name, from + 1)
    }
}

/// The combos of a class with their weight.
pub open spec fn class_combos(
    class: RangeClass,
    weights: Seq<MultiwayHoldemSpotClassWeightJson>,
) -> Seq<WeightedCombo> {
    class.combos@.map_values(
        |combo: Combo|
            WeightedCombo {
                combo,
                class_id: class.id,
                weight: class_weight(weights, class.name@, 0),
            },
    )
}

/// The combos of the first `count` classes.
pub open spec fn range_combos(
    classes: Seq<RangeClass>,
    weights: Seq<MultiwayHoldemSpotClassWeightJson>,
    count: int,
) -> Seq<WeightedCombo>
    decreases count,
{
    if count <= 0 {
        Seq::empty()
    } else {
        range_combos(classes, weights, count - 1) + class_combos(classes[count - 1], weights)
    }
}

pub open spec fn some_weight(combos: Seq<WeightedCombo>) -> bool {
    exists|i: int| 0 <= i < combos.len() && above_zero((#[trigger] combos[i]).weight)
}

fn find_class_weight(
    weights: &Vec<MultiwayHoldemSpotClassWeightJson>,
    name: &String,
) -> (weight: u64)
    ensures
        weight == class_weight(weights@, name@, 0),
{
    let mut index: usize = 0;
    while index < weights.len()
        invariant
            index <= weights@.len(),
            class_weight(weights@, name@, 0) == class_weight(weights@, name@, index as int),
        decreases weights.len() - index,
    {
        if weights[index].hand == *name {
            return weights[index].weight;
        }
        index = index + 1;
    }
    ONE_BITS
}

fn is_named(
    weights: &Vec<MultiwayHoldemSpotClassWeightJson>,
    hand: &String,
    count: usize,
) -> (yes: bool)
    requires
        count <= weights@.len(),
    ensures
        yes == names_hand(weights@, hand@, count as int),
{
    let mut index: usize = 0;
    while index < count
        invariant
            index <= count <= weights@.len(),
            forall|i: int| 0 <= i < index ==> (#[trigger] weights@[i]).hand@ != hand@,
        decreases count - index,
    {
        if weights[index].hand == *hand {
            assert(weights@[index as int].hand@ == hand@);
            return true;
        }
        index = index + 1;
    }
    false
}

/// The range of some classes, with the weights that are set for them.
pub fn into_range(
    classes: &Vec<RangeClass>,
    weights: &Vec<MultiwayHoldemSpotClassWeightJson>,
) -> (result: Result<WeightedRange, SpotJobError>)
    ensures
        ({
            let combos = range_combos(classes@, weights@, classes@.len() as int);
            match result {
                Ok(range) => {
                    &&& class_weight_error(weights@, 0) is None
                    &&& some_weight(combos)
                    &&& range.combos@ == combos
                },
                Err(error) => match class_weight_error(weights@, 0) {
                    Some(found) => error == found,
                    None => error == SpotJobError::NoPositiveWeight && !some_weight(combos),
                },
            }
        }),
{
    let mut checked: usize = 0;
    while checked < weights.len()
        invariant
            checked <= weights@.len(),
            class_weight_error(weights@, 0) == class_weight_error(weights@, checked as int),
        decreases weights.len() - checked,
    {
        let weight = weights[checked].weight;
        if !is_finite(weight) || is_below_zero(weight) {
            return Err(SpotJobError::BadClassWeight { index: checked });
        }
        if is_named(weights, &weights[checked].hand, checked) {
            return Err(SpotJobError::DuplicateClassWeight { index: checked });
        }
        checked = checked + 1;
    }
    let mut combos: Vec<WeightedCombo> = Vec::new();
    let mut positive = false;
    let mut index: usize = 0;
    while index < classes.len()
        invariant
            index <= classes@.len(),
            combos@ == range_combos(classes@, weights@, index as int),
            positive == some_weight(combos@),
        decreases classes.len() - index,
    {
        let class = &classes[index];
        let weight = find_class_weight(weights, &class.name);
        let ghost before = combos@;
        let mut place: usize = 0;
        while place < class.combos.len()
            invariant
                place <= class.combos@.len(),
                weight == class_weight(weights@, class.name@, 0),
                combos@ == before + class_combos(*class, weights@).take(place as int),
                positive == some_weight(combos@),
            decreases class.combos.len() - place,
        {
            let entry = WeightedCombo { combo: class.combos[place], class_id: class.id, weight };
            let ghost earlier = combos@;
            combos.push(entry);
            proof {
                assert(class_combos(*class, weights@)[place as int] == entry);
                assert(combos@ =~= before + class_combos(*class, weights@).take(
                    place as int + 1,
                ));
                if above_zero(weight) {
                    assert(above_zero(combos@[earlier.len() as int].weight));
                } else if some_weight(combos@) {
                    let i = choose|i: int|
                        0 <= i < combos@.len() && above_zero((#[trigger] combos@[i]).weight);
                    assert(i < earlier.len());
                    assert(above_zero(earlier[i].weight));
                }
                if some_weight(earlier) {
                    let i = choose|i: int|
                        0 <= i < earlier.len() && above_zero((#[trigger] earlier[i]).weight);
                    assert(above_zero(combos@[i].weight));
                }
            }
            if is_above_zero(weight) {
                positive = true;
            }
            place = place + 1;
        }
        assert(class_combos(*class, weights@).take(place as int) =~= class_combos(
            *class,
            weights@,
        ));
        index = index + 1;
    }
    if !positive {
        return Err(SpotJobError::NoPositiveWeight);
    }
    Ok(WeightedRange { combos })
}

#[derive(Debug, Clone, Copy, PartialEq, Eq, Structural)]
pub enum MultiwayHoldemSpotTreeModeJson {
    Round,
    Full,
}

impl Default for MultiwayHoldemSpotTreeModeJson {
    fn default() -> (mode: Self)
        ensures
            mode == MultiwayHoldemSpotTreeModeJson::Full,
    {
        MultiwayHoldemSpotTreeModeJson::Full
    }
}

/// Sizes on one street; fractions and multipliers as bits.
#[derive(Debug, Clone)]
pub struct MultiwayHoldemSpotStreetJson {
    pub explicit_bet_to: Vec<Chips>,
    pub bet_fractions: Vec<u64>,
    pub explicit_raise_to: Vec<Chips>,
    pub raise_multipliers: Vec<u64>,
    pub include_all_in: bool,
}

impl MultiwayHoldemSpotStreetJson {
    pub open spec fn sized(self, sizing: StreetSizing) -> bool {
        &&& sizing.explicit_bet_to == self.explicit_bet_to
        &&& sizing.bet_fractions == self.bet_fractions
        &&& sizing.explicit_raise_to == self.explicit_raise_to
        &&& sizing.raise_multipliers == self.raise_multipliers
        &&& sizing.include_all_in == self.include_all_in
    }

    pub fn into_sizing(self) -> (sizing: StreetSizing)
        ensures
            self.sized(sizing),
    {
        StreetSizing {
            explicit_bet_to: self.explicit_bet_to,
            bet_fractions: self.bet_fractions,
            explicit_raise_to: self.explicit_raise_to,
            raise_multipliers: self.raise_multipliers,
            include_all_in: self.include_all_in,
        }
    }
}

/// The outcomes that a job gives, already read; an empty list gives none.
#[derive(Debug, Clone)]
pub struct MultiwayHoldemSpotChanceJson {
    pub flop: Vec<ChanceOutcome>,
    pub turn: Vec<ChanceOutcome>,
    pub river: Vec<ChanceOutcome>,
    pub enumerate_exact: bool,
    pub max_outcomes_per_node: usize,
}

pub open spec fn given(outcomes: Vec<ChanceOutcome>) -> Option<Vec<ChanceOutcome>> {
    if outcomes@.len() == 0 {
        None
    } else {
        Some(outcomes)
    }
}

pub fn optional_outcomes(outcomes: Vec<ChanceOutcome>) -> (list: Option<Vec<ChanceOutcome>>)
    ensures
        list == given(outcomes),
{
    if outcomes.len() == 0 {
        None
    } else {
        Some(outcomes)
    }
}

impl MultiwayHoldemSpotChanceJson {
    pub open spec fn configured(self, chance: ChanceConfig) -> bool {
        &&& chance.flop == given(self.flop)
        &&& chance.turn == given(self.turn)
        &&& chance.river == given(self.river)
        &&& chance.enumerate_exact == self.enumerate_exact
        &&& chance.dead_cards == 0
        &&& chance.max_outcomes_per_node == self.max_outcomes_per_node
    }

    pub fn into_chance_config(self) -> (chance: ChanceConfig)
        ensures
            self.configured(chance),
    {
        ChanceConfig {
            flop: optional_outcomes(self.flop),
            turn: optional_outcomes(self.turn),
            river: optional_outcomes(self.river),
            enumerate_exact: self.enumerate_exact,
            dead_cards: 0,
            max_outcomes_per_node: self.max_outcomes_per_node,
        }
    }
}

#[derive(Debug, Clone)]
pub struct MultiwayHoldemSpotTreeJson {
    pub mode: MultiwayHoldemSpotTreeModeJson,
    pub max_nodes: usize,
    pub max_depth: usize,
    pub preflop: MultiwayHoldemSpotStreetJson,
    pub flop: MultiwayHoldemSpotStreetJson,
    pub turn: MultiwayHoldemSpotStreetJson,
    pub river: MultiwayHoldemSpotStreetJson,
    pub chance: MultiwayHoldemSpotChanceJson,
    pub postflop_order: Vec<PlayerId>,
}

impl MultiwayHoldemSpotTreeJson {
    pub open spec fn round_configured(self, round: TreeBuildConfig) -> bool {
        &&& round.action_sizes.bet_to@.len() == 0
        &&& round.action_sizes.raise_to@.len() == 0
        &&& !round.action_sizes.include_all_in
        &&& round.abstraction matches Some(abstraction)
        &&& self.preflop.sized(abstraction.preflop)
        &&& self.flop.sized(abstraction.flop)
        &&& self.turn.sized(abstraction.turn)
        &&& self.river.sized(abstraction.river)
        &&& round.max_nodes == self.max_nodes
        &&& round.max_depth == self.max_depth
    }

    /// The tree that the job asks for: one round, or all of it.
    pub fn into_tree_config(self) -> (tree: MultiwayHoldemSpotTreeConfig)
        ensures
            match (self.mode, tree) {
                (
                    MultiwayHoldemSpotTreeModeJson::Round,
                    MultiwayHoldemSpotTreeConfig::Round(round),
                ) => self.round_configured(round),
                (
                    MultiwayHoldemSpotTreeModeJson::Full,
                    MultiwayHoldemSpotTreeConfig::Full(full),
                ) => {
                    &&& self.round_configured(full.round)
                    &&& self.chance.configured(full.chance)
                    &&& full.postflop_order == self.postflop_order
                },
                _ => false,
            },
    {
        let round = TreeBuildConfig {
            action_sizes: ActionSizes::default(),
            abstraction: Some(
                ActionAbstraction {
                    preflop: self.preflop.into_sizing(),
                    flop: self.flop.into_sizing(),
                    turn: self.turn.into_sizing(),
                    river: self.river.into_sizing(),
                },
            ),
            max_nodes: self.max_nodes,
            max_depth: self.max_depth,
        };
        match self.mode {
            MultiwayHoldemSpotTreeModeJson::Round => MultiwayHoldemSpotTreeConfig::Round(round),
            MultiwayHoldemSpotTreeModeJson::Full => MultiwayHoldemSpotTreeConfig::Full(
                FullTreeBuildConfig {
                    round,
                    chance: self.chance.into_chance_config(),
                    postflop_order: self.postflop_order,
                },
            ),
        }
    }
}

#[derive(Debug, Clone, Copy, PartialEq, Eq, Structural)]
pub struct MultiwayHoldemSpotExecutionJson {
    pub seed: u64,
    pub target_iterations: u64,
    pub checkpoint_interval: u64,
    pub keep_checkpoints: usize,
    pub max_private_attempts: usize,
    pub worker_count: usize,
    pub reduction_batch_size: usize,
    pub config_fingerprint: u64,
}

impl Default for MultiwayHoldemSpotExecutionJson {
    fn default() -> (execution: Self)
        ensures
            execution == (MultiwayHoldemSpotExecutionJson {
                seed: 0,
                target_iterations: 0,
                checkpoint_interval: 1_000,
                keep_checkpoints: 5,
                max_private_attempts: 10_000,
                worker_count: 1,
                reduction_batch_size: 1,
                config_fingerprint: 0,
            }),
    {
        MultiwayHoldemSpotExecutionJson {
            seed: 0,
            target_iterations: 0,
            checkpoint_interval: default_checkpoint_interval(),
            keep_checkpoints: default_keep_checkpoints(),
            max_private_attempts: default_max_private_attempts(),
            worker_count: default_worker_count(),
            reduction_batch_size: default_reduction_batch_size(),
            config_fingerprint: 0,
        }
    }
}

#[derive(Debug, Clone)]
pub struct MultiwayHoldemSpotHeroJson {
    pub player: PlayerId,
    pub hand: String,
    pub label: Option<String>,
}

impl MultiwayHoldemSpotHeroJson {
    /// The label, or the hand where there is none.
    pub open spec fn spec_label(self) -> Seq<char> {
        match self.label {
            Some(label) => label@,
            None => self.hand@,
        }
    }
}

/// A job: what it says in plain values, and what its texts hold.
pub struct MultiwayHoldemSpotJob {
    pub schema_version: u32,
    pub table: MultiwayHoldemSpotTableJson,
    pub dead_cards: DeckMask,
    pub history: Vec<MultiwayHoldemSpotActionJson>,
    pub ranges: Vec<WeightedRange>,
    pub hero: MultiwayHoldemSpotHeroJson,
    pub hero_hands: Vec<Combo>,
    pub tree: MultiwayHoldemSpotTreeJson,
    pub execution: MultiwayHoldemSpotExecutionJson,
}

/// Only one version of the schema is read.
pub fn check_schema(version: u32) -> (result: Result<(), SpotJobError>)
    ensures
        match result {
            Ok(_) => version == MULTIWAY_HOLDEM_SPOT_SCHEMA_VERSION,
            Err(error) => version != MULTIWAY_HOLDEM_SPOT_SCHEMA_VERSION && error == (
            SpotJobError::UnsupportedSchema { version }),
        },
{
    if version == MULTIWAY_HOLDEM_SPOT_SCHEMA_VERSION {
        Ok(())
    } else {
        Err(SpotJobError::UnsupportedSchema { version })
    }
}

impl MultiwayHoldemSpotJob {
    /// The spot has what the job says.
    pub open spec fn described(self, config: MultiwayHoldemSpotConfig) -> bool {
        &&& config.table.table_size == self.table.table_size
        &&& config.table.button == self.table.button
        &&& config.table.small_blind == self.table.small_blind
        &&& config.table.big_blind == self.table.big_blind
        &&& config.table.ante == self.table.ante
        &&& config.table.ante_mode == self.table.ante_mode.spec_domain()
        &&& config.table.stacks == self.table.stacks
        &&& config.table.dead_money == self.table.dead_money
        &&& config.action_history@ == history_of(self.history@)
        &&& config.ranges == self.ranges
        &&& config.dead_cards == self.dead_cards
        &&& config.board_cards@.len() == 0
        &&& match (self.tree.mode, config.tree) {
            (
                MultiwayHoldemSpotTreeModeJson::Round,
                MultiwayHoldemSpotTreeConfig::Round(round),
            ) => self.tree.round_configured(round),
            (MultiwayHoldemSpotTreeModeJson::Full, MultiwayHoldemSpotTreeConfig::Full(full)) => {
                &&& self.tree.round_configured(full.round)
                &&& self.tree.chance.configured(full.chance)
                &&& full.postflop_order == self.tree.postflop_order
            },
            _ => false,
        }
        &&& config.hero_player == self.hero.player
        &&& config.hero_hands == self.hero_hands
        &&& config.hero_label@ == self.hero.spec_label()
        &&& config.seed == self.execution.seed
        &&& config.config_fingerprint == self.execution.config_fingerprint
        &&& config.max_private_attempts == self.execution.max_private_attempts
        &&& config.worker_count == self.execution.worker_count
        &&& config.reduction_batch_size == self.execution.reduction_batch_size
        &&& config.card_abstraction is None
        &&& config.blocking_samples == 0
    }

    /// The spot of the job, if it is one that can be played. `table_ok` tells
    /// whether the table is in order.
    pub fn into_config(self, table_ok: bool) -> (result: Result<
        MultiwayHoldemSpotConfig,
        SpotJobError,
    >)
        requires
            forall|i: int|
                0 <= i < self.hero_hands@.len() ==> (#[trigger] self.hero_hands@[i]).valid(),
        ensures
            match result {
                Ok(config) => {
                    &&& self.schema_version == MULTIWAY_HOLDEM_SPOT_SCHEMA_VERSION
                    &&& table_ok
                    &&& self.described(config)
                    &&& spot_error(config) is None
                },
                Err(error) => if self.schema_version != MULTIWAY_HOLDEM_SPOT_SCHEMA_VERSION {
                    error == (SpotJobError::UnsupportedSchema { version: self.schema_version })
                } else if !table_ok {
                    error == SpotJobError::InvalidTable
                } else {
                    &&& error matches SpotJobError::Spot(found)
                    &&& exists|config: MultiwayHoldemSpotConfig|
                        #[trigger] self.described(config) && spot_error(config) == Some(found)
                },
            },
    {
        match check_schema(self.schema_version) {
            Ok(_) => {},
            Err(error) => {
                return Err(error);
            },
        }
        if !table_ok {
            return Err(SpotJobError::InvalidTable);
        }
        let hero_label = match &self.hero.label {
            Some(label) => label.clone(),
            None => self.hero.hand.clone(),
        };
        let config = MultiwayHoldemSpotConfig {
            action_history: read_history(&self.history),
            table: self.table.into_table(),
            ranges: self.ranges,
            dead_cards: self.dead_cards,
            board_cards: Vec::new(),
            tree: self.tree.into_tree_config(),
            hero_player: self.hero.player,
            hero_hands: self.hero_hands,
            hero_label,
            seed: self.execution.seed,
            config_fingerprint: self.execution.config_fingerprint,
            max_private_attempts: self.execution.max_private_attempts,
            worker_count: self.execution.worker_count,
            reduction_batch_size: self.execution.reduction_batch_size,
            card_abstraction: None,
            blocking_samples: 0,
        };
        assert(self.described(config));
        match config.validate() {
            Ok(_) => Ok(config),
            Err(error) => Err(SpotJobError::Spot(error)),
        }
    }
}

/// A hero's hand of two words names two cards; any other names a class of
/// hands.
pub open spec fn is_exact_hand(text: Seq<char>) -> bool {
    words(text) == 2
}

pub fn names_exact_hand(text: &str) -> (yes: bool)
    ensures
        yes == is_exact_hand(text@),
{
    word_count(text) == 2
}

} // verus!
