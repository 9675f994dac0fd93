//! Trees, games and spots of tables that are played by plain betting rules.
use std::cell::Cell;

use holdem_solver::action_abstraction::{ActionAbstraction, SizingError, StreetSizing};
use holdem_solver::batch::{public_decision, DecisionPoint, MultiwayHoldemBatchSolver};
use holdem_solver::batch_report::MultiwayBatchInfoSetReport;
use holdem_solver::blocking::{
    is_blocked, lost_members, sample_hand_masks, BlockingError,
};
use holdem_solver::card_abstraction::{
    group_outcomes, sorted_desc, AbstractionError, CardAbstractionMode, CardAbstractionSpec,
    Granularity, StatsAccumulator, StreetAccumulator,
};
use holdem_solver::card_rebuild::TreeRebuild;
use holdem_solver::cards::{Card, CardError, Combo};
use holdem_solver::chance::{chance_outcomes, ChanceConfig, ChanceError};
use holdem_solver::domain::{
    Action, ActionSizes, AnteMode, GameState, PlayerState, PlayerStatus, Position, Street,
    TerminalState,
};
use holdem_solver::checkpoint::{InfoSetData, SolverAlgorithm, SolverCheckpoint, SolverError};
use holdem_solver::compile::{CompileError, Draft};
use holdem_solver::deals::{
    check_multiway_deals, check_private_deals, multiway_deals_fingerprint,
    private_deals_fingerprint,
};
use holdem_solver::drill::{
    action_label, cards_text, playable_hands, DrillError, DrillFrequency, DrillLoss, DrillParams,
    DrillRun, DrillStep,
};
use holdem_solver::game::GameNode;
use holdem_solver::heads_up::{compile_private_holdem_tree, finish_private};
use holdem_solver::holdem::{
    compile_holdem_tree, compile_multiway_holdem_tree, finish_multiway, CompiledHoldemGame,
    HoldemError, MultiwayCompiledHoldemGame, MultiwayPrivateDeal, PrivateDeal,
};
use holdem_solver::matrix::{
    RangeMatrix, RangeMatrixCell, RangeMatrixReport, RangeStrategyReport,
    RANGE_MATRIX_SIZE, RANGE_RESULT_SCHEMA_VERSION,
};
use holdem_solver::matrix_csv::{ActionTexts, CellTexts, MatrixTexts};
use holdem_solver::multiway::{MultiwayGameNode, MultiwayMccfrSolver, MultiwayStaticGame};
use holdem_solver::parallel::{ParallelBatchTask, ParallelTaskRun};
use holdem_solver::payoff::{
    HoldemChipEvPayoff, MultiwayHoldemChipEvPayoff, Settlement,
};
use holdem_solver::range_report::{
    aggregate_strategy_report_by_deals, bucket_infosets, marginal_groups, ActionValues,
    BucketValues, RangeBucket,
};
use holdem_solver::ranges::{
    group_weights, multiway_private_deals_from_ranges, private_deals_from_ranges,
    usable_candidates, Candidate, WeightedCombo, WeightedRange,
};
use holdem_solver::reduction::{BatchResults, ParallelRun};
use holdem_solver::report::{
    build_strategy_report, report_layout, InfoSetValues, StrategyReport,
};
use holdem_solver::schedule::{Schedule, ScheduleStep};
use holdem_solver::solver::CfrPlusSolver;
use holdem_solver::spot::{
    positive_weights, MultiwayHoldemSpotAction, MultiwayHoldemSpotConfig,
    MultiwayHoldemSpotTreeConfig, SpotError, TableConfig,
    MULTIWAY_HOLDEM_SPOT_RESULT_SCHEMA_VERSION,
};
use holdem_solver::spot_history::{HistoryCommand, HistoryRun};
use holdem_solver::spot_job::{
    into_range, MultiwayHoldemSpotActionJson, MultiwayHoldemSpotActionKindJson,
    MultiwayHoldemSpotAnteModeJson, MultiwayHoldemSpotChanceJson,
    MultiwayHoldemSpotClassWeightJson, MultiwayHoldemSpotExecutionJson,
    MultiwayHoldemSpotHeroJson, MultiwayHoldemSpotJob, MultiwayHoldemSpotStreetJson,
    MultiwayHoldemSpotTableJson, MultiwayHoldemSpotTreeJson, MultiwayHoldemSpotTreeModeJson,
    RangeClass, SpotJobError, MULTIWAY_HOLDEM_SPOT_SCHEMA_VERSION,
};
use holdem_solver::spot_report::{
    aggregate_hero_report, status_name, street_name, tree_index, MultiwayHoldemSpotHeroReport,
    TreeIndexEnd,
};
use holdem_solver::tree_fingerprint::multiway_holdem_tree_fingerprint;
use holdem_solver::walk::{Plan, Shape, Walk, WalkStep};
use holdem_solver::tree::{ChanceOutcome, GameTree, LeafKind, NodeFacts, TreeError, TreeNode};
use holdem_solver::tree_builder::{BuildStep, FullTreeBuildConfig, TreeBuildConfig, TreeBuilder};

fn bits(value: f64) -> u64 {
    value.to_bits()
}

fn number(bits: u64) -> f64 {
    f64::from_bits(bits)
}

/// The sum of two numbers.
fn plus(left: u64, right: u64) -> u64 {
    bits(number(left) + number(right))
}

fn cards(text: &str) -> Vec<Card> {
    text.split_whitespace()
        .map(|card| {
            let mut symbols = card.chars();
            let rank = "23456789TJQKA".find(symbols.next().unwrap()).unwrap();
            let suit = "shdc".find(symbols.next().unwrap()).unwrap();
            (rank * 4 + suit) as u8
        })
        .collect()
}

fn combo(text: &str) -> Combo {
    let pair = cards(text);
    let (low, high) = if pair[0] < pair[1] { (pair[0], pair[1]) } else { (pair[1], pair[0]) };
    Combo { first: low, second: high }
}

fn outcome(text: &str, probability: f64) -> ChanceOutcome {
    ChanceOutcome::new(cards(text), bits(probability))
}

fn table(size: usize, small: u64, big: u64, stack: u64) -> TableConfig {
    TableConfig {
        table_size: size,
        button: 0,
        small_blind: small,
        big_blind: big,
        ante: 0,
        ante_mode: AnteMode::NoAnte,
        stacks: vec![stack; size],
        dead_money: 0,
    }
}

fn heads_up_table() -> TableConfig {
    table(2, 500, 1_000, 10_000)
}

fn player(seat: usize, stack: u64, committed: u64) -> PlayerState {
    PlayerState {
        seat,
        position: Position::Unknown,
        stack_remaining: stack,
        committed_total: committed,
        committed_street: committed,
        ante_paid: 0,
        status: PlayerStatus::Active,
    }
}

/// The seats from `first` on, round the table.
fn seats_from(size: usize, first: usize) -> Vec<usize> {
    (0..size).map(|step| (first + step) % size).collect()
}

fn postflop_order(table: &TableConfig) -> Vec<usize> {
    seats_from(table.table_size, (table.button + 1) % table.table_size)
}

fn preflop_state(table: &TableConfig) -> GameState {
    let size = table.table_size;
    let small = if size == 2 { table.button } else { (table.button + 1) % size };
    let big = (small + 1) % size;
    let first = (big + 1) % size;
    let players: Vec<PlayerState> = (0..size)
        .map(|seat| {
            let posted = if seat == small {
                table.small_blind
            } else if seat == big {
                table.big_blind
            } else {
                0
            };
            player(seat, table.stacks[seat] - posted, posted)
        })
        .collect();
    GameState {
        table_size: size,
        street: Street::Preflop,
        board: Vec::new(),
        players,
        dead_money: table.dead_money,
        pot: table.small_blind + table.big_blind + table.dead_money,
        actor: Some(first),
        current_bet: table.big_blind,
        min_raise_increment: table.big_blind,
        pending_players: seats_from(size, first),
        raise_allowed: seats_from(size, first),
        terminal: None,
    }
}

fn legal_actions(state: &GameState, sizes: &ActionSizes) -> Vec<Action> {
    let actor = state.players[state.actor.unwrap()];
    let most = actor.committed_street + actor.stack_remaining;
    let mut actions = Vec::new();
    if actor.committed_street < state.current_bet {
        actions.push(Action::Fold);
        actions.push(Action::Call);
    } else {
        actions.push(Action::Check);
    }
    if state.current_bet == 0 {
        for to in &sizes.bet_to {
            if *to <= most {
                actions.push(Action::Bet { to: *to });
            }
        }
    } else {
        for to in &sizes.raise_to {
            if *to >= state.current_bet + state.min_raise_increment && *to <= most {
                actions.push(Action::Raise { to: *to });
            }
        }
    }
    if sizes.include_all_in && most > state.current_bet {
        actions.push(Action::AllIn);
    }
    actions
}

fn pay(state: &mut GameState, seat: usize, to: u64) {
    let player = &mut state.players[seat];
    let chips = (to - player.committed_street).min(player.stack_remaining);
    player.stack_remaining -= chips;
    player.committed_street += chips;
    player.committed_total += chips;
    state.pot += chips;
    if player.stack_remaining == 0 {
        player.status = PlayerStatus::AllIn;
    }
}

fn live(state: &GameState) -> Vec<usize> {
    state
        .players
        .iter()
        .filter(|player| player.status != PlayerStatus::Folded)
        .map(|player| player.seat)
        .collect()
}

fn apply_action(before: &GameState, action: Action) -> GameState {
    let mut state = before.clone();
    let seat = state.actor.unwrap();
    state.pending_players.retain(|pending| *pending != seat);
    let before_bet = state.current_bet;
    match action {
        Action::Fold => state.players[seat].status = PlayerStatus::Folded,
        Action::Check => {}
        Action::Call => {
            let to = state.current_bet;
            pay(&mut state, seat, to);
        }
        Action::Bet { to } | Action::Raise { to } => pay(&mut state, seat, to),
        Action::AllIn => {
            let to = state.players[seat].committed_street + state.players[seat].stack_remaining;
            pay(&mut state, seat, to);
        }
    }
    let committed = state.players[seat].committed_street;
    if committed > before_bet {
        state.min_raise_increment = state.min_raise_increment.max(committed - before_bet);
        state.current_bet = committed;
        state.pending_players = seats_from(state.table_size, seat)
            .into_iter()
            .filter(|other| {
                *other != seat && state.players[*other].status == PlayerStatus::Active
            })
            .collect();
    }
    state.raise_allowed = state.pending_players.clone();
    let remaining = live(&state);
    if remaining.len() == 1 {
        state.terminal = Some(TerminalState::Fold { winner: remaining[0] });
        state.pending_players.clear();
        state.raise_allowed.clear();
    } else if state.pending_players.is_empty() && state.street == Street::River {
        state.terminal = Some(TerminalState::Showdown);
    }
    state.actor = state.pending_players.first().copied();
    state
}

fn advance_to_next_street(before: &GameState, new_cards: &[Card], order: &[usize]) -> GameState {
    let mut state = before.clone();
    state.street = state.street.next().unwrap();
    state.board.extend_from_slice(new_cards);
    state.current_bet = 0;
    for player in &mut state.players {
        player.committed_street = 0;
    }
    let able: Vec<usize> = order
        .iter()
        .copied()
        .filter(|seat| state.players[*seat].status == PlayerStatus::Active)
        .collect();
    state.pending_players = if able.len() > 1 { able } else { Vec::new() };
    state.raise_allowed = state.pending_players.clone();
    state.actor = state.pending_players.first().copied();
    if state.actor.is_none() && state.street == Street::River {
        state.terminal = Some(TerminalState::Showdown);
    }
    state
}

fn facts_of(tree: &GameTree) -> Vec<NodeFacts> {
    tree.nodes
        .iter()
        .map(|node| NodeFacts {
            state_ok: true,
            probabilities_ok: match &node.chance {
                None => true,
                Some(chance) => {
                    let total: f64 =
                        chance.outcomes.iter().map(|outcome| number(outcome.probability)).sum();
                    (total - 1.0).abs() <= 1e-9
                }
            },
        })
        .collect()
}

/// Chips for each pot fraction or raise multiplier that a street offers.
fn abstract_sizes(
    abstraction: &ActionAbstraction,
    state: &GameState,
) -> Result<ActionSizes, SizingError> {
    let sizing = abstraction.sizing_for(state.street);
    let (factors, base) = if state.current_bet == 0 {
        (&sizing.bet_fractions, state.pot)
    } else {
        (&sizing.raise_multipliers, state.current_bet)
    };
    let amounts: Vec<Option<u64>> = factors
        .iter()
        .map(|factor| {
            let chips = (base as f64 * number(*factor)).round();
            if chips.is_finite() && chips > 0.0 && chips < 1.0e15 {
                Some(chips as u64)
            } else {
                None
            }
        })
        .collect();
    abstraction.action_sizes(state, &amounts)
}

fn drive(
    builder: Result<TreeBuilder, TreeError>,
    round: &TreeBuildConfig,
    full: Option<&FullTreeBuildConfig>,
) -> Result<GameTree, TreeError> {
    let mut builder = builder?;
    loop {
        match builder.next_step()? {
            BuildStep::Finished => break,
            BuildStep::ChooseActions { node } => {
                let state = builder.tree.nodes[node].state.clone();
                let sizes = match &round.abstraction {
                    Some(abstraction) => abstract_sizes(abstraction, &state).unwrap(),
                    None => round.action_sizes.clone(),
                };
                builder.offer_actions(legal_actions(&state, &sizes))?;
            }
            BuildStep::ApplyAction { node, action } => {
                let state = apply_action(&builder.tree.nodes[node].state, action);
                builder.add_child(state)?;
            }
            BuildStep::DealCards { node, next_street } => {
                let state = builder.tree.nodes[node].state.clone();
                let chance = &full.unwrap().chance;
                let mut outcomes = chance_outcomes(&state, next_street, chance).unwrap();
                let total: f64 = outcomes.iter().map(|entry| number(entry.probability)).sum();
                for entry in &mut outcomes {
                    entry.probability = bits(number(entry.probability) / total);
                }
                builder.offer_outcomes(outcomes);
            }
            BuildStep::AdvanceStreet { node, outcome } => {
                let parent = &builder.tree.nodes[node];
                let dealt = &parent.chance.as_ref().unwrap().outcomes[outcome].cards;
                let state =
                    advance_to_next_street(&parent.state, dealt, &full.unwrap().postflop_order);
                builder.add_child(state)?;
            }
        }
    }
    let facts = facts_of(&builder.tree);
    builder.finish(&facts)
}

fn build_round(state: GameState, config: &TreeBuildConfig) -> Result<GameTree, TreeError> {
    drive(TreeBuilder::build_round(state, true, config), config, None)
}

fn build_full(state: GameState, config: &FullTreeBuildConfig) -> Result<GameTree, TreeError> {
    drive(TreeBuilder::build_full(state, true, config), &config.round, Some(config))
}

fn round_config(raise_to: Vec<u64>, max_nodes: usize, max_depth: usize) -> TreeBuildConfig {
    TreeBuildConfig {
        action_sizes: ActionSizes { bet_to: Vec::new(), raise_to, include_all_in: false },
        abstraction: None,
        max_nodes,
        max_depth,
    }
}

fn chance_config(
    flop: Vec<ChanceOutcome>,
    turn: Vec<ChanceOutcome>,
    river: Vec<ChanceOutcome>,
    limit: usize,
) -> ChanceConfig {
    ChanceConfig {
        flop: Some(flop),
        turn: Some(turn),
        river: Some(river),
        enumerate_exact: false,
        dead_cards: 0,
        max_outcomes_per_node: limit,
    }
}

fn root_actions(tree: &GameTree) -> Vec<Action> {
    tree.nodes[tree.root]
        .children
        .iter()
        .map(|child| tree.nodes[*child].action_from_parent.unwrap())
        .collect()
}

#[test]
fn builds_a_finite_preflop_round_tree() {
    let state = preflop_state(&heads_up_table());
    let tree = build_round(state, &round_config(vec![2_500], 10_000, 32)).unwrap();
    assert!(tree.nodes.len() > 1);
    assert!(tree.leaf_nodes().len() > 0);
    assert!(tree.decision_nodes().iter().all(|node| !node.children.is_empty()));
}

#[test]
fn root_has_fold_call_and_raise_for_preflop_actor() {
    let state = preflop_state(&heads_up_table());
    let tree = build_round(state, &round_config(vec![2_500], 10_000, 32)).unwrap();
    let actions = root_actions(&tree);
    assert!(actions.contains(&Action::Fold));
    assert!(actions.contains(&Action::Call));
    assert!(actions.contains(&Action::Raise { to: 2_500 }));
}

fn no_sizes() -> ActionAbstraction {
    ActionAbstraction {
        preflop: StreetSizing::default(),
        flop: StreetSizing::default(),
        turn: StreetSizing::default(),
        river: StreetSizing::default(),
    }
}

#[test]
fn tree_uses_street_specific_action_abstraction() {
    let mut abstraction = no_sizes();
    abstraction.preflop.explicit_raise_to = vec![2_500];
    let config = TreeBuildConfig {
        action_sizes: ActionSizes::default(),
        abstraction: Some(abstraction),
        max_nodes: 10_000,
        max_depth: 32,
    };
    let tree = build_round(preflop_state(&heads_up_table()), &config).unwrap();
    assert!(root_actions(&tree).contains(&Action::Raise { to: 2_500 }));
}

#[test]
fn history_is_reconstructed_from_parent_links() {
    let state = preflop_state(&heads_up_table());
    let tree = build_round(state, &round_config(Vec::new(), 100, 8)).unwrap();
    let child = tree.node(tree.root).unwrap().children[0];
    let history = tree.history(child).unwrap();
    assert_eq!(history.len(), 1);
    assert_eq!(history[0], Action::Fold);
}

#[test]
fn full_tree_creates_flop_turn_river_chance_nodes() {
    let config = FullTreeBuildConfig {
        round: round_config(Vec::new(), 10_000, 64),
        chance: chance_config(
            vec![outcome("As 7d 2c", 1.0)],
            vec![outcome("Kh", 1.0)],
            vec![outcome("Qc", 1.0)],
            100,
        ),
        postflop_order: vec![1, 0],
    };
    let tree = build_full(preflop_state(&heads_up_table()), &config).unwrap();
    assert_eq!(tree.chance_nodes().len(), 3);
    assert!(tree.nodes.iter().any(|node| {
        matches!(node.leaf, Some(LeafKind::Terminal(TerminalState::Showdown)))
            && node.state.board.len() == 5
    }));
}

#[test]
fn explicit_chance_probabilities_are_normalized() {
    let config = FullTreeBuildConfig {
        round: round_config(Vec::new(), 10_000, 32),
        chance: chance_config(
            vec![outcome("As 7d 2c", 2.0), outcome("Kh Qh Jc", 1.0)],
            vec![outcome("Td", 1.0)],
            vec![outcome("9s", 1.0)],
            100,
        ),
        postflop_order: vec![1, 0],
    };
    let tree = build_full(preflop_state(&heads_up_table()), &config).unwrap();
    let chance = tree.chance_nodes()[0];
    let total: f64 = chance
        .chance
        .as_ref()
        .unwrap()
        .outcomes
        .iter()
        .map(|outcome| number(outcome.probability))
        .sum();
    assert!((total - 1.0).abs() < 1e-12);
}

#[test]
fn build_config_fingerprint_changes_with_chance_policy() {
    let config = |enumerate_exact: bool| FullTreeBuildConfig {
        round: TreeBuildConfig::default(),
        chance: ChanceConfig { enumerate_exact, ..ChanceConfig::default() },
        postflop_order: vec![1, 0],
    };
    let base = config(false);
    let changed = config(true);
    assert_eq!(base.fingerprint(), config(false).fingerprint());
    assert_ne!(base.fingerprint(), changed.fingerprint());
    assert_eq!(base.round.fingerprint(), changed.round.fingerprint());
}

fn flop_state(current_bet: u64, pot: u64) -> GameState {
    GameState {
        table_size: 2,
        street: Street::Flop,
        board: Vec::new(),
        players: vec![player(0, 10_000, current_bet), player(1, 10_000, 0)],
        dead_money: pot - current_bet,
        pot,
        actor: Some(1),
        current_bet,
        min_raise_increment: current_bet.max(1),
        pending_players: vec![1],
        raise_allowed: vec![1],
        terminal: None,
    }
}

#[test]
fn pot_fraction_becomes_absolute_bet_target() {
    let mut abstraction = no_sizes();
    abstraction.flop.bet_fractions = vec![bits(0.5), bits(1.0)];
    let sizes = abstract_sizes(&abstraction, &flop_state(0, 1_000)).unwrap();
    assert_eq!(sizes.bet_to, vec![500, 1_000]);
}

#[test]
fn raise_multiplier_becomes_absolute_raise_target() {
    let mut abstraction = no_sizes();
    abstraction.flop.raise_multipliers = vec![bits(2.0), bits(3.0)];
    let sizes = abstract_sizes(&abstraction, &flop_state(200, 1_000)).unwrap();
    assert_eq!(sizes.raise_to, vec![400, 600]);
}

#[test]
fn fingerprints_are_deterministic_and_change_with_sizing() {
    let base = no_sizes();
    let mut changed = no_sizes();
    changed.flop.bet_fractions = vec![bits(0.5)];
    assert_eq!(base.fingerprint(), no_sizes().fingerprint());
    assert_ne!(base.fingerprint(), changed.fingerprint());
    assert_ne!(base.flop.fingerprint(), changed.flop.fingerprint());
}

#[test]
fn invalid_sizing_is_rejected() {
    let mut abstraction = no_sizes();
    abstraction.flop.bet_fractions = vec![bits(0.0)];
    assert!(abstract_sizes(&abstraction, &flop_state(0, 1_000)).is_err());
}

#[test]
fn each_fault_of_a_sizing_has_its_error() {
    let mut state = flop_state(0, 1_000);
    state.actor = None;
    assert_eq!(no_sizes().action_sizes(&state, &[]).err(), Some(SizingError::NoActor));
    let mut fractions = no_sizes();
    fractions.flop.bet_fractions = vec![bits(f64::NAN)];
    assert_eq!(
        fractions.action_sizes(&flop_state(0, 1_000), &[Some(1)]).err(),
        Some(SizingError::BadFraction)
    );
    let mut multipliers = no_sizes();
    multipliers.flop.raise_multipliers = vec![bits(1.0)];
    assert_eq!(
        multipliers.action_sizes(&flop_state(200, 1_000), &[Some(200)]).err(),
        Some(SizingError::BadMultiplier)
    );
    multipliers.flop.raise_multipliers = vec![bits(2.0)];
    assert_eq!(
        multipliers.action_sizes(&flop_state(200, 1_000), &[None]).err(),
        Some(SizingError::OutsideChipRange)
    );
}

#[test]
fn each_limit_of_a_build_has_its_error() {
    let state = || preflop_state(&heads_up_table());
    let fault = |initial_ok: bool, max_nodes: usize, max_depth: usize| {
        let config = round_config(vec![2_500], max_nodes, max_depth);
        drive(TreeBuilder::build_round(state(), initial_ok, &config), &config, None).err()
    };
    assert_eq!(fault(true, 0, 8), Some(TreeError::ZeroMaxNodes));
    assert_eq!(fault(true, 100, 0), Some(TreeError::ZeroMaxDepth));
    assert_eq!(fault(false, 100, 8), Some(TreeError::InvalidInitialState));
    assert_eq!(fault(true, 2, 8), Some(TreeError::NodeLimit { limit: 2 }));
    assert!(matches!(fault(true, 100, 1), Some(TreeError::DepthLimit { .. })));
    assert_eq!(fault(true, 100, 8), None);

    let full = FullTreeBuildConfig {
        round: round_config(Vec::new(), 100, 8),
        chance: ChanceConfig::default(),
        postflop_order: Vec::new(),
    };
    assert_eq!(build_full(state(), &full).err(), Some(TreeError::EmptyPostflopOrder));

    let round = round_config(Vec::new(), 100, 8);
    let mut builder = TreeBuilder::build_round(state(), true, &round).unwrap();
    assert!(matches!(builder.next_step(), Ok(BuildStep::ChooseActions { node: 0 })));
    assert_eq!(builder.offer_actions(Vec::new()), Err(TreeError::NoLegalActions { node: 0 }));
}

#[test]
fn each_fault_of_a_tree_has_its_error() {
    let build = || build_round(preflop_state(&heads_up_table()), &round_config(vec![2_500], 100, 8)).unwrap();
    let fault = |change: &dyn Fn(&mut GameTree)| {
        let mut tree = build();
        change(&mut tree);
        let facts = vec![NodeFacts { state_ok: true, probabilities_ok: true }; tree.nodes.len()];
        tree.validate(&facts).err()
    };
    assert_eq!(fault(&|_| {}), None);
    assert_eq!(fault(&|tree| tree.nodes.clear()), Some(TreeError::NoNodes));
    assert_eq!(fault(&|tree| tree.root = 1), Some(TreeError::RootNotZero));
    assert_eq!(fault(&|tree| tree.nodes[1].id = 9), Some(TreeError::IdMismatch { node: 1 }));
    assert_eq!(fault(&|tree| tree.nodes[0].parent = Some(1)), Some(TreeError::RootHasParent));
    assert_eq!(
        fault(&|tree| tree.nodes[1].parent = None),
        Some(TreeError::WrongParent { child: 1 })
    );
    assert_eq!(
        fault(&|tree| tree.nodes[0].children[0] = 99),
        Some(TreeError::InvalidChild { node: 0, child: 99 })
    );
    assert_eq!(
        fault(&|tree| tree.nodes[1].action_from_parent = None),
        Some(TreeError::WrongEdge { node: 1 })
    );
    assert_eq!(
        fault(&|tree| tree.nodes[1].state.actor = Some(0)),
        Some(TreeError::LeafWithActor { node: 1 })
    );
    assert_eq!(
        fault(&|tree| tree.nodes[0].state.actor = None),
        Some(TreeError::NoActor { node: 0 })
    );
    let tree = build();
    let mut facts = facts_of(&tree);
    facts[2].state_ok = false;
    assert_eq!(tree.validate(&facts).err(), Some(TreeError::InvalidState { node: 2 }));
    assert_eq!(tree.history(1_000).err(), Some(TreeError::UnknownNode { node: 1_000 }));
}

#[test]
fn exact_enumeration_leaves_out_board_and_dead_cards() {
    let mut state = preflop_state(&heads_up_table());
    state.street = Street::Flop;
    state.board = cards("2s 7d 9c");
    let config = ChanceConfig {
        enumerate_exact: true,
        dead_cards: 1u64 << cards("As")[0],
        ..ChanceConfig::default()
    };
    let outcomes = chance_outcomes(&state, Street::Turn, &config).unwrap();
    assert_eq!(outcomes.len(), 52 - 3 - 1);
    assert!(outcomes.iter().all(|outcome| outcome.cards.len() == 1));
    assert!(!outcomes.iter().any(|outcome| outcome.cards == cards("As")));
    assert!(!outcomes.iter().any(|outcome| outcome.cards == cards("7d")));

    let mut preflop = preflop_state(&heads_up_table());
    preflop.board = Vec::new();
    let flops = chance_outcomes(
        &preflop,
        Street::Flop,
        &ChanceConfig {
            enumerate_exact: true,
            max_outcomes_per_node: 0,
            ..ChanceConfig::default()
        },
    )
    .unwrap();
    assert_eq!(flops.len(), 22_100);
}

#[test]
fn each_fault_of_chance_outcomes_has_its_error() {
    let state = preflop_state(&heads_up_table());
    let ask = |config: ChanceConfig| chance_outcomes(&state, Street::Flop, &config).err();
    assert_eq!(
        ask(ChanceConfig::default()),
        Some(ChanceError::NotConfigured { next_street: Street::Flop })
    );
    let explicit = |outcomes: Vec<ChanceOutcome>, limit: usize| ChanceConfig {
        flop: Some(outcomes),
        max_outcomes_per_node: limit,
        ..ChanceConfig::default()
    };
    assert_eq!(ask(explicit(Vec::new(), 0)), Some(ChanceError::NoOutcomes));
    assert_eq!(
        ask(explicit(vec![outcome("As Kd Qh", -1.0)], 0)),
        Some(ChanceError::BadProbability)
    );
    assert!(matches!(
        ask(explicit(vec![outcome("As As Qh", 1.0)], 0)),
        Some(ChanceError::Cards { .. })
    ));
    assert_eq!(
        ask(explicit(vec![outcome("As Kd Qh", 1.0), outcome("2s 3d 4h", 1.0)], 1)),
        Some(ChanceError::ExplicitLimit { count: 2, limit: 1 })
    );
    assert_eq!(
        ask(ChanceConfig {
            enumerate_exact: true,
            max_outcomes_per_node: 100,
            ..ChanceConfig::default()
        }),
        Some(ChanceError::Limit { limit: 100 })
    );
}

/// Five cards as a number that grows with their strength.
fn five_card_score(hand: [Card; 5]) -> u64 {
    let mut ranks: Vec<u8> = hand.iter().map(|card| card / 4).collect();
    ranks.sort_unstable_by(|left, right| right.cmp(left));
    let flush = hand.iter().all(|card| card % 4 == hand[0] % 4);
    let wheel = ranks == [12, 3, 2, 1, 0];
    let straight = wheel || (0..4).all(|index| ranks[index] == ranks[index + 1] + 1);
    let mut groups: Vec<(usize, u8)> = Vec::new();
    for rank in &ranks {
        let count = ranks.iter().filter(|other| *other == rank).count();
        if !groups.contains(&(count, *rank)) {
            groups.push((count, *rank));
        }
    }
    groups.sort_unstable_by(|left, right| right.cmp(left));
    let shape: Vec<usize> = groups.iter().map(|group| group.0).collect();
    let category: u64 = if straight && flush {
        8
    } else if shape == [4, 1] {
        7
    } else if shape == [3, 2] {
        6
    } else if flush {
        5
    } else if straight {
        4
    } else if shape == [3, 1, 1] {
        3
    } else if shape == [2, 2, 1] {
        2
    } else if shape == [2, 1, 1, 1] {
        1
    } else {
        0
    };
    if straight {
        return category << 40 | if wheel { 3 } else { ranks[0] as u64 };
    }
    groups.iter().fold(category, |score, group| score << 8 | group.1 as u64)
        << (8 * (5 - groups.len()))
}

fn best_score(hand: Combo, board: &[Card]) -> u64 {
    let mut all = board.to_vec();
    all.push(hand.first);
    all.push(hand.second);
    let mut best = 0;
    for chosen in 0u32..1 << all.len() {
        if chosen.count_ones() == 5 {
            let five: Vec<Card> = (0..all.len())
                .filter(|index| chosen >> index & 1 == 1)
                .map(|index| all[index])
                .collect();
            best = best.max(five_card_score([five[0], five[1], five[2], five[3], five[4]]));
        }
    }
    best
}

/// What each seat wins or loses at a leaf; nothing at other nodes.
fn settle_node(node: &TreeNode, hands: &[Combo]) -> Option<Vec<f64>> {
    let state = &node.state;
    let mut payouts = vec![0.0; state.players.len()];
    match node.leaf {
        Some(LeafKind::Terminal(TerminalState::Fold { winner })) => {
            payouts[winner] = state.pot as f64;
        }
        Some(LeafKind::Terminal(TerminalState::Showdown)) => {
            let mut paid: Vec<u64> =
                state.players.iter().map(|player| player.committed_total).collect();
            let mut dead = state.dead_money;
            while paid.iter().any(|chips| *chips > 0) {
                let layer = paid.iter().copied().filter(|chips| *chips > 0).min().unwrap();
                let inside: Vec<usize> =
                    (0..paid.len()).filter(|seat| paid[*seat] > 0).collect();
                let pot = layer * inside.len() as u64 + dead;
                dead = 0;
                let contenders: Vec<usize> = inside
                    .iter()
                    .copied()
                    .filter(|seat| state.players[*seat].status != PlayerStatus::Folded)
                    .collect();
                let scores: Vec<u64> = contenders
                    .iter()
                    .map(|seat| best_score(hands[*seat], &state.board))
                    .collect();
                let top = scores.iter().copied().max().unwrap();
                let winners: Vec<usize> = (0..contenders.len())
                    .filter(|index| scores[*index] == top)
                    .map(|index| contenders[index])
                    .collect();
                for winner in &winners {
                    payouts[*winner] += pot as f64 / winners.len() as f64;
                }
                for seat in inside {
                    paid[seat] -= layer;
                }
            }
        }
        _ => return None,
    }
    Some(
        payouts
            .iter()
            .zip(&state.players)
            .map(|(payout, player)| payout - player.committed_total as f64)
            .collect(),
    )
}

fn pair_payoff(tree: &GameTree, hands: [Combo; 2]) -> HoldemChipEvPayoff {
    let settled = tree
        .nodes
        .iter()
        .map(|node| {
            settle_node(node, &hands).map(|utility| [bits(utility[0]), bits(utility[1])])
        })
        .collect();
    HoldemChipEvPayoff::new(hands.to_vec(), [0, 1], settled).unwrap()
}

fn game_sums_ok(game: &[GameNode]) -> Vec<bool> {
    game.iter()
        .map(|node| match node {
            GameNode::Chance { outcomes } => {
                let total: f64 = outcomes.iter().map(|entry| number(entry.0)).sum();
                (total - 1.0).abs() <= 1e-9
            }
            _ => true,
        })
        .collect()
}

fn compile_public(
    tree: &GameTree,
    hands: [Combo; 2],
) -> Result<CompiledHoldemGame, HoldemError> {
    let facts = facts_of(tree);
    let sums = vec![true; tree.nodes.len()];
    compile_holdem_tree(tree, &facts, &pair_payoff(tree, hands), &sums)
}

/// Probabilities of what is left of a chance node, to sum to one.
fn scaled_outcomes(draft: &Draft) -> Vec<Vec<u64>> {
    draft
        .nodes
        .iter()
        .map(|node| match node {
            MultiwayGameNode::Chance { outcomes } => {
                let total: f64 = outcomes.iter().map(|entry| number(entry.0)).sum();
                outcomes.iter().map(|entry| bits(number(entry.0) / total)).collect()
            }
            _ => Vec::new(),
        })
        .collect()
}

fn compile_private(tree: &GameTree, deals: &[PrivateDeal]) -> CompiledHoldemGame {
    let facts = facts_of(tree);
    let payoffs: Vec<HoldemChipEvPayoff> =
        deals.iter().map(|deal| pair_payoff(tree, deal.hands)).collect();
    let draft = compile_private_holdem_tree(tree, &facts, deals, &payoffs).unwrap();
    let scaled = scaled_outcomes(&draft);
    let sums = vec![true; draft.nodes.len()];
    finish_private(draft, &scaled, &sums).unwrap()
}

fn terminal_tree(terminal: TerminalState) -> GameTree {
    let state = GameState {
        table_size: 2,
        street: Street::River,
        board: cards("2s 7d 9c Kh Qh"),
        players: vec![player(0, 900, 100), player(1, 900, 100)],
        dead_money: 0,
        pot: 200,
        actor: None,
        current_bet: 0,
        min_raise_increment: 0,
        pending_players: Vec::new(),
        raise_allowed: Vec::new(),
        terminal: Some(terminal),
    };
    GameTree {
        root: 0,
        nodes: vec![TreeNode {
            id: 0,
            parent: None,
            action_from_parent: None,
            state,
            children: Vec::new(),
            leaf: Some(LeafKind::Terminal(terminal)),
            chance: None,
        }],
    }
}

#[test]
fn fold_payoff_is_pot_payout_less_contribution() {
    let tree = terminal_tree(TerminalState::Fold { winner: 0 });
    let hands = [combo("As Ah"), combo("Jc Js")];
    match pair_payoff(&tree, hands).settle(&tree.nodes[0]).unwrap() {
        Settlement::Fold(shares) => {
            let utilities: Vec<f64> =
                shares.iter().map(|share| share.payout as f64 - share.committed as f64).collect();
            assert_eq!(utilities, vec![100.0, -100.0]);
        }
        Settlement::Showdown => panic!("expected a fold"),
    }
    let compiled = compile_public(&tree, hands).unwrap();
    assert_eq!(compiled.game().nodes().len(), 1);
    match compiled.game().node(0).unwrap() {
        GameNode::Terminal { utility } => assert_eq!(*utility, [bits(100.0), bits(-100.0)]),
        other => panic!("expected terminal node, got {other:?}"),
    }
}

#[test]
fn showdown_payoff_uses_exact_chip_ev_settlement() {
    let tree = terminal_tree(TerminalState::Showdown);
    let compiled = compile_public(&tree, [combo("As Ah"), combo("Jc Js")]).unwrap();
    let GameNode::Terminal { utility } = compiled.game().node(0).unwrap() else {
        panic!("expected terminal node")
    };
    assert!(number(utility[0]) > number(utility[1]));
    assert!((number(utility[0]) + number(utility[1])).abs() < 1e-9);
}

#[test]
fn public_holdem_tree_compiles_and_preserves_actions() {
    let config = FullTreeBuildConfig {
        round: round_config(Vec::new(), 10_000, 64),
        chance: chance_config(
            vec![outcome("2s 7d 9c", 1.0)],
            vec![outcome("Kh", 1.0)],
            vec![outcome("Qh", 1.0)],
            10,
        ),
        postflop_order: vec![1, 0],
    };
    let tree = build_full(preflop_state(&heads_up_table()), &config).unwrap();
    let compiled = compile_public(&tree, [combo("As Ah"), combo("Jc Js")]).unwrap();

    assert_eq!(compiled.game().nodes().len(), tree.nodes.len());
    let root_actions = compiled.actions_at(tree.root).unwrap();
    assert!(root_actions.contains(&Action::Fold));
    assert!(root_actions.contains(&Action::Call));
    assert!(compiled
        .game()
        .nodes()
        .iter()
        .any(|node| matches!(node, GameNode::Chance { .. })));
}

fn current_strategy(data: &InfoSetData) -> Vec<f64> {
    let regrets: Vec<f64> = data.regret_sum.iter().map(|regret| number(*regret).max(0.0)).collect();
    let total: f64 = regrets.iter().sum();
    if total <= 0.0 {
        return vec![1.0 / regrets.len() as f64; regrets.len()];
    }
    regrets.iter().map(|regret| regret / total).collect()
}

fn shares_of(sums: &[u64]) -> Vec<f64> {
    let sums: Vec<f64> = sums.iter().map(|sum| number(*sum)).collect();
    let total: f64 = sums.iter().sum();
    if total <= 0.0 {
        return vec![1.0 / sums.len() as f64; sums.len()];
    }
    sums.iter().map(|sum| sum / total).collect()
}

struct Frame {
    player: Option<usize>,
    weights: Vec<f64>,
    reach: [f64; 2],
    chance_reach: f64,
    values: Vec<[f64; 2]>,
}

fn traverse_cfr_plus(solver: &mut CfrPlusSolver) {
    let mut walk = Walk::new(solver.game.root());
    let mut frames: Vec<Frame> = Vec::new();
    loop {
        match walk.next_step() {
            WalkStep::Finished => break,
            WalkStep::Enter(node) => {
                let (mut reach, mut chance_reach) = ([1.0, 1.0], 1.0);
                if let Some(parent) = frames.last() {
                    reach = parent.reach;
                    chance_reach = parent.chance_reach;
                    let weight = parent.weights[parent.values.len()];
                    match parent.player {
                        Some(player) => reach[player] *= weight,
                        None => chance_reach *= weight,
                    }
                }
                let mut frame = Frame {
                    player: None,
                    weights: Vec::new(),
                    reach,
                    chance_reach,
                    values: Vec::new(),
                };
                match solver.game.node(node).unwrap() {
                    GameNode::Terminal { utility } => {
                        frame.values.push([number(utility[0]), number(utility[1])]);
                    }
                    GameNode::Chance { outcomes } => {
                        frame.weights = outcomes.iter().map(|entry| number(entry.0)).collect();
                    }
                    GameNode::Decision { player, .. } => {
                        frame.player = Some(*player);
                        let place = solver.open(node).unwrap();
                        frame.weights = current_strategy(&solver.infosets.entries[place].1);
                    }
                }
                frames.push(frame);
                solver.visit(&mut walk).unwrap();
            }
            WalkStep::Leave(node) => {
                let frame = frames.pop().unwrap();
                let mut value = [0.0, 0.0];
                if frame.weights.is_empty() {
                    value = frame.values[0];
                }
                for (weight, child) in frame.weights.iter().zip(&frame.values) {
                    value[0] += weight * child[0];
                    value[1] += weight * child[1];
                }
                if let Some(player) = frame.player {
                    let other = frame.reach[1 - player] * frame.chance_reach;
                    let own = frame.reach[player] * frame.chance_reach;
                    let mut regrets = Vec::new();
                    let mut strategies = Vec::new();
                    for action in 0..frame.weights.len() {
                        let delta = other * (frame.values[action][player] - value[player]);
                        regrets.push(bits(delta));
                        strategies.push(bits(own * frame.weights[action]));
                    }
                    solver.learn(node, &regrets, &strategies, &plus).unwrap();
                }
                walk.leave();
                if let Some(parent) = frames.last_mut() {
                    parent.values.push(value);
                }
            }
        }
    }
}

fn run_cfr_plus(solver: &mut CfrPlusSolver, iterations: u64) {
    let mut schedule = Schedule::start(iterations, 1);
    loop {
        match schedule.next_step() {
            ScheduleStep::Finished => break,
            ScheduleStep::Traverse(_) => {
                traverse_cfr_plus(solver);
                schedule.turn();
            }
            ScheduleStep::EndIteration => solver.end_scheduled_iteration(&mut schedule),
        }
    }
}

fn average_value(solver: &CfrPlusSolver, node: usize) -> [f64; 2] {
    let mut value = [0.0, 0.0];
    let (weights, children): (Vec<f64>, Vec<usize>) = match solver.game.node(node).unwrap() {
        GameNode::Terminal { utility } => return [number(utility[0]), number(utility[1])],
        GameNode::Chance { outcomes } => (
            outcomes.iter().map(|entry| number(entry.0)).collect(),
            outcomes.iter().map(|entry| entry.1).collect(),
        ),
        GameNode::Decision { player, infoset, children } => {
            let data = solver.info(*player, *infoset).unwrap();
            (shares_of(&data.strategy_sum), children.clone())
        }
    };
    for (weight, child) in weights.iter().zip(children) {
        let below = average_value(solver, child);
        value[0] += weight * below[0];
        value[1] += weight * below[1];
    }
    value
}

/// Numbers for the classes of the grid, row by row.
fn grid_ids() -> Vec<u16> {
    (0..169).collect()
}

fn class_id(hand: Combo) -> u16 {
    let high = 12 - (hand.first / 4).max(hand.second / 4) as u16;
    let low = 12 - (hand.first / 4).min(hand.second / 4) as u16;
    if hand.first % 4 == hand.second % 4 {
        high * 13 + low
    } else {
        low * 13 + high
    }
}

fn matrix_texts(report: &RangeMatrixReport) -> MatrixTexts {
    let show = |value: u64| format!("{}", number(value));
    let optional = |value: Option<u64>| value.map(show).unwrap_or_default();
    MatrixTexts {
        utility: [show(report.average_utility[0]), show(report.average_utility[1])],
        matrices: report
            .matrices
            .iter()
            .map(|matrix| {
                matrix
                    .cells
                    .iter()
                    .map(|cell| CellTexts {
                        marginal_weight: optional(cell.marginal_weight),
                        actions: cell
                            .actions
                            .iter()
                            .map(|action| ActionTexts {
                                frequency: show(action.frequency),
                                counterfactual_ev: optional(action.counterfactual_ev),
                                ev_loss: optional(action.ev_loss),
                            })
                            .collect(),
                    })
                    .collect()
            })
            .collect(),
    }
}

fn strategy_report(
    compiled: &CompiledHoldemGame,
    checkpoint: &SolverCheckpoint,
    utility: [u64; 2],
) -> StrategyReport {
    let layouts = report_layout(compiled, checkpoint).unwrap();
    let values: Vec<InfoSetValues> = layouts
        .iter()
        .map(|layout| {
            let count = layout.actions.len();
            let frequencies = match layout.entry {
                Some(entry) => shares_of(&checkpoint.infosets[entry].strategy_sum),
                None => vec![1.0 / count as f64; count],
            };
            InfoSetValues {
                frequencies: frequencies.iter().map(|share| bits(*share)).collect(),
                counterfactual_evs: vec![Some(bits(0.0)); count],
                ev_losses: vec![Some(bits(0.0)); count],
            }
        })
        .collect();
    build_strategy_report(checkpoint, &layouts, &values, utility)
}

/// The weighted mean of the values that members of a class have.
fn class_mean(bucket: &RangeBucket, value_of: impl Fn(usize) -> Option<u64>) -> u64 {
    let known: Vec<(f64, f64)> = bucket
        .members
        .iter()
        .zip(&bucket.weights)
        .filter_map(|(member, weight)| {
            value_of(*member).map(|value| (number(*weight), number(value)))
        })
        .collect();
    let total: f64 = known.iter().map(|(weight, _)| weight).sum();
    bits(known.iter().map(|(weight, value)| weight * value).sum::<f64>() / total)
}

fn range_report(report: &StrategyReport, deals: &Vec<PrivateDeal>) -> RangeStrategyReport {
    let groups = marginal_groups(deals).unwrap();
    let weights: Vec<u64> = groups
        .entries
        .iter()
        .map(|entry| bits(entry.1.iter().map(|share| number(*share)).sum()))
        .collect();
    let ids: Vec<u16> =
        report.infosets.iter().map(|entry| class_id(entry.private_hand.unwrap())).collect();
    let buckets = bucket_infosets(report, &ids, &groups, &weights).unwrap();
    let bucket_values: Vec<BucketValues> = buckets
        .iter()
        .map(|bucket| {
            let marginal: f64 = bucket.weights.iter().map(|weight| number(*weight)).sum();
            let first = &report.infosets[bucket.members[0]];
            BucketValues {
                marginal_weight: bits(marginal),
                actions: (0..first.actions.len())
                    .map(|action| ActionValues {
                        frequency: bits(
                            bucket
                                .members
                                .iter()
                                .zip(&bucket.weights)
                                .map(|(member, weight)| {
                                    number(*weight)
                                        * number(report.infosets[*member].actions[action].frequency)
                                })
                                .sum::<f64>()
                                / marginal,
                        ),
                        counterfactual_ev: class_mean(bucket, |member| {
                            report.infosets[member].actions[action].counterfactual_ev
                        }),
                        ev_loss: class_mean(bucket, |member| {
                            report.infosets[member].actions[action].ev_loss
                        }),
                    })
                    .collect(),
            }
        })
        .collect();
    aggregate_strategy_report_by_deals(report, &buckets, &bucket_values)
}

#[test]
fn private_deal_compilation_shares_only_matching_private_information() {
    let config = FullTreeBuildConfig {
        round: round_config(Vec::new(), 10_000, 64),
        chance: chance_config(
            vec![outcome("2s 7d 9c", 1.0), outcome("3s 7h 9d", 1.0)],
            vec![outcome("Kh", 1.0)],
            vec![outcome("Qh", 1.0)],
            10,
        ),
        postflop_order: vec![1, 0],
    };
    let tree = build_full(preflop_state(&heads_up_table()), &config).unwrap();
    let deals = vec![
        PrivateDeal { probability: bits(0.5), hands: [combo("As Ah"), combo("Jc Js")] },
        PrivateDeal { probability: bits(0.5), hands: [combo("As Ah"), combo("2s 3h")] },
    ];
    let compiled = compile_private(&tree, &deals);
    let GameNode::Chance { outcomes } = compiled.game().node(0).unwrap() else {
        panic!("expected private-card chance root")
    };
    assert_eq!(outcomes.len(), 2);
    let first_root = outcomes[0].1;
    let second_root = outcomes[1].1;
    let (first_infoset, first_children) = match compiled.game().node(first_root).unwrap() {
        GameNode::Decision { player, infoset, children } => {
            assert_eq!(*player, 0);
            (*infoset, children.clone())
        }
        other => panic!("expected first private decision, got {other:?}"),
    };
    let infoset_at = |node: usize| match compiled.game().node(node).unwrap() {
        GameNode::Decision { infoset, .. } => *infoset,
        other => panic!("expected a private decision, got {other:?}"),
    };
    assert_eq!(first_infoset, infoset_at(second_root));
    assert_eq!(compiled.private_hands_at(first_root).unwrap()[0], combo("As Ah"));

    let first_after_call = first_children[1];
    let second_after_call = match compiled.game().node(second_root).unwrap() {
        GameNode::Decision { children, .. } => children[1],
        _ => unreachable!(),
    };
    assert_ne!(infoset_at(first_after_call), infoset_at(second_after_call));

    let again = compile_private(&tree, &deals).into_game();
    let sums = game_sums_ok(again.nodes());
    let mut solver = CfrPlusSolver::new(again, &sums).unwrap();
    run_cfr_plus(&mut solver, 20);
    let value = average_value(&solver, solver.game.root());
    assert_eq!(solver.iterations(), 20);
    assert!(value[0].is_finite() && value[1].is_finite());
    assert!((value[0] + value[1]).abs() < 1e-9);
    let root_strategy = shares_of(&solver.info(0, first_infoset).unwrap().strategy_sum);
    assert_eq!(root_strategy.len(), 2);
    assert!((root_strategy.iter().sum::<f64>() - 1.0).abs() < 1e-9);

    let checkpoint = solver.checkpoint();
    let utility = [bits(value[0]), bits(value[1])];
    let report = strategy_report(&compiled, &checkpoint, utility);
    assert!(!report.infosets.is_empty());
    assert_eq!(report.average_utility, utility);
    let root_report = report
        .infosets
        .iter()
        .find(|entry| entry.player == 0 && entry.infoset == first_infoset)
        .unwrap();
    assert_eq!(root_report.private_hand, Some(combo("As Ah")));
    assert_eq!(root_report.occurrences, 2);
    assert_eq!(root_report.actions.len(), 2);
    let total: f64 = root_report.actions.iter().map(|action| number(action.frequency)).sum();
    assert!((total - 1.0).abs() < 1e-9);
    assert!(root_report.actions.iter().all(|action| action.counterfactual_ev.is_some()));

    let range_report = range_report(&report, &deals);
    let root_class = range_report
        .classes
        .iter()
        .find(|class| {
            class.player == 0
                && class.public_node == Some(tree.root)
                && class.class_id == class_id(combo("As Ah"))
        })
        .unwrap();
    assert_eq!(root_class.combo_count, 1);
    assert!((number(root_class.marginal_weight) - 1.0).abs() < 1e-12);
    for (class_action, action) in root_class.actions.iter().zip(&root_report.actions) {
        assert_eq!(class_action.action, action.action);
        let ev = number(class_action.counterfactual_ev.unwrap());
        assert!((ev - number(action.counterfactual_ev.unwrap())).abs() < 1e-9);
    }
    let total: f64 = root_class.actions.iter().map(|action| number(action.frequency)).sum();
    assert!((total - 1.0).abs() < 1e-9);

    let matrix = range_report.to_matrix(&grid_ids()).unwrap();
    assert_eq!(matrix.schema_version, RANGE_RESULT_SCHEMA_VERSION);
    assert_eq!(
        matrix.rank_order,
        vec!['A', 'K', 'Q', 'J', 'T', '9', '8', '7', '6', '5', '4', '3', '2']
    );
    let root_matrix = matrix
        .matrices
        .iter()
        .find(|matrix| matrix.player == 0 && matrix.public_node == Some(tree.root))
        .unwrap();
    assert_eq!(root_matrix.cells.len(), RANGE_MATRIX_SIZE * RANGE_MATRIX_SIZE);
    let cell = |name: &str| {
        root_matrix.cells.iter().find(|cell| cell.class_name == name).unwrap()
    };
    assert_eq!(cell("AA").combo_count, Some(1));
    assert!((number(cell("AA").marginal_weight.unwrap()) - 1.0).abs() < 1e-12);
    assert_eq!((cell("AKs").row, cell("AKs").column), (0, 1));
    assert_eq!(cell("AKs").combo_count, None);
    assert_eq!((cell("AKo").row, cell("AKo").column), (1, 0));

    let csv = matrix.to_csv(&matrix_texts(&matrix));
    assert!(csv.lines().next().unwrap().contains("class_name"));
    assert!(csv.lines().any(|line| line.contains(",AA,")));
    assert!(csv.lines().count() > RANGE_MATRIX_SIZE * RANGE_MATRIX_SIZE);
}

#[test]
fn a_grid_is_written_with_the_ranks_that_it_holds() {
    let report = RangeMatrixReport {
        schema_version: 1,
        algorithm: SolverAlgorithm::CfrPlus,
        iterations: 7,
        average_utility: [bits(0.5), bits(-0.5)],
        rank_order: Vec::new(),
        matrices: vec![RangeMatrix {
            player: 1,
            public_node: None,
            cells: vec![RangeMatrixCell {
                row: 40,
                column: 2,
                row_rank: ',',
                column_rank: 'x',
                class_name: "??".to_string(),
                class_id: 9,
                combo_count: None,
                marginal_weight: None,
                actions: Vec::new(),
            }],
        }],
    };
    let csv = report.to_csv(&matrix_texts(&report));
    assert!(csv.ends_with('\n'));
    assert_eq!(csv.lines().count(), 2);
    assert_eq!(csv.lines().next().unwrap().split(',').count(), 21);
    assert_eq!(
        csv.lines().nth(1),
        Some("1,range_matrix,cfr_plus,7,0.5,-0.5,1,,40,2,\",\",x,??,9,,,,,,,")
    );
}

fn weighted(entries: &[(&str, f64)]) -> WeightedRange {
    WeightedRange {
        combos: entries
            .iter()
            .map(|(text, weight)| WeightedCombo {
                combo: combo(text),
                class_id: 0,
                weight: bits(*weight),
            })
            .collect(),
    }
}

fn mask(text: &str) -> u64 {
    cards(text).iter().fold(0, |mask, card| mask | 1u64 << card)
}

/// Deals of two ranges, with their shares of the whole.
fn range_deals(first: &WeightedRange, second: &WeightedRange, dead: u64) -> Vec<PrivateDeal> {
    let pairs = private_deals_from_ranges(first, second, dead).unwrap();
    let masses: Vec<f64> = pairs
        .iter()
        .map(|pair| {
            pair.weights.iter().map(|weights| number(weights.0) * number(weights.1)).sum()
        })
        .collect();
    let total: f64 = masses.iter().sum();
    pairs
        .iter()
        .zip(&masses)
        .map(|(pair, mass)| PrivateDeal {
            probability: bits(mass / total),
            hands: [pair.hands.0, pair.hands.1],
        })
        .collect()
}

#[test]
fn range_conditioned_batch_runs_and_resumes_from_checkpoint() {
    let tree = terminal_tree(TerminalState::Showdown);
    let first = weighted(&[("As Ah", 1.0)]);
    let second = weighted(&[("Jc Js", 1.0)]);
    let dead = mask("2s 7d 9c Kh Qh");
    let deals = range_deals(&first, &second, dead);
    assert_eq!(deals.len(), 1);
    let game = || compile_private(&tree, &deals).into_game();
    let sums = game_sums_ok(game().nodes());
    let mut solver = CfrPlusSolver::new_with_config_fingerprint(game(), &sums, 777).unwrap();
    run_cfr_plus(&mut solver, 4);
    let checkpoint = solver.checkpoint();
    assert_eq!(checkpoint.iterations, 4);
    assert_eq!(checkpoint.config_fingerprint, 777);
    assert!(average_value(&solver, solver.game.root())[0].is_finite());

    let mut resumed =
        CfrPlusSolver::from_checkpoint_with_config_fingerprint(game(), &sums, &checkpoint, 777)
            .unwrap();
    run_cfr_plus(&mut resumed, 4);
    assert_eq!(resumed.checkpoint().iterations, 8);
    assert_eq!(resumed.game.nodes().len(), solver.game.nodes().len());
    assert_eq!(
        CfrPlusSolver::from_checkpoint_with_config_fingerprint(game(), &sums, &checkpoint, 778)
            .err(),
        Some(SolverError::ConfigMismatch)
    );
}

#[test]
fn errors_are_told_in_words() {
    assert_eq!(
        CompileError::DuplicateAction { node: 3, action: Action::Bet { to: 250 } }.message(),
        "decision node 3 contains duplicate action Bet { to: 250 }"
    );
    let outside = CompileError::PlayerOutside { node: 4, player: 7 };
    assert_eq!(outside.message(), "generic solver supports players 0 and 1, got player 7");
    assert_eq!(
        outside.multiway_message(),
        "decision node 4 has player 7 outside private deal"
    );
    assert_eq!(
        SpotError::WrongActor { index: 2, player: 1, actor: Some(0) }.message(),
        "spot history action 2 belongs to player 1, expected actor Some(0)"
    );
    assert_eq!(
        SpotError::NotHero { actor: None, hero: 2 }.message(),
        "spot history ends at actor None, not hero 2"
    );
    assert_eq!(
        SpotError::HeroHandNotInRange { hand: Combo { first: 50, second: 51 } }.message(),
        "hero combo [50, 51] is absent or has zero weight in hero range"
    );
    assert_eq!(
        DrillError::UnknownAction { index: 9, actions: 3 }.message(),
        "drill responder returned action index 9, expected 0..3"
    );
    assert_eq!(
        TreeError::ParentMissesChild { parent: 1, node: 5 }.message(),
        "parent 1 does not reference child 5"
    );
}

#[test]
fn changed_ranges_do_not_resume() {
    let tree = terminal_tree(TerminalState::Showdown);
    let dead = mask("2s 7d 9c Kh Qh");
    let second = weighted(&[("Jc Js", 1.0)]);
    let deals = range_deals(&weighted(&[("As Ah", 1.0)]), &second, dead);
    let other = range_deals(&weighted(&[("Ac Ad", 1.0)]), &second, dead);
    let written = private_deals_fingerprint(&deals);

    // The two games have the same numbers: only the hands tell them apart.
    assert_eq!(
        compile_private(&tree, &deals).game().fingerprint(),
        compile_private(&tree, &other).game().fingerprint()
    );
    assert_eq!(check_private_deals(written, &deals), Ok(()));
    assert_eq!(check_private_deals(written, &other), Err(SolverError::DealsMismatch));

    let many = |first: &str| MultiwayPrivateDeal {
        probability: bits(1.0),
        hands: vec![combo(first), combo("Jc Js"), combo("3c 4d")],
    };
    let written = multiway_deals_fingerprint(&[many("As Ah")]);
    assert_eq!(check_multiway_deals(written, &[many("As Ah")]), Ok(()));
    assert_eq!(
        check_multiway_deals(written, &[many("Ac Ad")]),
        Err(SolverError::DealsMismatch)
    );
}

#[test]
fn range_expansion_is_blocker_aware_and_normalized() {
    let first = weighted(&[("As Ah", 2.0), ("Kc Kd", 1.0)]);
    let second = weighted(&[("Qs Qh", 1.0), ("As Jc", 3.0)]);
    let dead = mask("2c");
    let deals = range_deals(&first, &second, dead);

    assert_eq!(deals.len(), 3);
    let total: f64 = deals.iter().map(|deal| number(deal.probability)).sum();
    assert!((total - 1.0).abs() < 1e-12);
    assert!(deals
        .iter()
        .all(|deal| !deal.hands[0].conflicts(dead) && !deal.hands[1].conflicts(dead)));
    assert!(!deals
        .iter()
        .any(|deal| deal.hands == [combo("As Ah"), combo("As Jc")]));
    let kq_probability = deals
        .iter()
        .find(|deal| deal.hands == [combo("Kc Kd"), combo("Qs Qh")])
        .map(|deal| number(deal.probability))
        .unwrap();
    assert!((kq_probability - 1.0 / 6.0).abs() < 1e-12);
}

#[test]
fn round_complete_nodes_are_rejected_without_payoff() {
    let mut tree = terminal_tree(TerminalState::Showdown);
    tree.nodes[0].state.terminal = None;
    tree.nodes[0].leaf = Some(LeafKind::RoundComplete);
    let error = compile_public(&tree, [combo("As Ah"), combo("Jc Js")]).err();
    assert_eq!(
        error,
        Some(HoldemError::Compile(CompileError::RoundComplete { node: 0 }))
    );
    assert!(error.unwrap().message().contains("round-complete"));
}

fn full_tree(flop: &[&str], turn: &[&str], river: &[&str]) -> GameTree {
    let list = |texts: &[&str]| texts.iter().map(|text| outcome(text, 1.0)).collect();
    let config = FullTreeBuildConfig {
        round: round_config(vec![2_500], 10_000, 32),
        chance: chance_config(list(flop), list(turn), list(river), 10_000),
        postflop_order: vec![1, 0],
    };
    build_full(preflop_state(&heads_up_table()), &config).unwrap()
}

fn chance_nodes_for(tree: &GameTree, street: Street) -> Vec<&TreeNode> {
    tree.chance_nodes()
        .into_iter()
        .filter(|node| node.chance.as_ref().unwrap().next_street == street)
        .collect()
}

/// Boards are told apart by their longest suit.
fn coarse_bucket(board: &[Card]) -> usize {
    (0..4).map(|suit| board.iter().filter(|card| **card % 4 == suit).count()).max().unwrap()
}

struct Abstracted {
    tree: GameTree,
    rebuild_groups: Vec<Option<Vec<holdem_solver::card_abstraction::ChanceGrouping>>>,
    origins: Vec<usize>,
    stats: StatsAccumulator,
    grouped_streets: Vec<Street>,
}

fn abstract_cards(
    source: &GameTree,
    spec: CardAbstractionSpec,
) -> Result<Abstracted, AbstractionError> {
    source.validate(&facts_of(source)).unwrap();
    spec.check()?;
    let mut rebuild = TreeRebuild::new(source);
    let mut grouped_streets = Vec::new();
    while let Some(node) = rebuild.next_node(source) {
        if rebuild.needs_groups(source)? {
            let chance = source.nodes[node].chance.as_ref().unwrap();
            let buckets: Vec<usize> = chance
                .outcomes
                .iter()
                .map(|outcome| {
                    let mut board = source.nodes[node].state.board.clone();
                    board.extend_from_slice(&outcome.cards);
                    coarse_bucket(&board)
                })
                .collect();
            let groups = group_outcomes(chance, &buckets);
            let probabilities: Vec<u64> = groups
                .iter()
                .map(|group| {
                    bits(
                        group
                            .members
                            .iter()
                            .map(|member| number(chance.outcomes[*member].probability))
                            .sum(),
                    )
                })
                .collect();
            if !grouped_streets.contains(&chance.next_street) {
                grouped_streets.push(chance.next_street);
            }
            rebuild.place_merged(source, groups, &probabilities);
        } else {
            rebuild.place_plain(source);
        }
    }
    let mut rebuild_groups = Vec::new();
    std::mem::swap(&mut rebuild_groups, &mut rebuild.groups);
    let mut origins = Vec::new();
    std::mem::swap(&mut origins, &mut rebuild.origins);
    let stats = rebuild.stats;
    let tree = rebuild.finish(source);
    tree.validate(&facts_of(&tree)).unwrap();
    Ok(Abstracted { tree, rebuild_groups, origins, stats, grouped_streets })
}

#[test]
fn flop_twins_merge_and_representative_is_deterministic() {
    let tree = full_tree(&["As Ks Qs", "Ah Kh Qh", "9h 7d 2c"], &["Jh"], &["3s"]);
    let changed = abstract_cards(&tree, CardAbstractionSpec::structural(Granularity::Coarse)).unwrap();

    let flop_nodes = chance_nodes_for(&changed.tree, Street::Flop);
    assert!(!flop_nodes.is_empty());
    assert_eq!(flop_nodes.len(), chance_nodes_for(&tree, Street::Flop).len());
    for node in &flop_nodes {
        let chance = node.chance.as_ref().unwrap();
        assert_eq!(chance.outcomes.len(), 2);
        assert_eq!(chance.outcomes[0].cards, cards("As Ks Qs"));
        assert!((number(chance.outcomes[0].probability) - 2.0 / 3.0).abs() < 1e-12);
        assert_eq!(chance.outcomes[1].cards, cards("9h 7d 2c"));
        assert!((number(chance.outcomes[1].probability) - 1.0 / 3.0).abs() < 1e-12);
    }
    for street in [Street::Turn, Street::River] {
        for node in chance_nodes_for(&changed.tree, street) {
            assert_eq!(node.chance.as_ref().unwrap().outcomes.len(), 1);
        }
    }
    assert_eq!(changed.grouped_streets, vec![Street::Flop]);
    let per_street = changed.stats.into_per_street();
    let flop_stats = per_street.iter().find(|stats| stats.street == Street::Flop).unwrap();
    assert_eq!(flop_stats.nodes, flop_nodes.len());
    assert_eq!(flop_stats.outcomes_before, 3 * flop_nodes.len() as u64);
    assert_eq!(flop_stats.outcomes_after, 2 * flop_nodes.len() as u64);
}

#[test]
fn turn_outcomes_group_by_coarse_bucket() {
    let tree = full_tree(&["As Ks Qs"], &["Js", "Jh", "2c"], &["Td"]);
    let changed = abstract_cards(&tree, CardAbstractionSpec::structural(Granularity::Coarse)).unwrap();

    let turn_nodes = chance_nodes_for(&changed.tree, Street::Turn);
    assert_eq!(turn_nodes.len(), chance_nodes_for(&tree, Street::Turn).len());
    assert!(!turn_nodes.is_empty());
    for node in &turn_nodes {
        let chance = node.chance.as_ref().unwrap();
        assert_eq!(chance.outcomes.len(), 2);
        assert_eq!(chance.outcomes[0].cards, cards("Js"));
        assert!((number(chance.outcomes[0].probability) - 1.0 / 3.0).abs() < 1e-12);
        assert_eq!(chance.outcomes[1].cards, cards("2c"));
        assert!((number(chance.outcomes[1].probability) - 2.0 / 3.0).abs() < 1e-12);
    }
    assert_eq!(changed.grouped_streets, vec![Street::Turn]);
}

fn collect_chance_outcomes(tree: &GameTree) -> Vec<Vec<(Vec<Card>, u64)>> {
    tree.chance_nodes()
        .iter()
        .map(|node| {
            node.chance
                .as_ref()
                .unwrap()
                .outcomes
                .iter()
                .map(|outcome| (outcome.cards.clone(), outcome.probability))
                .collect()
        })
        .collect()
}

#[test]
fn transform_is_deterministic_and_idempotent() {
    let tree = full_tree(&["As Ks Qs"], &["Js", "Jh", "2c"], &["Td"]);
    let spec = CardAbstractionSpec::structural(Granularity::Coarse);
    let first = abstract_cards(&tree, spec).unwrap();
    let second = abstract_cards(&tree, spec).unwrap();
    assert_eq!(
        multiway_holdem_tree_fingerprint(&first.tree),
        multiway_holdem_tree_fingerprint(&second.tree)
    );
    assert_eq!(collect_chance_outcomes(&first.tree), collect_chance_outcomes(&second.tree));

    let again = abstract_cards(&first.tree, spec).unwrap();
    assert_eq!(
        multiway_holdem_tree_fingerprint(&again.tree),
        multiway_holdem_tree_fingerprint(&first.tree)
    );
    assert_eq!(again.stats.outcomes_before(), again.stats.outcomes_after());
}

#[test]
fn round_tree_without_chance_is_unchanged() {
    let tree =
        build_round(preflop_state(&heads_up_table()), &round_config(vec![2_500], 10_000, 32)).unwrap();
    let changed = abstract_cards(&tree, CardAbstractionSpec::structural(Granularity::Fine)).unwrap();
    assert_eq!(
        multiway_holdem_tree_fingerprint(&changed.tree),
        multiway_holdem_tree_fingerprint(&tree)
    );
    assert_eq!(changed.stats.chance_nodes(), 0);
    assert_eq!(changed.stats.outcomes_before(), 0);
    assert!(changed.stats.into_per_street().is_empty());
    assert!(changed.grouped_streets.is_empty());
}

#[test]
fn grouping_structure_records_members_and_masses() {
    let tree = full_tree(&["As Ks Qs", "Ah Kh Qh", "9h 7d 2c"], &["Jh"], &["3s"]);
    let changed = abstract_cards(&tree, CardAbstractionSpec::structural(Granularity::Coarse)).unwrap();
    let flop_node = chance_nodes_for(&changed.tree, Street::Flop)[0];
    let kept = flop_node.chance.as_ref().unwrap();
    let source = tree.nodes[changed.origins[flop_node.id]].chance.as_ref().unwrap();
    let list = changed.rebuild_groups[flop_node.id].as_ref().unwrap();
    assert_eq!(list.len(), 2);
    assert_eq!(source.outcomes[list[0].rep_index].cards, cards("As Ks Qs"));
    assert!((number(kept.outcomes[0].probability) - 2.0 / 3.0).abs() < 1e-12);
    assert_eq!(list[0].members, vec![0, 1]);
    assert!((number(source.outcomes[list[0].members[1]].probability) - 1.0 / 3.0).abs() < 1e-12);
    assert_eq!(list[1].members, vec![2]);
    assert!((number(kept.outcomes[1].probability) - 1.0 / 3.0).abs() < 1e-12);
    let turn_node = chance_nodes_for(&changed.tree, Street::Turn)[0];
    assert!(changed.rebuild_groups[turn_node.id].is_none());
}

fn blocking_walk(source: &GameTree, changed: &Abstracted, id: usize, hands: u64) -> f64 {
    let node = &changed.tree.nodes[id];
    if let Some(groups) = &changed.rebuild_groups[id] {
        let outcomes = &source.nodes[changed.origins[id]].chance.as_ref().unwrap().outcomes;
        let kept = &node.chance.as_ref().unwrap().outcomes;
        let mut lost = 0.0;
        for (index, group) in groups.iter().enumerate() {
            match lost_members(&kept[index].cards, outcomes, &group.members, hands).unwrap() {
                Some(members) => {
                    lost += members.iter().map(|member| number(outcomes[*member].probability)).sum::<f64>();
                }
                None => {
                    lost += number(kept[index].probability)
                        * blocking_walk(source, changed, node.children[index], hands);
                }
            }
        }
        return lost;
    }
    if let Some(chance) = &node.chance {
        if is_blocked(&chance.outcomes[0].cards, hands).unwrap() {
            return 0.0;
        }
        return blocking_walk(source, changed, node.children[0], hands);
    }
    if node.children.is_empty() {
        return 0.0;
    }
    node.children.iter().map(|child| blocking_walk(source, changed, *child, hands)).sum::<f64>()
        / node.children.len() as f64
}

#[test]
fn blocking_walk_counts_only_representative_loss() {
    let tree = full_tree(&["As Ks Qs", "Ah Kh Qh", "9h 7d 2c"], &["Jh"], &["3s"]);
    let changed = abstract_cards(&tree, CardAbstractionSpec::structural(Granularity::Coarse)).unwrap();
    let flop = chance_nodes_for(&changed.tree, Street::Flop)[0].id;
    let lost = |text: &str| blocking_walk(&tree, &changed, flop, mask(text));
    assert!((lost("As") - 1.0 / 3.0).abs() < 1e-9);
    assert!((lost("As Ks") - 1.0 / 3.0).abs() < 1e-9);
    assert!(lost("As Ah").abs() < 1e-12);
    assert!(lost("Ah").abs() < 1e-12);
    assert!(lost("2d").abs() < 1e-12);
}

/// All combos of a pair.
fn pair_range(rank: char) -> WeightedRange {
    let mut combos = Vec::new();
    for first in "shdc".chars() {
        for second in "shdc".chars() {
            if first < second {
                combos.push(WeightedCombo {
                    combo: combo(&format!("{rank}{first} {rank}{second}")),
                    class_id: 0,
                    weight: bits(1.0),
                });
            }
        }
    }
    WeightedRange { combos }
}

fn drawn_thresholds(probabilities: &[f64]) -> Vec<u64> {
    let mut total = 0.0;
    probabilities
        .iter()
        .map(|probability| {
            total += probability;
            (total * 9_007_199_254_740_992.0).ceil() as u64
        })
        .collect()
}

fn candidate_lists(ranges: &[WeightedRange], dead: u64) -> (Vec<Vec<Candidate>>, Vec<Vec<u64>>) {
    let lists: Vec<Vec<Candidate>> = ranges
        .iter()
        .enumerate()
        .map(|(player, range)| {
            let summed: Vec<Candidate> = group_weights(range, player, dead)
                .unwrap()
                .iter()
                .map(|group| Candidate {
                    combo: group.combo,
                    weight: bits(group.weights.iter().map(|weight| number(*weight)).sum()),
                })
                .collect();
            usable_candidates(&summed, player).unwrap()
        })
        .collect();
    let limits = lists
        .iter()
        .map(|list| {
            let weights: Vec<u64> = list.iter().map(|candidate| candidate.weight).collect();
            drawn_thresholds(&shares_of(&weights))
        })
        .collect();
    (lists, limits)
}

fn estimate(tree: &GameTree, changed: &Abstracted, seed: u64, samples: usize) -> (usize, f64) {
    let (lists, limits) =
        candidate_lists(&[pair_range('A'), pair_range('K'), pair_range('Q')], 0);
    let masks = sample_hand_masks(lists, limits, 0, seed, samples).unwrap();
    let lost: f64 = masks
        .iter()
        .map(|hands| blocking_walk(tree, changed, changed.tree.root, *hands))
        .sum();
    (masks.len(), lost / masks.len() as f64)
}

#[test]
fn blocking_estimate_is_deterministic_and_bounded() {
    let tree = full_tree(&["As Ks Qs", "Ah Kh Qh", "9h 7d 2c"], &["Jh"], &["3s"]);
    let changed = abstract_cards(&tree, CardAbstractionSpec::structural(Granularity::Coarse)).unwrap();
    let first = estimate(&tree, &changed, 0, 32);
    let second = estimate(&tree, &changed, 0, 32);
    assert_eq!(first.0, second.0);
    assert!((first.1 - second.1).abs() < 1e-12);
    assert!(first.0 > 0);
    assert!((0.0..=1.0).contains(&first.1));
    let other = estimate(&tree, &changed, 7, 32);
    assert!((0.0..=1.0).contains(&other.1));
}

#[test]
fn blocking_estimate_rejects_zero_samples() {
    assert_eq!(
        sample_hand_masks(Vec::new(), Vec::new(), 0, 0, 0).err(),
        Some(BlockingError::NoSamples)
    );
    let same = [weighted(&[("As Ah", 1.0)]), weighted(&[("As Kd", 1.0)]), weighted(&[("Qc Qd", 1.0)])];
    let (lists, limits) = candidate_lists(&same, 0);
    assert_eq!(
        sample_hand_masks(lists, limits, 0, 0, 1).err(),
        Some(BlockingError::NoLegalDeal)
    );
    assert!(matches!(
        sample_hand_masks(Vec::new(), Vec::new(), 0, 0, 1).err(),
        Some(BlockingError::Sampler(_))
    ));
}

#[test]
fn cards_sort_from_high_to_low() {
    assert_eq!(sorted_desc(&vec![3, 50, 7, 7, 0]), vec![50, 7, 7, 3, 0]);
    assert_eq!(sorted_desc(&Vec::new()), Vec::<u8>::new());
    assert_eq!(is_blocked(&vec![60], 0), Err(CardError::OutOfDeck { card: 60 }));
    assert_eq!(is_blocked(&vec![5, 5], 0), Err(CardError::Duplicate { card: 5 }));
}

#[test]
fn abstraction_requests_are_checked() {
    let spec = CardAbstractionSpec::equity(Granularity::Fine, 1);
    assert_eq!(spec.mode, CardAbstractionMode::Equity);
    assert_eq!(spec.check(), Err(AbstractionError::TooFewEquityGroups { groups: 1 }));
    assert_eq!(CardAbstractionSpec::equity(Granularity::Fine, 2).check(), Ok(()));
    let plain = CardAbstractionSpec::structural(Granularity::Medium);
    assert_eq!((plain.mode, plain.equity_groups), (CardAbstractionMode::Structure, 4));

    let mut tree = full_tree(&["As Ks Qs", "Ah Kh Qh"], &["Jh"], &["3s"]);
    let at = tree.chance_nodes()[0].id;
    tree.nodes[at].chance.as_mut().unwrap().next_street = Street::Preflop;
    assert_eq!(
        abstract_cards(&tree, plain).err(),
        Some(AbstractionError::LeadsToPreflop { node: at })
    );
    let mut stats = StatsAccumulator::default();
    stats.count(Street::River, 5, 3);
    stats.count(Street::River, 4, 4);
    assert_eq!(
        stats.river,
        StreetAccumulator { nodes: 2, outcomes_before: 9, outcomes_after: 7 }
    );
    assert_eq!((stats.chance_nodes(), stats.outcomes_before(), stats.outcomes_after()), (2, 9, 7));
}

fn action(player: usize, action: Action) -> MultiwayHoldemSpotAction {
    MultiwayHoldemSpotAction { player, action }
}

fn spot() -> MultiwayHoldemSpotConfig {
    MultiwayHoldemSpotConfig {
        table: table(3, 1, 2, 100),
        action_history: Vec::new(),
        ranges: vec![
            weighted(&[("As Jd", 1.0), ("Ah Jc", 1.0)]),
            weighted(&[("Kc Kd", 1.0)]),
            weighted(&[("Qs Qh", 1.0)]),
        ],
        dead_cards: 0,
        board_cards: Vec::new(),
        tree: MultiwayHoldemSpotTreeConfig::Full(FullTreeBuildConfig {
            round: round_config(vec![8, 12], 100_000, 32),
            chance: chance_config(
                vec![outcome("2s 3d 4c", 1.0)],
                vec![outcome("5h", 1.0)],
                vec![outcome("6s", 1.0)],
                10,
            ),
            postflop_order: Vec::new(),
        }),
        hero_player: 0,
        hero_hands: vec![combo("As Jd"), combo("Ah Jc")],
        hero_label: "AJo".to_string(),
        seed: 7,
        config_fingerprint: 0,
        max_private_attempts: 100,
        worker_count: 1,
        reduction_batch_size: 1,
        card_abstraction: None,
        blocking_samples: 0,
    }
}

fn flop_spot(board: &str) -> MultiwayHoldemSpotConfig {
    let mut config = spot();
    config.action_history = vec![
        action(0, Action::Raise { to: 5 }),
        action(1, Action::Fold),
        action(2, Action::Call),
    ];
    config.board_cards = cards(board);
    config.hero_player = 2;
    config.hero_hands = vec![combo("Qs Qh")];
    config.hero_label = "QQ".to_string();
    config
}

fn state_after_history(config: &MultiwayHoldemSpotConfig) -> Result<GameState, SpotError> {
    config.validate()?;
    let order = config.effective_postflop_order(&postflop_order(&config.table));
    let mut state = preflop_state(&config.table);
    let mut run = HistoryRun::start(config);
    loop {
        match run.next(config, &state)? {
            HistoryCommand::Apply { action } => state = apply_action(&state, action),
            HistoryCommand::Deal { cards } => {
                state = advance_to_next_street(&state, &cards, &order);
            }
            HistoryCommand::Done => return Ok(state),
        }
    }
}

fn spot_tree(config: &MultiwayHoldemSpotConfig) -> GameTree {
    let state = state_after_history(config).unwrap();
    match &config.tree {
        MultiwayHoldemSpotTreeConfig::Round(round) => build_round(state, round).unwrap(),
        MultiwayHoldemSpotTreeConfig::Full(full) => {
            let ordered = FullTreeBuildConfig {
                round: TreeBuildConfig {
                    action_sizes: full.round.action_sizes.clone(),
                    abstraction: None,
                    max_nodes: full.round.max_nodes,
                    max_depth: full.round.max_depth,
                },
                chance: ChanceConfig {
                    flop: full.chance.flop.clone(),
                    turn: full.chance.turn.clone(),
                    river: full.chance.river.clone(),
                    ..ChanceConfig::default()
                },
                postflop_order: config.effective_postflop_order(&postflop_order(&config.table)),
            };
            build_full(state, &ordered).unwrap()
        }
    }
}

#[test]
fn validates_history_and_builds_continuation_tree() {
    let mut config = spot();
    config.action_history = vec![action(1, Action::Call)];
    assert_eq!(
        state_after_history(&config).err(),
        Some(SpotError::WrongActor { index: 0, player: 1, actor: Some(0) })
    );
    config.action_history.clear();
    let tree = spot_tree(&config);
    assert_eq!(tree.root, 0);
    assert!(tree.node(tree.root).unwrap().state.actor == Some(0));
}

struct SpotFrame {
    point: Option<DecisionPoint>,
    weights: Vec<f64>,
    chosen: Option<usize>,
    reach: Vec<f64>,
    values: Vec<f64>,
}

fn run_task(solver: &MultiwayHoldemBatchSolver, task: ParallelBatchTask) -> ParallelTaskRun {
    let tree = solver.public_arena.tree();
    let (mut run, hands) =
        ParallelTaskRun::begin(&solver.private_sampler, 3, solver.max_private_attempts, task)
            .unwrap();
    let profile = solver.profile(hands).unwrap();
    let mut walk = Walk::new(tree.root);
    let mut frames: Vec<SpotFrame> = Vec::new();
    loop {
        match walk.next_step() {
            WalkStep::Finished => break,
            WalkStep::Enter(node) => {
                let shape = profile.shape(tree, node).unwrap();
                let mut reach = vec![1.0; 3];
                if let Some(parent) = frames.last() {
                    reach = parent.reach.clone();
                    if let Some(point) = parent.point {
                        reach[point.player] *=
                            parent.weights[parent.chosen.unwrap_or(parent.values.len())];
                    }
                }
                let mut frame = SpotFrame {
                    point: None,
                    weights: Vec::new(),
                    chosen: None,
                    reach,
                    values: Vec::new(),
                };
                match &shape {
                    Shape::Leaf => {
                        let utility = settle_node(&tree.nodes[node], profile.hands()).unwrap();
                        frame.values.push(utility[task.traverser]);
                    }
                    Shape::Chance(_) => {
                        let outcomes = profile.chance_outcomes(tree, node).unwrap();
                        let weights: Vec<u64> = outcomes.iter().map(|entry| entry.0).collect();
                        frame.weights = shares_of(&weights);
                    }
                    Shape::Decision(..) => {
                        let point = public_decision(tree, &profile, node).unwrap();
                        frame.point = Some(point);
                        frame.weights =
                            match ParallelTaskRun::snapshot_entry(&solver.infosets, point).unwrap() {
                                Some(place) => current_strategy(&solver.infosets.entries[place].1),
                                None => vec![1.0 / point.actions as f64; point.actions],
                            };
                    }
                }
                let limits = drawn_thresholds(&frame.weights);
                if let Plan::Only(position) =
                    run.visit(&mut walk, tree, &profile, &limits).unwrap()
                {
                    frame.chosen = Some(position);
                }
                frames.push(frame);
            }
            WalkStep::Leave(_) => {
                let frame = frames.pop().unwrap();
                let mut value = frame.values[0];
                if let (Some(point), None) = (frame.point, frame.chosen) {
                    value = frame.weights.iter().zip(&frame.values).map(|(w, v)| w * v).sum();
                    let others: f64 = (0..3)
                        .filter(|player| *player != point.player)
                        .map(|player| frame.reach[player])
                        .product();
                    let regrets: Vec<u64> = (0..point.actions)
                        .map(|at| bits(others * (frame.values[at] - value)))
                        .collect();
                    let strategies: Vec<u64> = (0..point.actions)
                        .map(|at| bits(frame.reach[point.player] * frame.weights[at]))
                        .collect();
                    run.record(point, &regrets, &strategies, &plus).unwrap();
                }
                walk.leave();
                if let Some(parent) = frames.last_mut() {
                    parent.values.push(value);
                }
            }
        }
    }
    run
}

fn solve_tree(
    config: &MultiwayHoldemSpotConfig,
    tree: GameTree,
    iterations: u64,
) -> MultiwayHoldemBatchSolver {
    config.check_solver_tree(&tree).unwrap();
    let facts = facts_of(&tree);
    let dead = config.solver_dead_cards().unwrap();
    let (lists, limits) = candidate_lists(&config.ranges, dead);
    let fingerprint = config.solver_fingerprint(multiway_holdem_tree_fingerprint(&tree));
    let mut solver = MultiwayHoldemBatchSolver::new(
        tree,
        &facts,
        lists,
        limits,
        dead,
        config.seed,
        fingerprint,
        config.max_private_attempts,
    )
    .unwrap();
    let mut run = ParallelRun::start(&solver, iterations, 1, config.reduction_batch_size).unwrap();
    while let Some(plan) = run.next_batch(&solver).unwrap() {
        let mut batch = BatchResults::new(plan.tasks.len());
        for (index, task) in plan.tasks.iter().enumerate() {
            batch.deliver(index, run_task(&solver, *task));
        }
        assert!(batch.can_count(&solver));
        run.finish_batch(&mut solver, &plan, &batch, &plus).unwrap();
    }
    solver
}

fn hero_report(
    config: &MultiwayHoldemSpotConfig,
    rows: &Vec<MultiwayBatchInfoSetReport>,
) -> Result<MultiwayHoldemSpotHeroReport, SpotError> {
    let weight: f64 = config
        .hero_hands
        .iter()
        .flat_map(|hand| positive_weights(&config.ranges[config.hero_player], *hand))
        .map(number)
        .sum();
    aggregate_hero_report(config, 0, rows, weight > 0.0 && weight.is_finite())
}

#[test]
fn solves_and_aggregates_requested_hero_combos() {
    let config = spot();
    let solver = solve_tree(&config, spot_tree(&config), 8);
    let rows = solver.report_rows().unwrap();
    let hero = hero_report(&config, &rows).unwrap();
    assert_eq!(hero.player, 0);
    assert_eq!(hero.label, "AJo");
    assert_eq!(hero.requested_hands, 2);
    assert!(!hero.observed_hands.is_empty());
    let mut frequencies = vec![0.0; hero.actions.len()];
    let mut weights = 0.0;
    for hand in &hero.observed_hands {
        let weight: f64 =
            positive_weights(&config.ranges[0], hand.private_hand).iter().map(|w| number(*w)).sum();
        weights += weight;
        let data = solver.info(0, hero.public_node, hand.private_hand).unwrap();
        assert_eq!(hand.visits, data.visits);
        for (sum, share) in frequencies.iter_mut().zip(shares_of(&data.strategy_sum)) {
            *sum += weight * share;
        }
    }
    let total: f64 = frequencies.iter().map(|frequency| frequency / weights).sum();
    assert!((total - 1.0).abs() < 1e-9);
    assert_eq!(hero.observed_hands.len() + hero.missing_hands.len(), 2);
}

#[test]
fn each_fault_of_a_hero_report_has_its_error() {
    let config = spot();
    let row = |hand: &str, actions: Vec<Action>| MultiwayBatchInfoSetReport {
        player: 0,
        public_node: 0,
        private_hand: combo(hand),
        visits: 1,
        positive_regrets: vec![0; actions.len()],
        actions,
    };
    assert_eq!(
        aggregate_hero_report(&config, 0, &Vec::new(), false).err(),
        Some(SpotError::NoRequestedWeight)
    );
    assert_eq!(
        aggregate_hero_report(&config, 0, &Vec::new(), true).err(),
        Some(SpotError::NoHandVisited)
    );
    let rows = vec![
        row("As Jd", vec![Action::Fold, Action::Call]),
        row("Ah Jc", vec![Action::Fold]),
    ];
    assert_eq!(
        aggregate_hero_report(&config, 0, &rows, true).err(),
        Some(SpotError::DifferentActions { hand: combo("Ah Jc") })
    );
    let rows = vec![row("As Jd", vec![Action::Fold, Action::Call])];
    let report = aggregate_hero_report(&config, 0, &rows, true).unwrap();
    assert_eq!(report.missing_hands, vec![combo("Ah Jc")]);
    assert_eq!(report.actions, vec![Action::Fold, Action::Call]);
}

#[test]
fn spot_result_exposes_consistent_tree_index() {
    let config = spot();
    let tree = spot_tree(&config);
    let index = tree_index(&tree);
    assert_eq!(index.len(), tree.nodes.len());
    for (node, entry) in tree.nodes.iter().zip(&index) {
        assert_eq!(entry.id, node.id);
        let mut listed: Vec<usize> = entry.actions.iter().map(|edge| edge.child).collect();
        if let Some(chance) = &entry.chance {
            listed.extend(chance.iter().map(|edge| edge.child));
        }
        listed.sort_unstable();
        let mut expected = node.children.clone();
        expected.sort_unstable();
        assert_eq!(listed, expected, "children mismatch at node {}", node.id);
    }
    let solver = solve_tree(&config, spot_tree(&config), 2);
    let hero = hero_report(&config, &solver.report_rows().unwrap()).unwrap();
    let hero_entry = &index[hero.public_node];
    assert_eq!(hero_entry.actor, Some(config.hero_player));
    assert!(!hero_entry.actions.is_empty());
    assert_eq!(hero_entry.street, "preflop");
    assert_eq!(hero_entry.players[0].status, "active");
    assert_eq!(hero_entry.players[1].committed, 1);
    assert_eq!(MULTIWAY_HOLDEM_SPOT_RESULT_SCHEMA_VERSION, 2);
    assert!(index.iter().any(|entry| entry.terminal == Some(TreeIndexEnd::Showdown)));
    assert!(index
        .iter()
        .any(|entry| matches!(entry.terminal, Some(TreeIndexEnd::Fold { .. }))));
    assert_eq!(street_name(Street::River), "river");
    assert_eq!(status_name(PlayerStatus::OutOfHand), "out_of_hand");
}

#[test]
fn spot_card_abstraction_wiring_structural_report_and_blocking() {
    let suited = |high: char, low: char| WeightedRange {
        combos: "shdc"
            .chars()
            .map(|suit| WeightedCombo {
                combo: combo(&format!("{high}{suit} {low}{suit}")),
                class_id: 0,
                weight: bits(1.0),
            })
            .collect(),
    };
    let mut config = spot();
    config.table = table(3, 500, 1_000, 10_000);
    config.ranges = vec![suited('A', 'K'), suited('K', 'Q'), pair_range('Q')];
    config.hero_hands = config.ranges[0].combos.iter().map(|entry| entry.combo).collect();
    config.hero_label = "AKs".to_string();
    config.blocking_samples = 32;
    config.tree = MultiwayHoldemSpotTreeConfig::Full(FullTreeBuildConfig {
        round: round_config(vec![2_500], 50_000, 32),
        chance: chance_config(
            vec![
                outcome("As Ks Qs", 1.0),
                outcome("Ah Kh Qh", 1.0),
                outcome("2d 7d 9c", 1.0),
            ],
            vec![outcome("Jh", 1.0)],
            vec![outcome("3s", 1.0)],
            10_000,
        ),
        postflop_order: vec![1, 2, 0],
    });

    let exact = spot_tree(&config);
    let spec = CardAbstractionSpec::structural(Granularity::Coarse);
    let changed = abstract_cards(&exact, spec).unwrap();
    assert!(changed.stats.chance_nodes() > 0);
    assert!(changed.stats.outcomes_before() > changed.stats.outcomes_after());
    assert_eq!(changed.grouped_streets, vec![Street::Flop]);

    let dead = config.solver_dead_cards().unwrap();
    assert_eq!(dead, mask("Jh 3s"));
    let run = || {
        let (lists, limits) = candidate_lists(&config.ranges, dead);
        let masks =
            sample_hand_masks(lists, limits, dead, config.seed, config.blocking_samples).unwrap();
        let lost: f64 = masks
            .iter()
            .map(|hands| blocking_walk(&exact, &changed, changed.tree.root, *hands))
            .sum();
        (masks.len(), lost / masks.len() as f64)
    };
    let (deals, fraction) = run();
    assert!(deals > 0);
    assert!((0.0..=1.0).contains(&fraction));
    assert_eq!(run(), (deals, fraction));

    let fingerprint = multiway_holdem_tree_fingerprint(&changed.tree);
    assert_ne!(fingerprint, multiway_holdem_tree_fingerprint(&exact));
    config.max_private_attempts = 1_000;
    let solver = solve_tree(&config, changed.tree, 4);
    assert!(!hero_report(&config, &solver.report_rows().unwrap())
        .unwrap()
        .observed_hands
        .is_empty());
}

#[test]
fn postflop_start_replays_srp_history_to_flop() {
    let config = flop_spot("2s 3d 4c");
    let state = state_after_history(&config).unwrap();
    assert_eq!(state.street, Street::Flop);
    assert_eq!(state.actor, Some(2));
    assert_eq!(state.board, cards("2s 3d 4c"));
    assert_eq!(state.current_bet, 0);
    assert_eq!(state.pot, 11);
}

#[test]
fn postflop_start_round_mode_builds_round_tree() {
    let mut config = flop_spot("2s 3d 4c");
    config.tree = MultiwayHoldemSpotTreeConfig::Round(TreeBuildConfig {
        action_sizes: ActionSizes { bet_to: vec![3], raise_to: Vec::new(), include_all_in: false },
        abstraction: None,
        max_nodes: 10_000,
        max_depth: 32,
    });
    let tree = spot_tree(&config);
    assert!(tree
        .leaf_nodes()
        .iter()
        .any(|node| matches!(node.leaf, Some(LeafKind::RoundComplete))));
    assert_eq!(config.check_solver_tree(&tree), Err(SpotError::RoundCompleteLeaves));
}

#[test]
fn postflop_start_consumes_street_boundaries_to_river() {
    let mut config = flop_spot("2s 3d 4c 5h 6s");
    for player in [2, 0, 2, 0] {
        config.action_history.push(action(player, Action::Check));
    }
    let state = state_after_history(&config).unwrap();
    assert_eq!(state.street, Street::River);
    assert_eq!(state.board.len(), 5);
    assert_eq!(state.actor, Some(2));
}

#[test]
fn postflop_start_rejects_inconsistent_boards() {
    let error = state_after_history(&flop_spot("2s 3d 4c 5h")).unwrap_err();
    assert_eq!(error, SpotError::UnusedBoard { remaining: 1 });
    assert!(error.message().contains("unconsumed"));
    let mut two_cards = spot();
    two_cards.board_cards = cards("2s 7d");
    let error = state_after_history(&two_cards).unwrap_err();
    assert_eq!(error, SpotError::UnusedBoard { remaining: 2 });
    assert!(error.message().contains("unconsumed"));
    let error = state_after_history(&flop_spot("")).unwrap_err();
    assert_eq!(error, SpotError::BetweenRounds);
    assert!(error.message().contains("between betting rounds"));
    assert_eq!(
        state_after_history(&flop_spot("2s 3d")).err(),
        Some(SpotError::ShortBoard { remaining: 2, needed: 3 })
    );
}

#[test]
fn postflop_start_solve_with_fixed_runout_and_wide_range() {
    let mut config = flop_spot("2s 3d 4c");
    config.ranges[1] = weighted(&[("5h 4h", 1.0), ("3h 2h", 1.0)]);
    assert_eq!(config.certain_public_mask(), Ok(mask("2s 3d 4c 5h 6s")));
    let tree = spot_tree(&config);
    assert_ne!(multiway_holdem_tree_fingerprint(&tree), 0);
    let solver = solve_tree(&config, tree, 8);
    let hero = hero_report(&config, &solver.report_rows().unwrap()).unwrap();
    assert!(!hero.observed_hands.is_empty());
}

#[test]
fn histories_that_end_elsewhere_are_refused() {
    let mut folded = spot();
    folded.action_history = vec![action(0, Action::Fold), action(1, Action::Fold)];
    assert_eq!(state_after_history(&folded).err(), Some(SpotError::TerminalState));
    folded.action_history.push(action(2, Action::Check));
    assert_eq!(state_after_history(&folded).err(), Some(SpotError::AfterTerminal { index: 2 }));
    let mut other = spot();
    other.action_history = vec![action(0, Action::Call)];
    assert_eq!(
        state_after_history(&other).err(),
        Some(SpotError::NotHero { actor: Some(1), hero: 0 })
    );
}

#[test]
fn each_fault_of_a_spot_has_its_error() {
    let fault = |change: &dyn Fn(&mut MultiwayHoldemSpotConfig)| {
        let mut config = spot();
        change(&mut config);
        config.validate().err()
    };
    assert_eq!(fault(&|_| {}), None);
    assert_eq!(
        fault(&|config| config.table.table_size = 2),
        Some(SpotError::TableSize { size: 2 })
    );
    assert_eq!(
        fault(&|config| {
            config.ranges.pop();
        }),
        Some(SpotError::RangeCount { ranges: 2, expected: 3 })
    );
    assert_eq!(
        fault(&|config| config.hero_player = 3),
        Some(SpotError::HeroOutsideTable { hero: 3, size: 3 })
    );
    assert_eq!(fault(&|config| config.hero_hands.clear()), Some(SpotError::NoHeroHands));
    assert_eq!(
        fault(&|config| config.max_private_attempts = 0),
        Some(SpotError::ZeroMaxPrivateAttempts)
    );
    assert_eq!(fault(&|config| config.worker_count = 0), Some(SpotError::ZeroWorkerCount));
    assert_eq!(
        fault(&|config| config.reduction_batch_size = 0),
        Some(SpotError::ZeroReductionBatchSize)
    );
    assert_eq!(
        fault(&|config| config.hero_hands.push(combo("As Jd"))),
        Some(SpotError::DuplicateHeroHand { hand: combo("As Jd") })
    );
    assert_eq!(
        fault(&|config| config.dead_cards = mask("Jd")),
        Some(SpotError::DeadHeroHand { hand: combo("As Jd") })
    );
    assert_eq!(
        fault(&|config| config.ranges[0].combos[1].weight = bits(0.0)),
        Some(SpotError::HeroHandNotInRange { hand: combo("Ah Jc") })
    );

    let mut clash = spot();
    clash.board_cards = cards("5h 7d 8d");
    assert_eq!(clash.certain_public_mask(), Err(SpotError::PublicCardConflict));
    clash.board_cards = vec![99];
    assert_eq!(
        clash.certain_public_mask(),
        Err(SpotError::BadCards(CardError::OutOfDeck { card: 99 }))
    );
    assert_eq!(spot().solver_fingerprint(5), 5);
    let mut fixed = spot();
    fixed.config_fingerprint = 9;
    assert_eq!(fixed.solver_fingerprint(5), 9);
}

/// The twelve combos of a class of two ranks of different suits.
fn offsuit(high: char, low: char) -> Vec<Combo> {
    let mut combos = Vec::new();
    for first in "shdc".chars() {
        for second in "shdc".chars() {
            if first != second {
                combos.push(combo(&format!("{high}{first} {low}{second}")));
            }
        }
    }
    combos
}

fn range_class(name: &str, combos: Vec<Combo>) -> RangeClass {
    RangeClass { name: name.to_string(), id: 1, combos }
}

fn pair_combos(rank: char) -> Vec<Combo> {
    pair_range(rank).combos.iter().map(|entry| entry.combo).collect()
}

fn street_json() -> MultiwayHoldemSpotStreetJson {
    MultiwayHoldemSpotStreetJson {
        explicit_bet_to: Vec::new(),
        bet_fractions: Vec::new(),
        explicit_raise_to: Vec::new(),
        raise_multipliers: Vec::new(),
        include_all_in: false,
    }
}

fn sample_job() -> MultiwayHoldemSpotJob {
    let range = |class: RangeClass| into_range(&vec![class], &Vec::new()).unwrap();
    MultiwayHoldemSpotJob {
        schema_version: MULTIWAY_HOLDEM_SPOT_SCHEMA_VERSION,
        table: MultiwayHoldemSpotTableJson {
            table_size: 3,
            button: 0,
            small_blind: 1,
            big_blind: 2,
            ante: 0,
            ante_mode: MultiwayHoldemSpotAnteModeJson::NoAnte,
            stacks: vec![100, 100, 100],
            dead_money: 0,
        },
        dead_cards: 0,
        history: Vec::new(),
        ranges: vec![
            range(range_class("AJo", offsuit('A', 'J'))),
            range(range_class("KK", pair_combos('K'))),
            range(range_class("QQ", pair_combos('Q'))),
        ],
        hero: MultiwayHoldemSpotHeroJson {
            player: 0,
            hand: "AJo".to_string(),
            label: None,
        },
        hero_hands: offsuit('A', 'J'),
        tree: MultiwayHoldemSpotTreeJson {
            mode: MultiwayHoldemSpotTreeModeJson::Round,
            max_nodes: 100,
            max_depth: 8,
            preflop: street_json(),
            flop: street_json(),
            turn: street_json(),
            river: street_json(),
            chance: MultiwayHoldemSpotChanceJson {
                flop: Vec::new(),
                turn: vec![outcome("5h", 1.0)],
                river: Vec::new(),
                enumerate_exact: true,
                max_outcomes_per_node: 9,
            },
            postflop_order: vec![1, 2, 0],
        },
        execution: MultiwayHoldemSpotExecutionJson::default(),
    }
}

#[test]
fn json_job_parses_hero_class_and_ranges() {
    let config = sample_job().into_config(true).unwrap();
    assert_eq!(config.hero_hands.len(), 12);
    assert_eq!(config.ranges[0].combos.len(), 12);
    assert_eq!(config.hero_label, "AJo");
    assert_eq!(config.ranges.len(), 3);
}

#[test]
fn json_history_action_uses_player_and_flattened_kind() {
    let mut job = sample_job();
    job.history = vec![
        MultiwayHoldemSpotActionJson {
            player: 2,
            action: MultiwayHoldemSpotActionKindJson::Raise { to: 7 },
        },
        MultiwayHoldemSpotActionJson {
            player: 1,
            action: MultiwayHoldemSpotActionKindJson::AllIn,
        },
    ];
    let config = job.into_config(true).unwrap();
    assert_eq!(
        config.action_history,
        vec![action(2, Action::Raise { to: 7 }), action(1, Action::AllIn)]
    );
}

#[test]
fn json_job_supports_exact_hero_combo_and_weight_override() {
    let weight = |hand: &str, weight: f64| MultiwayHoldemSpotClassWeightJson {
        hand: hand.to_string(),
        weight: bits(weight),
    };
    let classes = vec![
        range_class("AJo", offsuit('A', 'J')),
        range_class("KK", pair_combos('K')),
    ];
    let range = into_range(&classes, &vec![weight("AJo", 0.25)]).unwrap();
    let mut job = sample_job();
    job.ranges[0] = range;
    job.hero.hand = "As Jd".to_string();
    job.hero_hands = vec![combo("As Jd")];
    let config = job.into_config(true).unwrap();
    assert_eq!(config.hero_hands, vec![combo("As Jd")]);
    assert!(config.ranges[0].combos[..12].iter().all(|entry| number(entry.weight) == 0.25));
    assert!(config.ranges[0].combos[12..].iter().all(|entry| number(entry.weight) == 1.0));

    assert_eq!(
        into_range(&classes, &vec![weight("AJo", -1.0)]).err(),
        Some(SpotJobError::BadClassWeight { index: 0 })
    );
    assert_eq!(
        into_range(&classes, &vec![weight("AJo", 1.0), weight("AJo", 1.0)]).err(),
        Some(SpotJobError::DuplicateClassWeight { index: 1 })
    );
    assert_eq!(
        into_range(&classes, &vec![weight("AJo", 0.0), weight("KK", 0.0)]).err(),
        Some(SpotJobError::NoPositiveWeight)
    );
    assert_eq!(into_range(&Vec::new(), &Vec::new()).err(), Some(SpotJobError::NoPositiveWeight));
}

#[test]
fn jobs_are_checked_and_completed() {
    let mut old = sample_job();
    old.schema_version = 9;
    assert_eq!(
        old.into_config(true).err(),
        Some(SpotJobError::UnsupportedSchema { version: 9 })
    );
    assert_eq!(sample_job().into_config(false).err(), Some(SpotJobError::InvalidTable));
    let mut bad = sample_job();
    bad.hero.player = 8;
    assert_eq!(
        bad.into_config(true).err(),
        Some(SpotJobError::Spot(SpotError::HeroOutsideTable { hero: 8, size: 3 }))
    );
    let mut labelled = sample_job();
    labelled.hero.label = Some("hero".to_string());
    labelled.tree.mode = MultiwayHoldemSpotTreeModeJson::default();
    let config = labelled.into_config(true).unwrap();
    assert_eq!(config.hero_label, "hero");
    assert_eq!((config.max_private_attempts, config.worker_count), (10_000, 1));
    match &config.tree {
        MultiwayHoldemSpotTreeConfig::Full(full) => {
            assert!(full.chance.flop.is_none());
            assert_eq!(full.chance.turn.as_ref().map(|list| list.len()), Some(1));
            assert!(full.chance.enumerate_exact);
            assert_eq!(full.round.max_nodes, 100);
            assert_eq!(full.postflop_order, vec![1, 2, 0]);
        }
        MultiwayHoldemSpotTreeConfig::Round(_) => panic!("expected the whole tree"),
    }
    let execution = MultiwayHoldemSpotExecutionJson::default();
    assert_eq!((execution.checkpoint_interval, execution.keep_checkpoints), (1_000, 5));
    assert_eq!(
        MultiwayHoldemSpotAnteModeJson::default().to_domain(),
        AnteMode::NoAnte
    );
}

fn drill_spot() -> MultiwayHoldemSpotConfig {
    let mut config = flop_spot("2s 3d 4c");
    config.ranges = vec![
        weighted(&[("As Ah", 1.0), ("Qs Qh", 1.0)]),
        weighted(&[("Kc Kd", 1.0)]),
        weighted(&[("Qs Qh", 1.0), ("Qd Qc", 1.0)]),
    ];
    config.hero_hands = vec![combo("Qs Qh"), combo("Qd Qc")];
    config.max_private_attempts = 1000;
    if let MultiwayHoldemSpotTreeConfig::Full(full) = &mut config.tree {
        full.round.action_sizes.bet_to = vec![3, 6];
    }
    config
}

fn card_text(card: Card) -> String {
    let rank = "23456789TJQKA".chars().nth((card / 4) as usize).unwrap();
    let suit = "shdc".chars().nth((card % 4) as usize).unwrap();
    format!("{rank}{suit}")
}

fn start_drill(config: &MultiwayHoldemSpotConfig, params: DrillParams) -> Result<DrillRun, DrillError> {
    let state = state_after_history(config).unwrap();
    let tree = spot_tree(config);
    let sums: Vec<f64> = config
        .hero_hands
        .iter()
        .map(|hand| {
            positive_weights(&config.ranges[config.hero_player], *hand)
                .iter()
                .map(|weight| number(*weight))
                .sum()
        })
        .collect();
    let able: Vec<bool> = sums.iter().map(|sum| *sum > 0.0 && sum.is_finite()).collect();
    let places = playable_hands(config, &able)?;
    let hands: Vec<Combo> = places.iter().map(|place| config.hero_hands[*place]).collect();
    let weights: Vec<u64> = places.iter().map(|place| bits(sums[*place])).collect();
    let limits = drawn_thresholds(&shares_of(&weights));
    DrillRun::start(
        &params,
        config,
        &root_actions(&tree),
        hands,
        limits,
        true,
        multiway_holdem_tree_fingerprint(&tree),
        state.pot,
    )
}

fn play_drill(
    config: &MultiwayHoldemSpotConfig,
    params: DrillParams,
    answer: &dyn Fn(usize, usize) -> Option<usize>,
    saved: &Cell<usize>,
) -> DrillRun {
    let mut run = start_drill(config, params).unwrap();
    while let Some(prompt) = run.next_prompt().unwrap() {
        assert_eq!(prompt.pot, 11);
        assert!(card_text(prompt.hero_hand.first).starts_with('Q'));
        match run.answered(answer(prompt.hand_index, run.labels.len())).unwrap() {
            DrillStep::Quit => {}
            DrillStep::Evaluate { .. } => {
                let count = run.labels.len();
                let frequencies = run
                    .labels
                    .iter()
                    .map(|label| DrillFrequency {
                        action: label.to_string(),
                        frequency: bits(1.0 / count as f64),
                    })
                    .collect();
                run.recorded(
                    DrillLoss {
                        chips: bits(0.5),
                        big_blinds: bits(0.25),
                        pot_percent: bits(50.0 / 11.0),
                        standard_error: bits(0.0),
                        deals: params.ev_samples as u64,
                    },
                    frequencies,
                );
                saved.set(run.session.hands_completed);
            }
        }
    }
    run
}

fn drill_params(hands: usize, ev_samples: usize, seed: u64) -> DrillParams {
    DrillParams { hands, ev_samples, max_private_attempts: 1000, seed }
}

#[test]
fn drill_ten_hands_scripted_answers_full_session() {
    let config = drill_spot();
    let saved = Cell::new(0);
    let calls = Cell::new(0);
    let run = play_drill(
        &config,
        drill_params(10, 8, 7),
        &|_, _| {
            calls.set(calls.get() + 1);
            Some(0)
        },
        &saved,
    );
    let session = &run.session;
    assert_eq!(calls.get(), 10);
    assert_eq!(saved.get(), 10);
    assert_eq!(session.hands_completed, 10);
    assert_eq!(session.hands.len(), 10);
    assert!(session.hands.iter().enumerate().all(|(index, record)| {
        record.hand_index == index
            && record.loss.deals == 8
            && record.action == "check"
            && record.action_index == 0
            && (record.frequencies.iter().map(|entry| number(entry.frequency)).sum::<f64>() - 1.0)
                .abs()
                < 1e-6
    }));
    assert!(session.tree_fingerprint != 0);
    assert_eq!(session.format, "drill_session");
    assert_eq!(session.schema_version, 1);
    let state = state_after_history(&config).unwrap();
    assert_eq!(street_name(state.street), "flop");
    let texts: Vec<String> = state.board.iter().map(|card| card_text(*card)).collect();
    assert_eq!(cards_text(&texts), "2s 3d 4c");
}

#[test]
fn drill_early_quit_persists_partial_session() {
    let config = drill_spot();
    let saved = Cell::new(0);
    let answered = Cell::new(0);
    let run = play_drill(
        &config,
        drill_params(10, 4, 7),
        &|_, actions| {
            answered.set(answered.get() + 1);
            if answered.get() <= 3 {
                Some(actions - 1)
            } else {
                None
            }
        },
        &saved,
    );
    assert_eq!(answered.get(), 4);
    assert_eq!(run.session.hands_completed, 3);
    assert_eq!(saved.get(), 3);
    assert_eq!(run.session.hands.len(), 3);
    assert_eq!(run.session.hands[0].action, "bet 6");
}

#[test]
fn drill_is_deterministic_for_identical_solver_state() {
    let config = drill_spot();
    let saved = Cell::new(0);
    let first = play_drill(&config, drill_params(6, 4, 11), &|_, _| Some(0), &saved);
    let second = play_drill(&config, drill_params(6, 4, 11), &|_, _| Some(0), &saved);
    assert_eq!(format!("{:?}", first.session), format!("{:?}", second.session));
}

#[test]
fn each_fault_of_a_drill_has_its_error() {
    let config = drill_spot();
    assert_eq!(start_drill(&config, drill_params(0, 4, 1)).err(), Some(DrillError::ZeroHands));
    assert_eq!(start_drill(&config, drill_params(3, 0, 1)).err(), Some(DrillError::ZeroEvSamples));
    let start = |actions: Vec<Action>, hands: Vec<Combo>, total_ok: bool| {
        let limits = vec![u64::MAX; hands.len()];
        DrillRun::start(&drill_params(3, 1, 1), &config, &actions, hands, limits, total_ok, 1, 2)
    };
    assert_eq!(
        start(Vec::new(), vec![combo("Qs Qh")], true).err(),
        Some(DrillError::NoActions)
    );
    assert_eq!(
        start(vec![Action::Check], Vec::new(), true).err(),
        Some(DrillError::NoLegalHands)
    );
    let mut heavy = start(vec![Action::Check], vec![combo("Qs Qh")], false).unwrap();
    assert_eq!(heavy.next_prompt().err(), Some(DrillError::InvalidTotalWeight));
    let mut run = start(vec![Action::Check], vec![combo("Qs Qh")], true).unwrap();
    assert!(run.next_prompt().unwrap().is_some());
    assert_eq!(
        run.answered(Some(4)).err(),
        Some(DrillError::UnknownAction { index: 4, actions: 1 })
    );
    assert_eq!(
        playable_hands(&config, &vec![false, false]).err(),
        Some(DrillError::NoLegalHands)
    );
    let mut seatless = drill_spot();
    seatless.ranges.clear();
    assert_eq!(
        playable_hands(&seatless, &vec![true, true]).err(),
        Some(DrillError::NoHeroRange)
    );
    assert_eq!(
        DrillParams::default(),
        DrillParams { hands: 10, ev_samples: 256, max_private_attempts: 100_000, seed: 0 }
    );
    assert_eq!(action_label(&Action::Raise { to: 12 }), "raise to 12");
    assert_eq!(action_label(&Action::AllIn), "all-in");
}

fn street_sizing(bet_to: Vec<u64>, raise_to: Vec<u64>) -> StreetSizing {
    StreetSizing { explicit_bet_to: bet_to, explicit_raise_to: raise_to, ..StreetSizing::default() }
}

fn realistic_config(
    preflop: Vec<u64>,
    max_depth: usize,
    postflop_order: Vec<usize>,
) -> FullTreeBuildConfig {
    FullTreeBuildConfig {
        round: TreeBuildConfig {
            action_sizes: ActionSizes::default(),
            abstraction: Some(ActionAbstraction {
                preflop: street_sizing(Vec::new(), preflop),
                flop: street_sizing(vec![500], vec![1_500]),
                turn: street_sizing(vec![1_000], vec![3_000]),
                river: street_sizing(vec![2_000], vec![6_000]),
            }),
            max_nodes: 100_000,
            max_depth,
        },
        chance: chance_config(
            vec![outcome("2s 7d 9c", 1.0)],
            vec![outcome("5h", 1.0)],
            vec![outcome("Qh", 1.0)],
            4,
        ),
        postflop_order,
    }
}

fn realistic_heads_up() -> (GameTree, u64, Vec<PrivateDeal>) {
    let config = realistic_config(vec![300, 800], 64, vec![1, 0]);
    let tree = build_full(preflop_state(&table(2, 50, 100, 10_000)), &config).unwrap();
    let first = weighted(&[("As Ah", 2.0), ("Ad Ac", 2.0), ("Kc Kd", 1.0)]);
    let second = weighted(&[("Jc Js", 1.0), ("Jd Jh", 1.0), ("Ts Th", 2.0)]);
    let deals = range_deals(&first, &second, 0);
    (tree, config.fingerprint(), deals)
}

#[test]
fn realistic_heads_up_pipeline_builds_solves_and_exports_results() {
    let (tree, fingerprint, deals) = realistic_heads_up();
    assert!(tree.nodes.len() > 100, "tree was unexpectedly small");
    assert!(!tree.chance_nodes().is_empty());
    assert!(!tree.leaf_nodes().is_empty());
    assert_eq!(deals.len(), 9);
    let total: f64 = deals.iter().map(|deal| number(deal.probability)).sum();
    assert!((total - 1.0).abs() < 1e-12);

    let compiled = compile_private(&tree, &deals);
    assert!(compiled.node_count() > tree.nodes.len());
    assert_eq!(compiled.private_deal_count(), deals.len());

    let game = compile_private(&tree, &deals).into_game();
    let sums = game_sums_ok(game.nodes());
    let mut solver = CfrPlusSolver::new_with_config_fingerprint(game, &sums, fingerprint).unwrap();
    run_cfr_plus(&mut solver, 5);
    let checkpoint = solver.checkpoint();
    assert_eq!(checkpoint.config_fingerprint, fingerprint);
    let value = average_value(&solver, solver.game.root());
    assert!(value.iter().all(|value| value.is_finite()));
    assert!((value[0] + value[1]).abs() < 1e-8);

    let exact = strategy_report(&compiled, &checkpoint, [bits(value[0]), bits(value[1])]);
    assert!(!exact.infosets.is_empty());
    for infoset in &exact.infosets {
        assert!(!infoset.actions.is_empty());
        let total: f64 = infoset.actions.iter().map(|action| number(action.frequency)).sum();
        assert!((total - 1.0).abs() < 1e-9, "action frequencies sum to {total}");
        assert!(infoset.actions.iter().all(|action| number(action.frequency) >= 0.0));
    }

    let ranges = range_report(&exact, &deals);
    assert!(!ranges.classes.is_empty());
    let matrix = ranges.to_matrix(&grid_ids()).unwrap();
    assert!(!matrix.matrices.is_empty());
    assert!(matrix.matrices.iter().all(|matrix| matrix.cells.len() == 169));
    let csv = matrix.to_csv(&matrix_texts(&matrix));
    assert!(csv.starts_with("schema_version,format,algorithm"));
    assert!(csv.lines().count() > 169);
}

#[test]
fn realistic_checkpoint_resume_matches_one_shot_cfr_plus() {
    let (tree, fingerprint, deals) = realistic_heads_up();
    let game = || compile_private(&tree, &deals).into_game();
    let sums = game_sums_ok(game().nodes());
    let start = || CfrPlusSolver::new_with_config_fingerprint(game(), &sums, fingerprint).unwrap();
    let mut one_shot = start();
    run_cfr_plus(&mut one_shot, 6);
    let mut first_part = start();
    run_cfr_plus(&mut first_part, 3);
    let mut resumed = CfrPlusSolver::from_checkpoint_with_config_fingerprint(
        game(),
        &sums,
        &first_part.checkpoint(),
        fingerprint,
    )
    .unwrap();
    run_cfr_plus(&mut resumed, 3);

    let (left, right) = (resumed.checkpoint(), one_shot.checkpoint());
    assert_eq!(left.iterations, right.iterations);
    assert_eq!(left.game_fingerprint, right.game_fingerprint);
    assert_eq!(left.config_fingerprint, fingerprint);
    let resumed_value = average_value(&resumed, resumed.game.root());
    let one_shot_value = average_value(&one_shot, one_shot.game.root());
    for (left, right) in resumed_value.iter().zip(&one_shot_value) {
        assert!((left - right).abs() < 1e-9);
    }
    assert_eq!(left.infosets.len(), right.infosets.len());
    for (left, right) in left.infosets.iter().zip(&right.infosets) {
        assert_eq!((left.player, left.infoset), (right.player, right.infoset));
        assert_eq!(left.visits, right.visits);
        for (left, right) in left.strategy_sum.iter().zip(&right.strategy_sum) {
            assert!((number(*left) - number(*right)).abs() < 1e-9);
        }
    }
}

fn traverse_multiway(solver: &mut MultiwayMccfrSolver, traverser: usize) {
    let mut walk = Walk::new(solver.game().root());
    let mut frames: Vec<(Option<usize>, Vec<f64>, Option<usize>, Vec<f64>, Vec<f64>)> =
        Vec::new();
    loop {
        match walk.next_step() {
            WalkStep::Finished => break,
            WalkStep::Enter(node) => {
                let mut reach = vec![1.0; 3];
                if let Some((player, weights, chosen, above, values)) = frames.last() {
                    reach = above.clone();
                    if let Some(player) = player {
                        reach[*player] *= weights[chosen.unwrap_or(values.len())];
                    }
                }
                let mut weights = Vec::new();
                let mut values = Vec::new();
                let mut actor = None;
                match solver.game().node(node).unwrap() {
                    MultiwayGameNode::Terminal { utility } => {
                        values.push(number(utility[traverser]));
                    }
                    MultiwayGameNode::Chance { outcomes } => {
                        weights = outcomes.iter().map(|entry| number(entry.0)).collect();
                    }
                    MultiwayGameNode::Decision { player, .. } => {
                        actor = Some(*player);
                        let place = solver.open(node).unwrap();
                        weights = current_strategy(&solver.infosets.entries[place].1);
                    }
                }
                let limits = drawn_thresholds(&weights);
                let chosen = match solver.visit(&mut walk, traverser, &limits).unwrap() {
                    Plan::Only(position) => Some(position),
                    _ => None,
                };
                frames.push((actor, weights, chosen, reach, values));
            }
            WalkStep::Leave(node) => {
                let (actor, weights, chosen, reach, values) = frames.pop().unwrap();
                let mut value = values[0];
                if let (Some(player), None) = (actor, chosen) {
                    value = weights.iter().zip(&values).map(|(w, v)| w * v).sum();
                    let others: f64 = (0..3)
                        .filter(|other| *other != player)
                        .map(|other| reach[other])
                        .product();
                    let regrets: Vec<u64> = (0..weights.len())
                        .map(|at| bits(others * (values[at] - value)))
                        .collect();
                    let strategies: Vec<u64> = (0..weights.len())
                        .map(|at| bits(reach[player] * weights[at]))
                        .collect();
                    solver.learn(node, &regrets, &strategies, &plus).unwrap();
                }
                walk.leave();
                if let Some(parent) = frames.last_mut() {
                    parent.4.push(value);
                }
            }
        }
    }
}

fn run_multiway(solver: &mut MultiwayMccfrSolver, iterations: u64) {
    let mut schedule = Schedule::start(iterations, solver.game().player_count());
    loop {
        match schedule.next_step() {
            ScheduleStep::Finished => break,
            ScheduleStep::Traverse(traverser) => {
                traverse_multiway(solver, traverser);
                solver.end_scheduled_turn(&mut schedule);
            }
            ScheduleStep::EndIteration => solver.end_scheduled_iteration(&mut schedule),
        }
    }
}

fn multiway_average(solver: &MultiwayMccfrSolver, node: usize) -> Vec<f64> {
    let (weights, children): (Vec<f64>, Vec<usize>) = match solver.game().node(node).unwrap() {
        MultiwayGameNode::Terminal { utility } => {
            return utility.iter().map(|value| number(*value)).collect()
        }
        MultiwayGameNode::Chance { outcomes } => (
            outcomes.iter().map(|entry| number(entry.0)).collect(),
            outcomes.iter().map(|entry| entry.1).collect(),
        ),
        MultiwayGameNode::Decision { player, infoset, children } => (
            match solver.info(*player, *infoset) {
                Some(data) => shares_of(&data.strategy_sum),
                None => vec![1.0 / children.len() as f64; children.len()],
            },
            children.clone(),
        ),
    };
    let mut utility = vec![0.0; 3];
    for (weight, child) in weights.iter().zip(children) {
        if *weight > 0.0 {
            for (sum, value) in utility.iter_mut().zip(multiway_average(solver, child)) {
                *sum += weight * value;
            }
        }
    }
    utility
}

fn compile_multiway(tree: &GameTree, deals: &[MultiwayPrivateDeal]) -> MultiwayCompiledHoldemGame {
    let payoffs: Vec<MultiwayHoldemChipEvPayoff> = deals
        .iter()
        .map(|deal| {
            let settled = tree
                .nodes
                .iter()
                .map(|node| {
                    settle_node(node, &deal.hands)
                        .map(|utility| utility.iter().map(|value| bits(*value)).collect())
                })
                .collect();
            MultiwayHoldemChipEvPayoff::new(deal.hands.clone(), settled).unwrap()
        })
        .collect();
    let draft = compile_multiway_holdem_tree(tree, &facts_of(tree), deals, &payoffs).unwrap();
    let scaled = scaled_outcomes(&draft);
    let sums = vec![true; draft.nodes.len()];
    finish_multiway(draft, 3, &scaled, &sums).unwrap()
}

#[test]
fn realistic_three_way_holdem_compiles_and_runs_external_sampling() {
    let config = realistic_config(vec![300], 96, vec![1, 2, 0]);
    let tree = build_full(preflop_state(&table(3, 50, 100, 10_000)), &config).unwrap();
    assert!(tree.nodes.len() > 100);
    assert!(!tree.chance_nodes().is_empty());

    let ranges = [
        weighted(&[("As Ah", 1.0), ("Kc Kd", 1.0)]),
        weighted(&[("Jc Js", 1.0), ("Td Th", 1.0)]),
        weighted(&[("Qs Qd", 1.0), ("8c 8d", 1.0)]),
    ];
    let (lists, _) = candidate_lists(&ranges, 0);
    let profiles = multiway_private_deals_from_ranges(&lists, 0, 64).unwrap();
    assert_eq!(profiles.len(), 8);
    let masses: Vec<f64> = profiles
        .iter()
        .map(|profile| profile.iter().map(|candidate| number(candidate.weight)).product())
        .collect();
    let total: f64 = masses.iter().sum();
    let deals: Vec<MultiwayPrivateDeal> = profiles
        .iter()
        .zip(&masses)
        .map(|(profile, mass)| MultiwayPrivateDeal {
            probability: bits(mass / total),
            hands: profile.iter().map(|candidate| candidate.combo).collect(),
        })
        .collect();
    let total: f64 = deals.iter().map(|deal| number(deal.probability)).sum();
    assert!((total - 1.0).abs() < 1e-12);

    let compiled = compile_multiway(&tree, &deals);
    assert!(compiled.node_count() > tree.nodes.len());
    assert_eq!(compiled.private_deal_count(), 8);

    let fingerprint = config.fingerprint();
    let game = || -> MultiwayStaticGame { compile_multiway(&tree, &deals).into_game() };
    let sums = vec![true; compiled.node_count()];
    let mut first = MultiwayMccfrSolver::new(game(), &sums, 20260910, fingerprint).unwrap();
    run_multiway(&mut first, 4);
    let utility = multiway_average(&first, first.game().root());
    assert_eq!(utility.len(), 3);
    assert!(utility.iter().all(|value| value.is_finite()));
    assert!(utility.iter().sum::<f64>().abs() < 1e-8);
    let checkpoint = first.checkpoint();
    assert_eq!(checkpoint.player_count, 3);
    assert!(checkpoint.metrics.sampled_chance_nodes > 0);
    assert!(checkpoint.metrics.sampled_opponent_actions > 0);

    let mut resumed =
        MultiwayMccfrSolver::from_checkpoint(game(), &sums, &checkpoint, fingerprint).unwrap();
    run_multiway(&mut resumed, 2);
    assert_eq!(resumed.checkpoint().iterations, 6);
    let utility = multiway_average(&resumed, resumed.game().root());
    assert_eq!(utility.len(), 3);
    assert!(utility.iter().all(|value| value.is_finite()));
}
