//! Full and sampled solving of the reference games.
use holdem_solver::checkpoint::{
    InfoSetCheckpoint, InfoSetData, SolverAlgorithm, SolverCheckpoint, SolverError,
};
use holdem_solver::game::{GameError, GameNode, StaticGame};
use holdem_solver::reference_games::{kuhn_poker, leduc_poker, matching_pennies};
use holdem_solver::schedule::{Schedule, ScheduleStep};
use holdem_solver::solver::{CfrPlusSolver, MccfrSolver};
use holdem_solver::walk::{Plan, Walk, WalkStep};

fn bits(value: f64) -> u64 {
    value.to_bits()
}

fn number(bits: u64) -> f64 {
    f64::from_bits(bits)
}

/// The sum of two numbers.
fn plus(left: u64, right: u64) -> u64 {
    bits(number(left) + number(right))
}

fn sums_ok(game: &StaticGame) -> Vec<bool> {
    game.nodes()
        .iter()
        .map(|node| match node {
            GameNode::Chance { outcomes } => {
                let total: f64 = outcomes.iter().map(|outcome| number(outcome.0)).sum();
                (total - 1.0).abs() <= 1e-9
            }
            _ => true,
        })
        .collect()
}

fn current_strategy(data: &InfoSetData) -> Vec<f64> {
    let regrets: Vec<f64> = data.regret_sum.iter().map(|regret| number(*regret).max(0.0)).collect();
    let total: f64 = regrets.iter().sum();
    if total <= 0.0 {
        return vec![1.0 / regrets.len() as f64; regrets.len()];
    }
    regrets.iter().map(|regret| regret / total).collect()
}

fn average_strategy(data: &InfoSetData) -> Vec<f64> {
    let sums: Vec<f64> = data.strategy_sum.iter().map(|sum| number(*sum)).collect();
    let total: f64 = sums.iter().sum();
    if total <= 0.0 {
        return vec![1.0 / sums.len() as f64; sums.len()];
    }
    sums.iter().map(|sum| sum / total).collect()
}

/// Draws are 53-bit integers: a share of one becomes a threshold by scaling.
fn thresholds(probabilities: &[f64]) -> Vec<u64> {
    let mut total = 0.0;
    probabilities
        .iter()
        .map(|probability| {
            total += probability;
            (total * 9_007_199_254_740_992.0).ceil() as u64
        })
        .collect()
}

struct Frame {
    player: Option<usize>,
    weights: Vec<f64>,
    chosen: Option<usize>,
    reach: [f64; 2],
    chance_reach: f64,
    values: Vec<[f64; 2]>,
}

fn child_reach(frames: &[Frame]) -> ([f64; 2], f64) {
    match frames.last() {
        None => ([1.0, 1.0], 1.0),
        Some(frame) => {
            let position = frame.chosen.unwrap_or(frame.values.len());
            let mut reach = frame.reach;
            let mut chance_reach = frame.chance_reach;
            match frame.player {
                Some(player) => reach[player] *= frame.weights[position],
                None => chance_reach *= frame.weights[position],
            }
            (reach, chance_reach)
        }
    }
}

fn traverse_cfr_plus(solver: &mut CfrPlusSolver) {
    let mut walk = Walk::new(solver.game.root());
    let mut frames: Vec<Frame> = Vec::new();
    loop {
        match walk.next_step() {
            WalkStep::Finished => break,
            WalkStep::Enter(node) => {
                let (reach, chance_reach) = child_reach(&frames);
                let mut frame = Frame {
                    player: None,
                    weights: Vec::new(),
                    chosen: None,
                    reach,
                    chance_reach,
                    values: Vec::new(),
                };
                match solver.game.node(node).unwrap() {
                    GameNode::Terminal { utility } => {
                        frame.values.push([number(utility[0]), number(utility[1])]);
                    }
                    GameNode::Chance { outcomes } => {
                        frame.weights = outcomes.iter().map(|entry| number(entry.0)).collect();
                    }
                    GameNode::Decision { player, .. } => {
                        frame.player = Some(*player);
                        let place = solver.open(node).unwrap();
                        frame.weights = current_strategy(&solver.infosets.entries[place].1);
                    }
                }
                frames.push(frame);
                assert_eq!(solver.visit(&mut walk).unwrap(), node);
            }
            WalkStep::Leave(node) => {
                let frame = frames.pop().unwrap();
                let value = if frame.weights.is_empty() {
                    frame.values[0]
                } else {
                    let mut value = [0.0, 0.0];
                    for (weight, child) in frame.weights.iter().zip(&frame.values) {
                        value[0] += weight * child[0];
                        value[1] += weight * child[1];
                    }
                    value
                };
                if let Some(player) = frame.player {
                    let counterfactual = frame.reach[1 - player] * frame.chance_reach;
                    let own = frame.reach[player] * frame.chance_reach;
                    let mut regrets = Vec::new();
                    let mut strategies = Vec::new();
                    for action in 0..frame.weights.len() {
                        let delta =
                            counterfactual * (frame.values[action][player] - value[player]);
                        regrets.push(bits(delta));
                        strategies.push(bits(own * frame.weights[action]));
                    }
                    solver.learn(node, &regrets, &strategies, &plus).unwrap();
                }
                walk.leave();
                if let Some(parent) = frames.last_mut() {
                    parent.values.push(value);
                }
            }
        }
    }
}

fn run_cfr_plus(solver: &mut CfrPlusSolver, iterations: u64) {
    let mut schedule = Schedule::start(iterations, 1);
    loop {
        match schedule.next_step() {
            ScheduleStep::Finished => break,
            ScheduleStep::Traverse(_) => {
                traverse_cfr_plus(solver);
                schedule.turn();
            }
            ScheduleStep::EndIteration => solver.end_scheduled_iteration(&mut schedule),
        }
    }
}

fn traverse_mccfr(solver: &mut MccfrSolver, traverser: usize) {
    let mut walk = Walk::new(solver.game.root());
    let mut frames: Vec<Frame> = Vec::new();
    loop {
        match walk.next_step() {
            WalkStep::Finished => break,
            WalkStep::Enter(node) => {
                let (reach, chance_reach) = child_reach(&frames);
                let mut frame = Frame {
                    player: None,
                    weights: Vec::new(),
                    chosen: None,
                    reach,
                    chance_reach,
                    values: Vec::new(),
                };
                match solver.game.node(node).unwrap() {
                    GameNode::Terminal { utility } => {
                        frame.values.push([number(utility[0]), number(utility[1])]);
                    }
                    GameNode::Chance { outcomes } => {
                        frame.weights =
                            outcomes.iter().map(|entry| number(entry.0)).collect();
                    }
                    GameNode::Decision { player, .. } => {
                        frame.player = Some(*player);
                        let place = solver.open(node).unwrap();
                        frame.weights = current_strategy(&solver.infosets.entries[place].1);
                    }
                }
                let limits = thresholds(&frame.weights);
                match solver.visit(&mut walk, traverser, &limits).unwrap() {
                    Plan::Only(position) => frame.chosen = Some(position),
                    Plan::Everywhere | Plan::Nowhere => {}
                }
                frames.push(frame);
            }
            WalkStep::Leave(node) => {
                let frame = frames.pop().unwrap();
                let value = if frame.weights.is_empty() || frame.chosen.is_some() {
                    frame.values[0]
                } else {
                    let player = frame.player.unwrap();
                    let mut value = [0.0, 0.0];
                    for (weight, child) in frame.weights.iter().zip(&frame.values) {
                        value[0] += weight * child[0];
                        value[1] += weight * child[1];
                    }
                    let mut regrets = Vec::new();
                    let mut strategies = Vec::new();
                    for action in 0..frame.weights.len() {
                        let delta = frame.reach[1 - player]
                            * (frame.values[action][player] - value[player]);
                        regrets.push(bits(delta));
                        strategies.push(bits(frame.reach[player] * frame.weights[action]));
                    }
                    solver.learn(node, &regrets, &strategies, &plus).unwrap();
                    value
                };
                walk.leave();
                if let Some(parent) = frames.last_mut() {
                    parent.values.push(value);
                }
            }
        }
    }
}

fn run_mccfr(solver: &mut MccfrSolver, iterations: u64) {
    let mut schedule = Schedule::start(iterations, 2);
    loop {
        match schedule.next_step() {
            ScheduleStep::Finished => break,
            ScheduleStep::Traverse(traverser) => {
                traverse_mccfr(solver, traverser);
                schedule.turn();
            }
            ScheduleStep::EndIteration => solver.end_scheduled_iteration(&mut schedule),
        }
    }
}

fn average_value(
    game: &StaticGame,
    average: &dyn Fn(usize, u64) -> Option<Vec<f64>>,
    node: usize,
) -> [f64; 2] {
    let mut value = [0.0, 0.0];
    match game.node(node).unwrap() {
        GameNode::Terminal { utility } => return [number(utility[0]), number(utility[1])],
        GameNode::Chance { outcomes } => {
            for (probability, child) in outcomes {
                let below = average_value(game, average, *child);
                value[0] += number(*probability) * below[0];
                value[1] += number(*probability) * below[1];
            }
        }
        GameNode::Decision { player, infoset, children } => {
            let strategy = average(*player, *infoset)
                .unwrap_or_else(|| vec![1.0 / children.len() as f64; children.len()]);
            assert_eq!(strategy.len(), children.len());
            for (probability, child) in strategy.iter().zip(children) {
                let below = average_value(game, average, *child);
                value[0] += probability * below[0];
                value[1] += probability * below[1];
            }
        }
    }
    value
}

fn max_positive_regret(entries: &[InfoSetCheckpoint]) -> f64 {
    entries
        .iter()
        .flat_map(|entry| entry.regret_sum.iter())
        .map(|regret| number(*regret).max(0.0))
        .fold(0.0, f64::max)
}

fn cfr_plus(game: StaticGame) -> CfrPlusSolver {
    let sums = sums_ok(&game);
    CfrPlusSolver::new(game, &sums).unwrap()
}

fn mccfr(game: StaticGame, seed: u64) -> MccfrSolver {
    let sums = sums_ok(&game);
    MccfrSolver::new(game, &sums, seed).unwrap()
}

fn same_checkpoint(left: &SolverCheckpoint, right: &SolverCheckpoint) {
    assert_eq!(format!("{left:?}"), format!("{right:?}"));
}

#[test]
fn matching_pennies_game_is_valid() {
    let game = matching_pennies();
    assert_eq!(game.nodes().len(), 7);
    assert!(game.validate(&sums_ok(&game)).is_ok());
}

#[test]
fn cfr_plus_converges_to_matching_pennies_mix() {
    let mut solver = cfr_plus(matching_pennies());
    run_cfr_plus(&mut solver, 20_000);

    let player_zero = average_strategy(solver.info(0, 0).unwrap());
    let player_one = average_strategy(solver.info(1, 1).unwrap());
    assert!((player_zero[0] - 0.5).abs() < 0.03, "{player_zero:?}");
    assert!((player_one[0] - 0.5).abs() < 0.03, "{player_one:?}");
    assert_eq!(solver.info(0, 0).unwrap().visits, 20_000);
    assert!(max_positive_regret(&solver.checkpoint().infosets) >= 0.0);
}

#[test]
fn cfr_plus_checkpoint_round_trips_json_and_resumes() {
    let sums = sums_ok(&matching_pennies());
    let mut original =
        CfrPlusSolver::new_with_config_fingerprint(matching_pennies(), &sums, 1234).unwrap();
    run_cfr_plus(&mut original, 100);

    let checkpoint = original.checkpoint();
    assert_eq!(checkpoint.algorithm, SolverAlgorithm::CfrPlus);
    assert_eq!(checkpoint.game_fingerprint, matching_pennies().fingerprint());
    assert_eq!(checkpoint.config_fingerprint, 1234);

    let mut restored = CfrPlusSolver::from_checkpoint_with_config_fingerprint(
        matching_pennies(),
        &sums,
        &checkpoint,
        1234,
    )
    .unwrap();
    assert_eq!(restored.iterations(), 100);
    same_checkpoint(&checkpoint, &restored.checkpoint());
    run_cfr_plus(&mut original, 100);
    run_cfr_plus(&mut restored, 100);
    same_checkpoint(&original.checkpoint(), &restored.checkpoint());

    let other = kuhn_poker();
    let other_sums = sums_ok(&other);
    assert!(CfrPlusSolver::from_checkpoint(other, &other_sums, &checkpoint).is_err());
    assert!(CfrPlusSolver::from_checkpoint_with_config_fingerprint(
        matching_pennies(),
        &sums,
        &checkpoint,
        4321,
    )
    .is_err());
}

#[test]
fn external_sampling_mccfr_checkpoint_restores_rng_state() {
    let mut original = mccfr(kuhn_poker(), 123);
    run_mccfr(&mut original, 100);
    let checkpoint = original.checkpoint();
    let sums = sums_ok(&kuhn_poker());
    let mut restored = MccfrSolver::from_checkpoint(kuhn_poker(), &sums, &checkpoint).unwrap();

    run_mccfr(&mut original, 100);
    run_mccfr(&mut restored, 100);
    let left = original.checkpoint();
    let right = restored.checkpoint();
    assert_eq!(left.iterations, right.iterations);
    assert_eq!(left.rng_state, right.rng_state);
    assert_eq!(left.infosets.len(), right.infosets.len());
    for (left_entry, right_entry) in left.infosets.iter().zip(&right.infosets) {
        assert_eq!(
            (left_entry.player, left_entry.infoset),
            (right_entry.player, right_entry.infoset)
        );
        assert_eq!(left_entry.visits, right_entry.visits);
        for (left_value, right_value) in left_entry
            .regret_sum
            .iter()
            .chain(left_entry.strategy_sum.iter())
            .zip(right_entry.regret_sum.iter().chain(right_entry.strategy_sum.iter()))
        {
            assert!((number(*left_value) - number(*right_value)).abs() < 1e-12);
        }
    }
}

#[test]
fn external_sampling_mccfr_converges_to_matching_pennies_mix() {
    let mut solver = mccfr(matching_pennies(), 7);
    run_mccfr(&mut solver, 20_000);

    let player_zero = average_strategy(solver.info(0, 0).unwrap());
    let player_one = average_strategy(solver.info(1, 1).unwrap());
    assert!((player_zero[0] - 0.5).abs() < 0.06, "{player_zero:?}");
    assert!((player_one[0] - 0.5).abs() < 0.06, "{player_one:?}");
    assert_eq!(solver.iterations(), 20_000);
    assert!(max_positive_regret(&solver.checkpoint().infosets) >= 0.0);
}

#[test]
fn external_sampling_mccfr_handles_kuhn_chance_nodes() {
    let mut solver = mccfr(kuhn_poker(), 11);
    run_mccfr(&mut solver, 30_000);
    let average = |player: usize, infoset: u64| solver.info(player, infoset).map(average_strategy);
    let value = average_value(&solver.game, &average, solver.game.root());
    assert!((value[0] + 1.0 / 18.0).abs() < 0.05, "{value:?}");
    assert!((value[0] + value[1]).abs() < 1e-9, "{value:?}");
}

#[test]
fn kuhn_poker_is_valid_and_cfr_plus_reaches_reference_value() {
    let game = kuhn_poker();
    assert!(game.validate(&sums_ok(&game)).is_ok());

    let mut solver = cfr_plus(game);
    run_cfr_plus(&mut solver, 30_000);
    let average = |player: usize, infoset: u64| solver.info(player, infoset).map(average_strategy);
    let value = average_value(&solver.game, &average, solver.game.root());

    // The equilibrium value of the game for the first player is -1/18.
    assert!((value[0] + 1.0 / 18.0).abs() < 0.015, "{value:?}");
    assert!((value[0] + value[1]).abs() < 1e-9, "{value:?}");

    for infoset in [0, 1, 2, 100, 101, 102, 200, 201, 202, 300, 301, 302] {
        let player = if infoset >= 100 && infoset < 200 || infoset >= 300 { 1 } else { 0 };
        let strategy = average(player, infoset)
            .unwrap_or_else(|| panic!("missing infoset {infoset}"));
        assert_eq!(strategy.len(), 2);
        assert!((strategy.iter().sum::<f64>() - 1.0).abs() < 1e-9);
    }
}

#[test]
fn one_bet_leduc_is_valid_and_has_zero_sum_cfr_value() {
    let game = leduc_poker();
    assert!(game.validate(&sums_ok(&game)).is_ok());
    match game.node(game.root()).unwrap() {
        GameNode::Chance { outcomes } => {
            assert_eq!(outcomes.len(), 30);
            let total: f64 = outcomes.iter().map(|outcome| number(outcome.0)).sum();
            assert!((total - 1.0).abs() < 1e-9);
        }
        other => panic!("expected private-card chance root, got {other:?}"),
    }

    let mut solver = cfr_plus(game);
    run_cfr_plus(&mut solver, 2_000);
    let average = |player: usize, infoset: u64| solver.info(player, infoset).map(average_strategy);
    let value = average_value(&solver.game, &average, solver.game.root());
    assert!(value[0].is_finite() && value[1].is_finite());
    assert!((value[0] + value[1]).abs() < 1e-9, "{value:?}");

    for (player, infoset) in [(0, 1_000), (1, 1_100), (1, 1_200), (0, 2_000), (1, 2_100)] {
        let strategy = average(player, infoset)
            .unwrap_or_else(|| panic!("missing infoset {player}:{infoset}"));
        assert_eq!(strategy.len(), 2);
        assert!((strategy.iter().sum::<f64>() - 1.0).abs() < 1e-9);
    }
}

#[test]
fn each_fault_of_a_game_has_its_error() {
    let terminal = || GameNode::Terminal { utility: [bits(1.0), bits(-1.0)] };
    let decision = |player: usize, children: Vec<usize>| GameNode::Decision {
        player,
        infoset: 0,
        children,
    };
    let chance = |outcomes: Vec<(f64, usize)>| GameNode::Chance {
        outcomes: outcomes.iter().map(|(share, child)| (bits(*share), *child)).collect(),
    };
    let build = |root: usize, nodes: Vec<GameNode>, sums: &[bool]| {
        StaticGame::new(root, nodes, sums).err()
    };
    assert_eq!(build(0, Vec::new(), &[]), Some(GameError::NoNodes));
    assert_eq!(build(1, vec![terminal()], &[true]), Some(GameError::RootOutOfRange));
    assert_eq!(
        build(0, vec![decision(2, vec![1]), terminal()], &[true, true]),
        Some(GameError::UnsupportedPlayer { player: 2 })
    );
    assert_eq!(
        build(0, vec![decision(0, Vec::new())], &[true]),
        Some(GameError::NoActions { node: 0 })
    );
    assert_eq!(
        build(0, vec![decision(0, vec![5])], &[true]),
        Some(GameError::InvalidChild { node: 0, child: 5 })
    );
    assert_eq!(
        build(0, vec![chance(Vec::new())], &[true]),
        Some(GameError::NoOutcomes { node: 0 })
    );
    assert_eq!(
        build(0, vec![chance(vec![(-0.5, 1)]), terminal()], &[true, true]),
        Some(GameError::InvalidProbability { node: 0 })
    );
    assert_eq!(
        build(0, vec![chance(vec![(1.0, 9)]), terminal()], &[true, true]),
        Some(GameError::InvalidChanceChild { node: 0, child: 9 })
    );
    assert_eq!(
        build(0, vec![chance(vec![(0.5, 1)]), terminal()], &[false, true]),
        Some(GameError::BadProbabilitySum { node: 0 })
    );
    assert_eq!(
        build(0, vec![GameNode::Terminal { utility: [bits(f64::NAN), 0] }], &[true]),
        Some(GameError::NonFiniteUtility { node: 0 })
    );
    assert!(StaticGame::new(0, vec![terminal()], &[true]).is_ok());
}

#[test]
fn checkpoints_of_other_solvers_and_games_are_refused() {
    let sums = sums_ok(&matching_pennies());
    let mut solver = cfr_plus(matching_pennies());
    run_cfr_plus(&mut solver, 3);

    let sampled =
        MccfrSolver::from_checkpoint(matching_pennies(), &sums, &solver.checkpoint()).err();
    assert_eq!(
        sampled,
        Some(SolverError::AlgorithmMismatch {
            written_by: SolverAlgorithm::CfrPlus,
            resumed_by: SolverAlgorithm::ExternalSamplingMccfr,
        })
    );
    let kuhn_sums = sums_ok(&kuhn_poker());
    assert_eq!(
        CfrPlusSolver::from_checkpoint(kuhn_poker(), &kuhn_sums, &solver.checkpoint()).err(),
        Some(SolverError::GameMismatch)
    );
    assert_eq!(
        CfrPlusSolver::from_checkpoint_with_config_fingerprint(
            matching_pennies(),
            &sums,
            &solver.checkpoint(),
            1,
        )
        .err(),
        Some(SolverError::ConfigMismatch)
    );

    let resume = |change: &dyn Fn(&mut SolverCheckpoint)| {
        let mut checkpoint = solver.checkpoint();
        change(&mut checkpoint);
        CfrPlusSolver::from_checkpoint(matching_pennies(), &sums, &checkpoint).err()
    };
    assert_eq!(resume(&|_| {}), None);
    assert_eq!(
        resume(&|checkpoint| checkpoint.format_version = 2),
        Some(SolverError::UnsupportedVersion { version: 2 })
    );
    assert_eq!(
        resume(&|checkpoint| checkpoint.rng_state = Some(1)),
        Some(SolverError::UnexpectedRngState)
    );
    assert_eq!(
        resume(&|checkpoint| checkpoint.infosets[0].player = 2),
        Some(SolverError::InvalidPlayer { player: 2 })
    );
    assert_eq!(
        resume(&|checkpoint| {
            let player = checkpoint.infosets[0].player;
            let infoset = checkpoint.infosets[0].infoset;
            checkpoint.infosets[1].player = player;
            checkpoint.infosets[1].infoset = infoset;
        }),
        Some(SolverError::DuplicateInfoSet { player: 0, infoset: 0 })
    );
    assert_eq!(
        resume(&|checkpoint| checkpoint.infosets[0].strategy_sum.clear()),
        Some(SolverError::InvalidActionVectors { player: 0, infoset: 0 })
    );
    assert_eq!(
        resume(&|checkpoint| checkpoint.infosets[0].regret_sum[0] = bits(f64::INFINITY)),
        Some(SolverError::InvalidValues { player: 0, infoset: 0 })
    );
    assert_eq!(
        resume(&|checkpoint| checkpoint.infosets[0].infoset = 77),
        Some(SolverError::UnknownInfoSet { player: 0, infoset: 77 })
    );
    assert_eq!(
        resume(&|checkpoint| {
            checkpoint.infosets[0].regret_sum.push(0);
            checkpoint.infosets[0].strategy_sum.push(0);
        }),
        Some(SolverError::ActionCountMismatch {
            player: 0,
            infoset: 0,
            found: 3,
            expected: 2,
        })
    );

    let mut sampled = mccfr(matching_pennies(), 5).checkpoint();
    sampled.rng_state = None;
    assert_eq!(
        MccfrSolver::from_checkpoint(matching_pennies(), &sums, &sampled).err(),
        Some(SolverError::MissingRngState)
    );
    sampled.rng_state = Some(0);
    assert_eq!(
        MccfrSolver::from_checkpoint(matching_pennies(), &sums, &sampled).err(),
        Some(SolverError::ZeroRngState)
    );
}

#[test]
fn opening_what_is_no_decision_is_an_error() {
    let mut solver = cfr_plus(kuhn_poker());
    let root = solver.game.root();
    assert_eq!(solver.open(root).err(), Some(SolverError::NotADecision { node: root }));
    assert_eq!(solver.open(10_000).err(), Some(SolverError::UnknownNode { node: 10_000 }));
}

#[test]
fn regrets_are_floored_and_visits_counted() {
    let mut solver = cfr_plus(matching_pennies());
    let root = solver.game.root();
    solver.open(root).unwrap();
    let (regrets, strategies) = (vec![bits(-1.5), bits(2.5)], vec![bits(0.25), bits(0.75)]);
    solver.learn(root, &regrets, &strategies, &plus).unwrap();
    let data = solver.info(0, 0).unwrap();
    assert_eq!(data.regret_sum, vec![bits(0.0), bits(2.5)]);
    assert_eq!(data.strategy_sum, vec![bits(0.25), bits(0.75)]);
    assert_eq!(data.visits, 1);
    assert!(solver.info(1, 0).is_none());
    solver.learn(root, &regrets, &strategies, &plus).unwrap();
    let data = solver.info(0, 0).unwrap();
    assert_eq!(data.regret_sum, vec![bits(0.0), bits(5.0)]);
    assert_eq!(data.strategy_sum, vec![bits(0.5), bits(1.5)]);
    assert_eq!(data.visits, 2);
    assert_eq!(
        solver.learn(10_000, &regrets, &strategies, &plus),
        Err(SolverError::UnknownNode { node: 10_000 })
    );
}
