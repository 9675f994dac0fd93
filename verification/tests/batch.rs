//! Sampled solving for three and more players: games, deals, batches and jobs.
use holdem_solver::arena::{ArenaError, MultiwayHoldemPublicProfile};
use holdem_solver::batch::{
    compiled_decision, public_decision, BatchError, DecisionPoint, MultiwayHoldemBatchSolver,
};
use holdem_solver::batch_metrics::{
    default_profile_cache_capacity, MetricsField, MultiwayBatchSamplingMetrics,
};
use holdem_solver::batch_report::{
    batch_report_to_csv, BatchRowTexts, MULTIWAY_BATCH_RESULT_SCHEMA_VERSION,
};
use holdem_solver::batch_store::{make_batch_key, BatchCheckpointError};
use holdem_solver::cards::{Card, Combo};
use holdem_solver::checkpoint::{InfoSetData, SolverError};
use holdem_solver::compile::CompileError;
use holdem_solver::domain::{
    Action, GameState, PlayerState, PlayerStatus, Position, Street, TerminalState,
};
use holdem_solver::game::GameError;
use holdem_solver::holdem::{
    compile_multiway_holdem_tree, finish_multiway, MultiwayCompiledHoldemGame, MultiwayPrivateDeal,
};
use holdem_solver::job::{
    JobCommand, JobError, JobRun, MultiwayBatchJobConfig, MultiwayBatchJobManifest,
    MultiwayBatchJobStatus,
};
use holdem_solver::job_files::{
    checkpoint_filename, files_to_rotate, is_checkpoint_name, unique_temporary_path,
    MultiwayBatchJobStore,
};
use holdem_solver::multiway::{
    MultiwayError, MultiwayGameNode, MultiwayMccfrSolver, MultiwaySolverError, MultiwayStaticGame,
};
use holdem_solver::parallel::{
    plan_batch, usable_workers, worker_tasks, ParallelBatchTask, ParallelError,
    ParallelTaskRun,
};
use holdem_solver::reduction::{BatchResults, ParallelRun};
use holdem_solver::payoff::{MultiwayHoldemChipEvPayoff, PayoffError, Settlement};
use holdem_solver::profile_cache::MultiwayCompiledProfileCache;
use holdem_solver::ranges::{
    group_weights, multiway_private_deals_from_ranges, usable_candidates, Candidate, RangeError,
    WeightedCombo, WeightedRange,
};
use holdem_solver::schedule::{Schedule, ScheduleStep};
use holdem_solver::stage::Stage;
use holdem_solver::sampler::{
    sample_multiway_private_deal, FixedHand, MultiwayPrivateDealSampler, SamplerError,
};
use holdem_solver::tree::{GameTree, LeafKind, NodeFacts, TreeNode};
use holdem_solver::tree_fingerprint::multiway_holdem_tree_fingerprint;
use holdem_solver::walk::{Plan, Shape, Walk, WalkStep};

fn bits(value: f64) -> u64 {
    value.to_bits()
}

fn number(bits: u64) -> f64 {
    f64::from_bits(bits)
}

fn cards(text: &str) -> Vec<Card> {
    text.split_whitespace()
        .map(|card| {
            let mut symbols = card.chars();
            let rank = "23456789TJQKA".find(symbols.next().unwrap()).unwrap();
            let suit = "shdc".find(symbols.next().unwrap()).unwrap();
            (rank * 4 + suit) as u8
        })
        .collect()
}

fn combo(text: &str) -> Combo {
    let pair = cards(text);
    let (low, high) = if pair[0] < pair[1] { (pair[0], pair[1]) } else { (pair[1], pair[0]) };
    Combo { first: low, second: high }
}

fn current_strategy(data: &InfoSetData) -> Vec<f64> {
    let regrets: Vec<f64> = data.regret_sum.iter().map(|regret| number(*regret).max(0.0)).collect();
    let total: f64 = regrets.iter().sum();
    if total <= 0.0 {
        return vec![1.0 / regrets.len() as f64; regrets.len()];
    }
    regrets.iter().map(|regret| regret / total).collect()
}

fn shares_of(sums: &[u64]) -> Vec<f64> {
    let sums: Vec<f64> = sums.iter().map(|sum| number(*sum)).collect();
    let total: f64 = sums.iter().sum();
    if total <= 0.0 {
        return vec![1.0 / sums.len() as f64; sums.len()];
    }
    sums.iter().map(|sum| sum / total).collect()
}

/// Draws are 53-bit integers: a share of one becomes a threshold by scaling.
fn thresholds(probabilities: &[f64]) -> Vec<u64> {
    let mut total = 0.0;
    probabilities
        .iter()
        .map(|probability| {
            total += probability;
            (total * 9_007_199_254_740_992.0).ceil() as u64
        })
        .collect()
}

/// One node on the way, with the values of its children so far.
struct Frame {
    point: Option<(usize, usize)>,
    weights: Vec<f64>,
    chosen: Option<usize>,
    reach: Vec<f64>,
    values: Vec<f64>,
}

fn child_reach(frames: &[Frame], players: usize) -> Vec<f64> {
    match frames.last() {
        None => vec![1.0; players],
        Some(frame) => {
            let mut reach = frame.reach.clone();
            if let Some((player, _)) = frame.point {
                reach[player] *= frame.weights[frame.chosen.unwrap_or(frame.values.len())];
            }
            reach
        }
    }
}

/// The value of a left node, and what its traverser learns there.
fn left_value(frame: &Frame) -> (f64, Option<(Vec<f64>, Vec<f64>)>) {
    if frame.weights.is_empty() || frame.chosen.is_some() {
        return (frame.values[0], None);
    }
    let (player, _) = frame.point.unwrap();
    let value: f64 = frame.weights.iter().zip(&frame.values).map(|(w, v)| w * v).sum();
    let others: f64 = frame
        .reach
        .iter()
        .enumerate()
        .filter(|(index, _)| *index != player)
        .map(|(_, reach)| *reach)
        .product();
    let regrets = frame.values.iter().map(|child| others * (child - value)).collect();
    let strategies = frame.weights.iter().map(|weight| frame.reach[player] * weight).collect();
    (value, Some((regrets, strategies)))
}

fn plus(left: u64, right: u64) -> u64 {
    bits(number(left) + number(right))
}

fn words(values: Vec<f64>) -> Vec<u64> {
    values.into_iter().map(bits).collect()
}

fn multiway_sums_ok(nodes: &[MultiwayGameNode]) -> Vec<bool> {
    nodes
        .iter()
        .map(|node| match node {
            MultiwayGameNode::Chance { outcomes } => {
                let total: f64 = outcomes.iter().map(|entry| number(entry.0)).sum();
                (total - 1.0).abs() <= 1e-9
            }
            _ => true,
        })
        .collect()
}

fn traverse_multiway(solver: &mut MultiwayMccfrSolver, traverser: usize) {
    let players = solver.game().player_count();
    let mut walk = Walk::new(solver.game().root());
    let mut frames: Vec<Frame> = Vec::new();
    loop {
        match walk.next_step() {
            WalkStep::Finished => break,
            WalkStep::Enter(node) => {
                let mut frame = Frame {
                    point: None,
                    weights: Vec::new(),
                    chosen: None,
                    reach: child_reach(&frames, players),
                    values: Vec::new(),
                };
                match solver.game.node(node).unwrap() {
                    MultiwayGameNode::Terminal { utility } => {
                        frame.values.push(number(utility[traverser]));
                    }
                    MultiwayGameNode::Chance { outcomes } => {
                        frame.weights =
                            outcomes.iter().map(|entry| number(entry.0)).collect();
                    }
                    MultiwayGameNode::Decision { player, .. } => {
                        let player = *player;
                        let place = solver.open(node).unwrap();
                        frame.point = Some((player, node));
                        frame.weights = current_strategy(&solver.infosets.entries[place].1);
                    }
                }
                let limits = thresholds(&frame.weights);
                if let Plan::Only(position) =
                    solver.visit(&mut walk, traverser, &limits).unwrap()
                {
                    frame.chosen = Some(position);
                }
                frames.push(frame);
            }
            WalkStep::Leave(node) => {
                let frame = frames.pop().unwrap();
                let (value, learnt) = left_value(&frame);
                if let Some((regrets, strategies)) = learnt {
                    solver.learn(node, &words(regrets), &words(strategies), &plus).unwrap();
                }
                walk.leave();
                if let Some(parent) = frames.last_mut() {
                    parent.values.push(value);
                }
            }
        }
    }
}

fn run_multiway(solver: &mut MultiwayMccfrSolver, iterations: u64) {
    let mut schedule = Schedule::start(iterations, solver.game().player_count());
    loop {
        match schedule.next_step() {
            ScheduleStep::Finished => break,
            ScheduleStep::Traverse(traverser) => {
                traverse_multiway(solver, traverser);
                solver.end_scheduled_turn(&mut schedule);
            }
            ScheduleStep::EndIteration => solver.end_scheduled_iteration(&mut schedule),
        }
    }
}

fn three_player_reference_game() -> MultiwayStaticGame {
    let decision = |player: usize, infoset: u64, first: usize| MultiwayGameNode::Decision {
        player,
        infoset,
        children: vec![first, first + 1],
    };
    let mut nodes = vec![MultiwayGameNode::Chance { outcomes: vec![(bits(0.5), 1), (bits(0.5), 2)] }];
    nodes.push(decision(0, 10, 3));
    nodes.push(decision(0, 10, 5));
    for index in 0..4 {
        nodes.push(decision(1, 20, 7 + 2 * index));
    }
    for index in 0..8 {
        nodes.push(decision(2, 30, 15 + 2 * index));
    }
    for utility in [
        [3.0, -1.0, -2.0],
        [-3.0, 1.0, 2.0],
        [2.0, 1.0, -3.0],
        [-2.0, -1.0, 3.0],
        [1.0, -3.0, 2.0],
        [-1.0, 3.0, -2.0],
        [2.0, -3.0, 1.0],
        [-2.0, 3.0, -1.0],
        [1.0, 2.0, -3.0],
        [-1.0, -2.0, 3.0],
        [3.0, 2.0, -5.0],
        [-3.0, -2.0, 5.0],
        [2.0, -1.0, -1.0],
        [-2.0, 1.0, 1.0],
        [1.0, -2.0, 1.0],
        [-1.0, 2.0, -1.0],
    ] {
        nodes.push(MultiwayGameNode::Terminal {
            utility: utility.iter().map(|value| bits(*value)).collect(),
        });
    }
    let sums = multiway_sums_ok(&nodes);
    MultiwayStaticGame::new(3, 0, nodes, &sums).unwrap()
}

#[test]
fn validates_dynamic_utility_vectors_and_rejects_cycles() {
    let invalid = MultiwayStaticGame::new(
        3,
        0,
        vec![MultiwayGameNode::Terminal { utility: vec![bits(0.0), bits(0.0)] }],
        &[true],
    );
    assert_eq!(
        invalid.err(),
        Some(MultiwayError::UtilityLength { node: 0, length: 2, players: 3 })
    );

    let cyclic = MultiwayStaticGame::new(
        3,
        0,
        vec![MultiwayGameNode::Decision { player: 0, infoset: 1, children: vec![0] }],
        &[true],
    );
    assert_eq!(cyclic.err(), Some(MultiwayError::Cycle { node: 0 }));
}

#[test]
fn each_fault_of_a_multiway_game_has_its_error() {
    let leaf = || MultiwayGameNode::Terminal { utility: vec![bits(0.0); 3] };
    let build = |players: usize, root: usize, nodes: Vec<MultiwayGameNode>| {
        let sums = vec![true; nodes.len()];
        MultiwayStaticGame::new(players, root, nodes, &sums).err()
    };
    assert_eq!(build(2, 0, vec![leaf()]), Some(MultiwayError::TooFewPlayers { players: 2 }));
    assert_eq!(build(3, 0, Vec::new()), Some(MultiwayError::NoNodes));
    assert_eq!(build(3, 7, vec![leaf()]), Some(MultiwayError::RootOutOfRange));
    assert_eq!(
        build(
            3,
            0,
            vec![
                MultiwayGameNode::Decision { player: 3, infoset: 0, children: vec![1] },
                leaf(),
            ]
        ),
        Some(MultiwayError::PlayerOutside { node: 0, player: 3, players: 3 })
    );
    assert_eq!(build(3, 0, vec![leaf(), leaf()]), Some(MultiwayError::Unreachable));
    assert_eq!(
        build(3, 0, vec![MultiwayGameNode::Chance { outcomes: Vec::new() }]),
        Some(MultiwayError::Node { error: GameError::NoOutcomes { node: 0 } })
    );
}

fn average_utility(solver: &MultiwayMccfrSolver, node: usize) -> Vec<f64> {
    let (weights, children): (Vec<f64>, Vec<usize>) = match solver.game.node(node).unwrap() {
        MultiwayGameNode::Terminal { utility } => {
            return utility.iter().map(|value| number(*value)).collect()
        }
        MultiwayGameNode::Chance { outcomes } => (
            outcomes.iter().map(|entry| number(entry.0)).collect(),
            outcomes.iter().map(|entry| entry.1).collect(),
        ),
        MultiwayGameNode::Decision { player, infoset, children } => (
            shares_of(&solver.info(*player, *infoset).unwrap().strategy_sum),
            children.clone(),
        ),
    };
    let mut utility = vec![0.0; solver.game.player_count()];
    for (weight, child) in weights.iter().zip(children) {
        for (sum, value) in utility.iter_mut().zip(average_utility(solver, child)) {
            *sum += weight * value;
        }
    }
    utility
}

#[test]
fn external_sampling_checkpoint_resume_is_deterministic_for_three_players() {
    let game = three_player_reference_game;
    let sums = multiway_sums_ok(game().nodes());
    let mut one_shot = MultiwayMccfrSolver::new(game(), &sums, 1234, 77).unwrap();
    run_multiway(&mut one_shot, 8);

    let mut split = MultiwayMccfrSolver::new(game(), &sums, 1234, 77).unwrap();
    run_multiway(&mut split, 4);
    let checkpoint = split.checkpoint();
    assert!(checkpoint.metrics.sampled_chance_nodes > 0);
    assert!(checkpoint.metrics.sampled_opponent_actions > 0);
    assert_eq!(checkpoint.metrics.traverser_updates, 12);
    let mut resumed = MultiwayMccfrSolver::from_checkpoint(game(), &sums, &checkpoint, 77).unwrap();
    run_multiway(&mut resumed, 4);

    assert_eq!(resumed.iterations(), one_shot.iterations());
    assert_eq!(
        format!("{:?}", resumed.checkpoint()),
        format!("{:?}", one_shot.checkpoint())
    );
    let utility = average_utility(&resumed, resumed.game().root());
    assert_eq!(utility.len(), 3);
    assert!(utility.iter().all(|value| value.is_finite()));

    assert_eq!(
        MultiwayMccfrSolver::from_checkpoint(game(), &sums, &checkpoint, 78).err(),
        Some(MultiwaySolverError::ConfigMismatch)
    );
    let mut changed = split.checkpoint();
    changed.format_version = 9;
    assert_eq!(
        MultiwayMccfrSolver::from_checkpoint(game(), &sums, &changed, 77).err(),
        Some(MultiwaySolverError::UnsupportedVersion { version: 9 })
    );
    let mut changed = split.checkpoint();
    changed.rng_state = None;
    assert_eq!(
        MultiwayMccfrSolver::from_checkpoint(game(), &sums, &changed, 77).err(),
        Some(MultiwaySolverError::MissingRngState)
    );
    let mut changed = split.checkpoint();
    changed.infosets[0].visits = 0;
    changed.infosets[0].regret_sum[0] = bits(f64::NAN);
    assert_eq!(
        MultiwayMccfrSolver::from_checkpoint(game(), &sums, &changed, 77).err(),
        Some(MultiwaySolverError::InfoSets(SolverError::InvalidValues {
            player: 0,
            infoset: 10
        }))
    );
}

fn range(entries: &[&str]) -> WeightedRange {
    WeightedRange {
        combos: entries
            .iter()
            .map(|text| WeightedCombo { combo: combo(text), class_id: 0, weight: bits(1.0) })
            .collect(),
    }
}

/// The candidates of a range with their shares of it.
fn candidates(range: &WeightedRange, player: usize, dead: u64) -> Vec<Candidate> {
    let grouped = group_weights(range, player, dead).unwrap();
    let summed: Vec<Candidate> = grouped
        .iter()
        .map(|group| Candidate {
            combo: group.combo,
            weight: bits(group.weights.iter().map(|weight| number(*weight)).sum()),
        })
        .collect();
    usable_candidates(&summed, player).unwrap()
}

fn candidate_lists(ranges: &[WeightedRange]) -> (Vec<Vec<Candidate>>, Vec<Vec<u64>>) {
    let lists: Vec<Vec<Candidate>> = ranges
        .iter()
        .enumerate()
        .map(|(player, range)| candidates(range, player, 0))
        .collect();
    let limits = lists
        .iter()
        .map(|list| {
            let weights: Vec<u64> = list.iter().map(|candidate| candidate.weight).collect();
            thresholds(&shares_of(&weights))
        })
        .collect();
    (lists, limits)
}

fn sample_ranges() -> Vec<WeightedRange> {
    vec![range(&["As Ah", "Kc Kd"]), range(&["Qs Qh", "As Jc"]), range(&["Tc Td", "9c 9d"])]
}

#[test]
fn multiway_range_expansion_is_blocker_aware_and_normalized() {
    let (lists, _) = candidate_lists(&sample_ranges());
    let deals = multiway_private_deals_from_ranges(&lists, 0, 32).unwrap();
    assert_eq!(deals.len(), 6);
    let masses: Vec<f64> = deals
        .iter()
        .map(|deal| deal.iter().map(|candidate| number(candidate.weight)).product())
        .collect();
    let total: f64 = masses.iter().sum();
    let sum: f64 = masses.iter().map(|mass| mass / total).sum();
    assert!((sum - 1.0).abs() < 1e-12);
    assert!(deals.iter().all(|deal| deal.len() == 3));
    assert!(!deals
        .iter()
        .any(|deal| deal[0].combo == combo("As Ah") && deal[1].combo == combo("As Jc")));
    assert_eq!(
        multiway_private_deals_from_ranges(&lists, 0, 5).err(),
        Some(RangeError::DealLimit { limit: 5 })
    );
}

#[test]
fn profiles_are_listed_in_ascending_order_and_once() {
    let (lists, _) = candidate_lists(&sample_ranges());
    let profiles: Vec<Vec<(u8, u8)>> = multiway_private_deals_from_ranges(&lists, 0, 32)
        .unwrap()
        .iter()
        .map(|deal| deal.iter().map(|entry| (entry.combo.first, entry.combo.second)).collect())
        .collect();
    assert!(profiles.windows(2).all(|pair| pair[0] < pair[1]));
}

#[test]
fn equal_samplers_draw_equal_legal_deals() {
    let (lists, limits) = candidate_lists(&sample_ranges());
    let sampler =
        || MultiwayPrivateDealSampler::new(lists.clone(), limits.clone(), 0, 17).unwrap();
    let (mut left, mut right) = (sampler(), sampler());
    let mut attempts = 0;
    for _ in 0..20 {
        let (a, b) = (left.sample(50).unwrap(), right.sample(50).unwrap());
        assert_eq!(a.hands, b.hands);
        assert_eq!(a.attempts, b.attempts);
        assert!(1 <= a.attempts && a.attempts <= 50);
        attempts += a.attempts;
        assert_eq!(left.total_attempts(), attempts);
        for (player, hand) in a.hands.iter().enumerate() {
            assert!(lists[player].iter().any(|entry| entry.combo == *hand));
            assert!(a.hands[player + 1..].iter().all(|other| hand.mask() & other.mask() == 0));
        }
    }
    assert_eq!(left.sample(0).err(), Some(SamplerError::ZeroMaxAttempts));
    assert_eq!(left.total_attempts(), attempts);
}

#[test]
fn sampling_needs_room_only_for_the_attempts_it_makes() {
    let apart = vec![range(&["As Ah"]), range(&["Kc Kd"]), range(&["Qc Qd"])];
    let (lists, limits) = candidate_lists(&apart);
    let mut sampler =
        MultiwayPrivateDealSampler::from_state(lists, limits, 0, 17, u64::MAX - 1).unwrap();
    let held = Some(FixedHand { player: 1, hand: combo("Kc Kd") });
    assert!(sampler.has_room(None, 1_000));
    assert!(sampler.has_room(held, 1_000));
    assert_eq!(sampler.count_attempts(None, 1_000), Some(1));
    assert_eq!(sampler.sample(1_000).unwrap().attempts, 1);
    assert_eq!(sampler.total_attempts(), u64::MAX);
    assert!(!sampler.has_room(None, 1_000));
    assert!(!sampler.has_room(held, 1));
    assert!(sampler.has_room(None, 0));

    let clash = vec![range(&["As Ah"]), range(&["As Kd"]), range(&["Qc Qd"])];
    let (lists, limits) = candidate_lists(&clash);
    let mut sampler =
        MultiwayPrivateDealSampler::from_state(lists, limits, 0, 17, u64::MAX - 5).unwrap();
    assert_eq!(sampler.count_attempts(None, 5), None);
    assert!(sampler.has_room(None, 5));
    assert!(!sampler.has_room(None, 6));
    assert_eq!(
        sampler.sample_conditioned(0, combo("As Ah"), 5).err(),
        Some(SamplerError::ConditionedExhausted { limit: 5 })
    );
    assert_eq!(sampler.total_attempts(), u64::MAX);
}

#[test]
fn a_cycle_is_named_by_the_node_that_the_walk_meets_again_first() {
    let decision = |children: Vec<usize>| MultiwayGameNode::Decision {
        player: 0,
        infoset: 1,
        children,
    };
    let cyclic = |first: Vec<usize>| {
        let nodes = vec![decision(first), decision(vec![1]), decision(vec![0])];
        MultiwayStaticGame::new(3, 0, nodes, &[true; 3]).err()
    };
    assert_eq!(cyclic(vec![1, 2]), Some(MultiwayError::Cycle { node: 1 }));
    assert_eq!(cyclic(vec![2, 1]), Some(MultiwayError::Cycle { node: 0 }));
}

#[test]
fn compiling_reports_the_first_problem_in_depth_first_order() {
    let compile = |children: Vec<usize>| {
        let mut tree = tiny_three_way_tree();
        tree.nodes[0].children = children;
        for node in &mut tree.nodes[1..] {
            node.leaf = Some(LeafKind::RoundComplete);
        }
        let hands = vec![combo("As Ah"), combo("Kc Kh"), combo("Qd Qh")];
        let payoff = MultiwayHoldemChipEvPayoff::new(hands.clone(), Vec::new()).unwrap();
        let deal = MultiwayPrivateDeal { probability: bits(1.0), hands };
        compile_multiway_holdem_tree(&tree, &facts(&tree), &[deal], &[payoff]).err()
    };
    assert_eq!(compile(vec![1, 2]), Some(CompileError::RoundComplete { node: 1 }));
    assert_eq!(compile(vec![2, 1]), Some(CompileError::RoundComplete { node: 2 }));
}

#[test]
fn counters_of_a_run_add_up() {
    let game = three_player_reference_game;
    let sums = multiway_sums_ok(game().nodes());
    let mut solver = MultiwayMccfrSolver::new(game(), &sums, 1234, 77).unwrap();
    run_multiway(&mut solver, 5);
    let checkpoint = solver.checkpoint();
    let visits: u64 = checkpoint.infosets.iter().map(|entry| entry.visits).sum();
    assert!(visits > 0);
    assert_eq!(checkpoint.metrics.infoset_visits, visits);
    assert_eq!(checkpoint.metrics.traverser_updates, 15);
}

#[test]
fn copies_of_games_keep_their_fingerprints() {
    let game = three_player_reference_game();
    assert_eq!(game.clone().fingerprint(), game.fingerprint());
    let tree = tiny_three_way_tree();
    assert_eq!(
        multiway_holdem_tree_fingerprint(&tree.clone()),
        multiway_holdem_tree_fingerprint(&tree)
    );
}

#[test]
fn each_fault_of_ranges_has_its_error() {
    let (lists, _) = candidate_lists(&sample_ranges());
    assert_eq!(
        multiway_private_deals_from_ranges(&lists, 0, 0).err(),
        Some(RangeError::ZeroMaxDeals)
    );
    let two: Vec<Vec<Candidate>> = lists.iter().take(2).map(|list| list.to_vec()).collect();
    assert_eq!(
        multiway_private_deals_from_ranges(&two, 0, 9).err(),
        Some(RangeError::RangeCount { ranges: 2 })
    );
    let mut bad = range(&["As Ah"]);
    bad.combos[0].weight = bits(-1.0);
    assert_eq!(group_weights(&bad, 2, 0).err(), Some(RangeError::InvalidWeight { range: 2 }));
    assert_eq!(
        usable_candidates(&Vec::new(), 1).err(),
        Some(RangeError::NoLegalCombos { range: 1 })
    );
    let clash: Vec<Vec<Candidate>> =
        (0..3).map(|player| candidates(&range(&["As Ah"]), player, 0)).collect();
    assert_eq!(
        multiway_private_deals_from_ranges(&clash, 0, 9).err(),
        Some(RangeError::NoLegalDeals)
    );
}

#[test]
fn multiway_rejection_sampler_is_deterministic_and_blocker_safe() {
    let sampler = || {
        let (lists, limits) = candidate_lists(&sample_ranges());
        MultiwayPrivateDealSampler::new(lists, limits, 0, 99).unwrap()
    };
    let mut left = sampler();
    let mut right = sampler();
    for _ in 0..32 {
        let left_sample = left.sample(100).unwrap();
        let right_sample = right.sample(100).unwrap();
        assert_eq!(left_sample.hands, right_sample.hands);
        assert_eq!(left_sample.attempts, right_sample.attempts);
        assert_eq!(left_sample.hands.len(), 3);
        let mut used = 0;
        for hand in left_sample.hands {
            assert_eq!(hand.mask() & used, 0);
            used |= hand.mask();
        }
    }
    assert!(left.total_attempts() >= 32);
}

#[test]
fn conditioned_samples_hold_the_hand() {
    let (lists, limits) = candidate_lists(&sample_ranges());
    let mut sampler = MultiwayPrivateDealSampler::new(lists, limits, 0, 5).unwrap();
    for _ in 0..16 {
        let sample = sampler.sample_conditioned(1, combo("As Jc"), 100).unwrap();
        assert_eq!(sample.hands[1], combo("As Jc"));
        assert_eq!(sample.hands[0], combo("Kc Kd"));
    }
    assert_eq!(
        sampler.sample_conditioned(1, combo("2s 2h"), 100).err(),
        Some(SamplerError::NotACandidate { player: 1 })
    );
    assert_eq!(
        sampler.sample_conditioned(3, combo("2s 2h"), 100).err(),
        Some(SamplerError::UnknownPlayer { player: 3 })
    );
    assert_eq!(sampler.sample(0).err(), Some(SamplerError::ZeroMaxAttempts));
    let state = sampler.rng_state();
    let fork = sampler.fork_with_state(state, 7).unwrap();
    assert_eq!((fork.rng_state(), fork.total_attempts()), (state, 7));
    assert_eq!(sampler.fork_with_state(0, 0).err(), Some(SamplerError::ZeroState));
}

#[test]
fn hopeless_ranges_exhaust_the_attempts() {
    let same = vec![range(&["As Ah"]), range(&["As Kd"]), range(&["Qc Qd"])];
    let (lists, limits) = candidate_lists(&same);
    assert_eq!(
        sample_multiway_private_deal(lists, limits, 0, 1, 25).err(),
        Some(SamplerError::AttemptsExhausted { limit: 25 })
    );
    let (lists, limits) = candidate_lists(&same[..2]);
    assert_eq!(
        sample_multiway_private_deal(lists, limits, 0, 1, 25).err(),
        Some(SamplerError::RangeCount { ranges: 2 })
    );
    assert_eq!(
        MultiwayPrivateDealSampler::new(
            vec![Vec::new(), Vec::new(), Vec::new()],
            vec![Vec::new(), Vec::new(), Vec::new()],
            0,
            1
        )
        .err(),
        Some(SamplerError::NoLegalCombos { range: 0 })
    );
}

/// Five cards as a number that grows with their strength.
fn five_card_score(hand: &[Card]) -> u64 {
    let mut ranks: Vec<u8> = hand.iter().map(|card| card / 4).collect();
    ranks.sort_unstable_by(|left, right| right.cmp(left));
    let mut groups: Vec<(usize, u8)> = Vec::new();
    for rank in &ranks {
        let count = ranks.iter().filter(|other| *other == rank).count();
        if !groups.contains(&(count, *rank)) {
            groups.push((count, *rank));
        }
    }
    groups.sort_unstable_by(|left, right| right.cmp(left));
    let shape: Vec<usize> = groups.iter().map(|group| group.0).collect();
    let category: u64 = match shape.as_slice() {
        [4, 1] => 5,
        [3, 2] => 4,
        [3, 1, 1] => 3,
        [2, 2, 1] => 2,
        [2, 1, 1, 1] => 1,
        _ => 0,
    };
    groups.iter().fold(category, |score, group| score << 8 | group.1 as u64)
        << (8 * (5 - groups.len()))
}

fn settle(profile_hands: &[Combo], node: &TreeNode) -> Vec<f64> {
    let state = &node.state;
    let mut payouts = vec![0.0; state.players.len()];
    match node.leaf {
        Some(LeafKind::Terminal(TerminalState::Fold { winner })) => {
            payouts[winner] = state.pot as f64;
        }
        _ => {
            let scores: Vec<u64> = profile_hands
                .iter()
                .map(|hand| {
                    let mut all = state.board.clone();
                    all.push(hand.first);
                    all.push(hand.second);
                    five_card_score(&all)
                })
                .collect();
            let best = scores.iter().copied().max().unwrap();
            let winners = scores.iter().filter(|score| **score == best).count();
            for (payout, score) in payouts.iter_mut().zip(&scores) {
                if *score == best {
                    *payout = state.pot as f64 / winners as f64;
                }
            }
        }
    }
    payouts
        .iter()
        .zip(&state.players)
        .map(|(payout, player)| payout - player.committed_total as f64)
        .collect()
}

fn flop_state() -> GameState {
    GameState {
        table_size: 3,
        street: Street::Flop,
        board: cards("2s 7d 9c"),
        players: (0..3)
            .map(|seat| PlayerState {
                seat,
                position: Position::Unknown,
                stack_remaining: 900,
                committed_total: 100,
                committed_street: 100,
                ante_paid: 0,
                status: PlayerStatus::Active,
            })
            .collect(),
        dead_money: 0,
        pot: 300,
        actor: Some(0),
        current_bet: 100,
        min_raise_increment: 100,
        pending_players: vec![0],
        raise_allowed: vec![0],
        terminal: None,
    }
}

fn closed(terminal: TerminalState) -> GameState {
    let mut state = flop_state();
    state.actor = None;
    state.pending_players.clear();
    state.raise_allowed.clear();
    state.terminal = Some(terminal);
    state
}

fn leaf(id: usize, action: Action, terminal: TerminalState) -> TreeNode {
    TreeNode {
        id,
        parent: Some(0),
        action_from_parent: Some(action),
        state: closed(terminal),
        children: Vec::new(),
        leaf: Some(LeafKind::Terminal(terminal)),
        chance: None,
    }
}

fn tiny_three_way_tree() -> GameTree {
    GameTree {
        root: 0,
        nodes: vec![
            TreeNode {
                id: 0,
                parent: None,
                action_from_parent: None,
                state: flop_state(),
                children: vec![1, 2],
                leaf: None,
                chance: None,
            },
            leaf(1, Action::Fold, TerminalState::Fold { winner: 1 }),
            leaf(2, Action::Call, TerminalState::Showdown),
        ],
    }
}

fn facts(tree: &GameTree) -> Vec<NodeFacts> {
    vec![NodeFacts { state_ok: true, probabilities_ok: true }; tree.nodes.len()]
}

#[test]
fn multiway_payoff_returns_dynamic_chip_ev_vector() {
    let tree = tiny_three_way_tree();
    let hands = vec![combo("As Ah"), combo("Kc Kh"), combo("Qd Qh")];
    let payoff = MultiwayHoldemChipEvPayoff::new(hands, Vec::new()).unwrap();
    assert!(matches!(payoff.settle(&tree.nodes[2]), Ok(Settlement::Showdown)));
    let utility = settle(payoff.hands(), &tree.nodes[2]);
    assert_eq!(utility.len(), 3);
    assert!(utility.iter().sum::<f64>().abs() < 1e-9);
    assert!(utility[0] > utility[1]);

    match payoff.settle(&tree.nodes[1]).unwrap() {
        Settlement::Fold(shares) => {
            let utility: Vec<i64> =
                shares.iter().map(|share| share.payout as i64 - share.committed as i64).collect();
            assert_eq!(utility, vec![-100, 200, -100]);
        }
        Settlement::Showdown => panic!("expected a fold"),
    }
    assert!(matches!(payoff.settle(&tree.nodes[0]), Err(PayoffError::NotTerminal)));
    let same = vec![combo("As Ah"), combo("As Kh"), combo("Qd Qh")];
    assert_eq!(
        MultiwayHoldemChipEvPayoff::new(same, Vec::new()).err(),
        Some(PayoffError::DuplicateCards)
    );
    assert_eq!(
        MultiwayHoldemChipEvPayoff::new(vec![combo("As Ah")], Vec::new()).err(),
        Some(PayoffError::HandCount { hands: 1 })
    );
}

#[test]
fn tree_fingerprint_changes_with_public_tree_shape() {
    let first = GameTree { root: 0, nodes: Vec::new() };
    let second = GameTree { root: 1, nodes: Vec::new() };
    assert_ne!(
        multiway_holdem_tree_fingerprint(&first),
        multiway_holdem_tree_fingerprint(&second)
    );
}

fn ranges() -> Vec<WeightedRange> {
    vec![
        range(&["As Ah", "Kc Kd"]),
        range(&["Jc Js", "Qs Qh"]),
        range(&["Tc Td", "8c 8d"]),
    ]
}

fn batch_solver(seed: u64, fingerprint: u64, cache: usize) -> MultiwayHoldemBatchSolver {
    let tree = tiny_three_way_tree();
    let facts = facts(&tree);
    let (lists, limits) = candidate_lists(&ranges());
    if cache == 0 {
        MultiwayHoldemBatchSolver::new(tree, &facts, lists, limits, 0, seed, fingerprint, 100)
            .unwrap()
    } else {
        MultiwayHoldemBatchSolver::new_with_profile_cache_capacity(
            tree,
            &facts,
            lists,
            limits,
            0,
            seed,
            fingerprint,
            100,
            cache,
        )
        .unwrap()
    }
}

fn resumed_solver(
    checkpoint: &holdem_solver::batch_store::MultiwayHoldemBatchCheckpoint,
    fingerprint: u64,
) -> Result<MultiwayHoldemBatchSolver, BatchError> {
    let tree = tiny_three_way_tree();
    let facts = facts(&tree);
    let (lists, limits) = candidate_lists(&ranges());
    MultiwayHoldemBatchSolver::from_checkpoint(
        tree, &facts, lists, limits, 0, checkpoint, fingerprint, 100,
    )
}

fn compile_profile(tree: &GameTree, hands: &[Combo]) -> MultiwayCompiledHoldemGame {
    let settled = tree
        .nodes
        .iter()
        .map(|node| {
            node.leaf.map(|_| settle(hands, node).iter().map(|value| bits(*value)).collect())
        })
        .collect();
    let payoff = MultiwayHoldemChipEvPayoff::new(hands.to_vec(), settled).unwrap();
    let deal = MultiwayPrivateDeal { probability: bits(1.0), hands: hands.to_vec() };
    let draft =
        compile_multiway_holdem_tree(tree, &facts(tree), &[deal], &[payoff]).unwrap();
    let scaled: Vec<Vec<u64>> = draft
        .nodes
        .iter()
        .map(|node| match node {
            MultiwayGameNode::Chance { outcomes } => outcomes.iter().map(|entry| entry.0).collect(),
            _ => Vec::new(),
        })
        .collect();
    let sums = vec![true; draft.nodes.len()];
    finish_multiway(draft, 3, &scaled, &sums).unwrap()
}

fn look(
    tree: &GameTree,
    stage: &Stage,
    node: usize,
    traverser: usize,
) -> (Option<DecisionPoint>, Vec<f64>, Option<f64>) {
    match stage {
        Stage::Public(profile) => {
            match stage.shape(tree, node).unwrap() {
                Shape::Leaf => {
                    let value = settle(profile.hands(), &tree.nodes[node])[traverser];
                    (None, Vec::new(), Some(value))
                }
                Shape::Chance(_) => {
                    let outcomes = profile.chance_outcomes(tree, node).unwrap();
                    let weights: Vec<u64> = outcomes.iter().map(|entry| entry.0).collect();
                    (None, shares_of(&weights), None)
                }
                Shape::Decision(..) => {
                    let point = public_decision(tree, profile, node).unwrap();
                    (Some(point), Vec::new(), None)
                }
            }
        }
        Stage::Compiled(compiled) => {
            match compiled.game().node(node).unwrap() {
                MultiwayGameNode::Terminal { utility } => {
                    (None, Vec::new(), Some(number(utility[traverser])))
                }
                MultiwayGameNode::Chance { outcomes } => {
                    let weights = outcomes.iter().map(|entry| number(entry.0)).collect();
                    (None, weights, None)
                }
                MultiwayGameNode::Decision { .. } => {
                    let point = compiled_decision(compiled, node).unwrap();
                    (Some(point), Vec::new(), None)
                }
            }
        }
    }
}

fn traverse_batch(solver: &mut MultiwayHoldemBatchSolver, stage: &Stage, traverser: usize) {
    let tree = tiny_three_way_tree();
    let mut walk = Walk::new(stage.root(&tree));
    let mut frames: Vec<Frame> = Vec::new();
    let mut points: Vec<Option<DecisionPoint>> = Vec::new();
    loop {
        match walk.next_step() {
            WalkStep::Finished => break,
            WalkStep::Enter(node) => {
                let (point, mut weights, value) = look(&tree, stage, node, traverser);
                if let Some(point) = point {
                    let place = solver.open(point).unwrap();
                    weights = current_strategy(&solver.infosets.entries[place].1);
                }
                let limits = thresholds(&weights);
                let plan = solver.visit(&mut walk, stage, traverser, &limits).unwrap();
                frames.push(Frame {
                    point: point.map(|point| (point.player, node)),
                    weights,
                    chosen: match plan {
                        Plan::Only(position) => Some(position),
                        _ => None,
                    },
                    reach: child_reach(&frames, 3),
                    values: value.into_iter().collect(),
                });
                points.push(point);
            }
            WalkStep::Leave(_) => {
                let frame = frames.pop().unwrap();
                let point = points.pop().unwrap();
                let (value, learnt) = left_value(&frame);
                if let Some((regrets, strategies)) = learnt {
                    let point = point.unwrap();
                    solver.learn(point, &words(regrets), &words(strategies), &plus).unwrap();
                }
                walk.leave();
                if let Some(parent) = frames.last_mut() {
                    parent.values.push(value);
                }
            }
        }
    }
}

fn update_batch(solver: &mut MultiwayHoldemBatchSolver, traverser: usize, hands: Vec<Combo>) {
    match solver.profile_cache.take() {
        None => {
            let profile = solver.profile(hands).unwrap();
            traverse_batch(solver, &Stage::Public(&profile), traverser);
        }
        Some(mut cache) => {
            let place = match cache.look_up(&hands) {
                Some(place) => place,
                None => {
                    let compiled = compile_profile(solver.public_arena.tree(), &hands);
                    cache.store(hands, compiled);
                    cache.profiles.len() - 1
                }
            };
            traverse_batch(
                solver,
                &Stage::Compiled(&cache.profiles[place].compiled),
                traverser,
            );
            solver.profile_cache = Some(cache);
        }
    }
}

fn run_batch(solver: &mut MultiwayHoldemBatchSolver, iterations: u64) {
    let mut schedule = Schedule::start(iterations, solver.public_arena.player_count());
    loop {
        match schedule.next_step() {
            ScheduleStep::Finished => break,
            ScheduleStep::Traverse(traverser) => {
                let hands = solver.begin_scheduled_turn(&mut schedule).unwrap();
                update_batch(solver, traverser, hands);
            }
            ScheduleStep::EndIteration => solver.end_scheduled_iteration(&mut schedule),
        }
    }
}

#[test]
fn sampled_batch_shares_infosets_and_resumes_deterministically() {
    let mut one_shot = batch_solver(123, 777, 8);
    run_batch(&mut one_shot, 6);
    let cache_metrics = one_shot.compiled_profile_cache_metrics();
    assert!(cache_metrics.misses > 0);
    assert_eq!(
        cache_metrics.hits + cache_metrics.misses,
        one_shot.metrics().sampled_private_deals
    );

    let mut split = batch_solver(123, 777, 8);
    run_batch(&mut split, 3);
    let checkpoint = split.checkpoint();
    assert!(checkpoint.metrics.sampled_private_deals > 0);
    assert!(checkpoint.metrics.infoset_visits > 0);
    let mut resumed = resumed_solver(&checkpoint, 777).unwrap();
    run_batch(&mut resumed, 3);

    assert_eq!(resumed.iterations(), one_shot.iterations());
    assert_eq!(resumed.infoset_count(), one_shot.infoset_count());
    assert_eq!(
        resumed.metrics().traverser_updates_by_player,
        one_shot.metrics().traverser_updates_by_player
    );
    assert_eq!(
        resumed.metrics().infoset_visits_by_player,
        one_shot.metrics().infoset_visits_by_player
    );
    let data = resumed.info(0, 0, combo("As Ah")).unwrap();
    assert!((shares_of(&data.strategy_sum).iter().sum::<f64>() - 1.0).abs() < 1e-9);
    let (left, right) = (resumed.checkpoint(), one_shot.checkpoint());
    assert_eq!(left.traversal_rng_state, right.traversal_rng_state);
    assert_eq!(left.private_rng_state, right.private_rng_state);
    assert_eq!(left.infosets.len(), right.infosets.len());
    for (left, right) in left.infosets.iter().zip(&right.infosets) {
        assert_eq!((left.player, left.public_node), (right.player, right.public_node));
        assert_eq!(left.private_cards, right.private_cards);
        for (left_value, right_value) in left.regret_sum.iter().zip(&right.regret_sum) {
            assert!((number(*left_value) - number(*right_value)).abs() < 1e-12);
        }
    }
    let rows = resumed.report_rows().unwrap();
    assert_eq!(MULTIWAY_BATCH_RESULT_SCHEMA_VERSION, 1);
    assert!(!rows.is_empty());
    let texts: Vec<BatchRowTexts> = rows
        .iter()
        .map(|row| {
            let data = resumed.info(row.player, row.public_node, row.private_hand).unwrap();
            let shares = shares_of(&data.strategy_sum);
            assert!((shares.iter().sum::<f64>() - 1.0).abs() < 1e-9);
            BatchRowTexts {
                hand_class_id: 0,
                frequencies: shares.iter().map(|share| format!("{share}")).collect(),
                positive_regrets: row
                    .positive_regrets
                    .iter()
                    .map(|regret| format!("{}", number(*regret)))
                    .collect(),
            }
        })
        .collect();
    let csv = batch_report_to_csv(3, resumed.iterations(), &rows, &texts);
    assert!(csv.starts_with("schema_version,format"));
    assert_eq!(
        csv.lines().count(),
        1 + rows.iter().map(|row| row.actions.len()).sum::<usize>()
    );
}

fn run_task(
    solver: &MultiwayHoldemBatchSolver,
    task: ParallelBatchTask,
) -> ParallelTaskRun {
    let tree = solver.public_arena.tree();
    let (mut run, hands) =
        ParallelTaskRun::begin(&solver.private_sampler, 3, 100, task).unwrap();
    let profile = solver.profile(hands).unwrap();
    let stage = Stage::Public(&profile);
    let mut walk = Walk::new(tree.root);
    let mut frames: Vec<Frame> = Vec::new();
    let mut points: Vec<Option<DecisionPoint>> = Vec::new();
    loop {
        match walk.next_step() {
            WalkStep::Finished => break,
            WalkStep::Enter(node) => {
                let (point, mut weights, value) = look(tree, &stage, node, task.traverser);
                if let Some(point) = point {
                    weights = match ParallelTaskRun::snapshot_entry(&solver.infosets, point).unwrap()
                    {
                        Some(place) => current_strategy(&solver.infosets.entries[place].1),
                        None => vec![1.0 / point.actions as f64; point.actions],
                    };
                }
                let limits = thresholds(&weights);
                let plan = run.visit(&mut walk, tree, &profile, &limits).unwrap();
                frames.push(Frame {
                    point: point.map(|point| (point.player, node)),
                    weights,
                    chosen: match plan {
                        Plan::Only(position) => Some(position),
                        _ => None,
                    },
                    reach: child_reach(&frames, 3),
                    values: value.into_iter().collect(),
                });
                points.push(point);
            }
            WalkStep::Leave(_) => {
                let frame = frames.pop().unwrap();
                let point = points.pop().unwrap();
                let (value, learnt) = left_value(&frame);
                if let Some((regrets, strategies)) = learnt {
                    let point = point.unwrap();
                    run.record(point, &words(regrets), &words(strategies), &plus).unwrap();
                }
                walk.leave();
                if let Some(parent) = frames.last_mut() {
                    parent.values.push(value);
                }
            }
        }
    }
    run
}

fn run_parallel(
    solver: &mut MultiwayHoldemBatchSolver,
    iterations: u64,
    workers: usize,
    batch_size: usize,
) -> Result<(), ParallelError> {
    let mut run = ParallelRun::start(solver, iterations, workers, batch_size)?;
    while let Some(plan) = run.next_batch(solver)? {
        let mut batch = BatchResults::new(plan.tasks.len());
        let workers = usable_workers(workers, plan.tasks.len());
        for worker in 0..workers {
            for index in worker_tasks(worker, workers, plan.tasks.len()) {
                assert!(batch.results[index].is_none());
                batch.deliver(index, run_task(solver, plan.tasks[index]));
            }
        }
        assert!(batch.can_count(solver));
        run.finish_batch(solver, &plan, &batch, &plus)?;
    }
    assert_eq!(run.remaining, 0);
    Ok(())
}

#[test]
fn changes_of_a_task_are_summed_and_must_be_finite() {
    let solver = batch_solver(991, 444, 0);
    let plan = plan_batch(&solver, 1, 1).unwrap();
    let (mut run, hands) =
        ParallelTaskRun::begin(&solver.private_sampler, 3, 100, plan.tasks[0]).unwrap();
    let point = DecisionPoint { player: 0, public_node: 0, hand: hands[0], actions: 2 };
    let first = vec![bits(1.0), bits(-2.0)];
    let second = vec![bits(0.5), bits(0.25)];
    run.record(point, &first, &second, &plus).unwrap();
    run.record(point, &second, &first, &plus).unwrap();
    let delta = run.deltas.get(make_batch_key(0, 0, hands[0])).unwrap();
    assert_eq!(delta.regret_sum, vec![bits(1.5), bits(-1.75)]);
    assert_eq!(delta.strategy_sum, vec![bits(1.5), bits(-1.75)]);
    assert_eq!(delta.visits, 2);
    assert_eq!(run.visits_by_player, vec![2, 0, 0]);
    assert_eq!(
        run.record(point, &vec![bits(f64::NAN), 0], &second, &plus),
        Err(ParallelError::NonFiniteUpdate)
    );
    assert_eq!(run.visits_by_player, vec![2, 0, 0]);
    let huge = vec![bits(f64::MAX), bits(f64::MAX)];
    run.record(point, &huge, &second, &plus).unwrap();
    run.record(point, &huge, &second, &plus).unwrap();
    let delta = run.deltas.get(make_batch_key(0, 0, hands[0])).unwrap();
    assert_eq!(delta.regret_sum, vec![bits(f64::INFINITY); 2]);
}

#[test]
fn a_batch_without_a_result_is_refused() {
    let mut solver = batch_solver(991, 444, 0);
    let mut run = ParallelRun::start(&solver, 2, 2, 1).unwrap();
    let plan = run.next_batch(&solver).unwrap().unwrap();
    let mut batch = BatchResults::new(plan.tasks.len());
    batch.deliver(0, run_task(&solver, plan.tasks[0]));
    batch.deliver(2, run_task(&solver, plan.tasks[2]));
    assert!(batch.can_count(&solver));
    assert_eq!(
        run.finish_batch(&mut solver, &plan, &batch, &plus),
        Err(ParallelError::MissingResult { task: 1 })
    );
    assert_eq!(solver.iterations(), 0);
}

#[test]
fn results_are_taken_in_task_order_whoever_delivers_them() {
    let mut checkpoints = Vec::new();
    for order in [[0, 1, 2], [2, 0, 1]] {
        let mut solver = batch_solver(991, 444, 0);
        let mut run = ParallelRun::start(&solver, 1, 1, 1).unwrap();
        let plan = run.next_batch(&solver).unwrap().unwrap();
        let mut batch = BatchResults::new(plan.tasks.len());
        for index in order {
            batch.deliver(index, run_task(&solver, plan.tasks[index]));
        }
        run.finish_batch(&mut solver, &plan, &batch, &plus).unwrap();
        assert_eq!(solver.iterations(), 1);
        assert_eq!(solver.metrics().traverser_updates, 3);
        assert!(run.next_batch(&solver).unwrap().is_none());
        checkpoints.push(format!("{:?}", solver.checkpoint()));
    }
    assert_eq!(checkpoints[0], checkpoints[1]);
}

#[test]
fn traversers_take_turns_until_the_iterations_are_over() {
    let mut schedule = Schedule::start(2, 3);
    let mut steps = Vec::new();
    loop {
        let step = schedule.next_step();
        steps.push(step);
        match step {
            ScheduleStep::Finished => break,
            ScheduleStep::Traverse(_) => schedule.turn(),
            ScheduleStep::EndIteration => schedule.end_iteration(),
        }
    }
    let turn = [
        ScheduleStep::Traverse(0),
        ScheduleStep::Traverse(1),
        ScheduleStep::Traverse(2),
        ScheduleStep::EndIteration,
    ];
    assert_eq!(steps[..4], turn);
    assert_eq!(steps[4..8], turn);
    assert_eq!(steps[8..], [ScheduleStep::Finished]);
}

#[test]
fn parallel_batch_is_deterministic_across_worker_counts_and_resume() {
    let mut one_worker = batch_solver(991, 444, 0);
    run_parallel(&mut one_worker, 5, 1, 2).unwrap();
    assert_eq!(one_worker.iterations(), 5);
    assert_eq!(one_worker.metrics().traverser_updates_by_player, vec![5, 5, 5]);

    let mut many_workers = batch_solver(991, 444, 0);
    run_parallel(&mut many_workers, 5, 3, 2).unwrap();
    assert_eq!(
        format!("{:?}", many_workers.checkpoint()),
        format!("{:?}", one_worker.checkpoint())
    );

    let mut split = batch_solver(991, 444, 0);
    run_parallel(&mut split, 2, 2, 2).unwrap();
    run_parallel(&mut split, 3, 2, 2).unwrap();
    assert_eq!(
        format!("{:?}", split.checkpoint()),
        format!("{:?}", one_worker.checkpoint())
    );

    let mut cached = batch_solver(991, 444, 4);
    let error = run_parallel(&mut cached, 1, 2, 1).unwrap_err();
    assert_eq!(error, ParallelError::CompiledDeals);
    assert!(error.message().contains("public-tree arena"));
    assert_eq!(run_parallel(&mut split, 1, 0, 1), Err(ParallelError::ZeroWorkers));
    assert_eq!(run_parallel(&mut split, 1, 1, 0), Err(ParallelError::ZeroBatchSize));
}

#[test]
fn workers_share_the_tasks_of_a_batch() {
    let mut seen = vec![0; 11];
    for worker in 0..3 {
        for index in worker_tasks(worker, 3, 11) {
            seen[index] += 1;
        }
    }
    assert_eq!(seen, vec![1; 11]);
    assert_eq!(worker_tasks(1, 3, 11), vec![1, 4, 7, 10]);
    assert_eq!(usable_workers(8, 3), 3);
    assert_eq!(usable_workers(8, 0), 1);
    let plan = plan_batch(&batch_solver(1, 2, 0), 9, 4).unwrap();
    assert_eq!(plan.iterations, 4);
    let traversers: Vec<usize> = plan.tasks.iter().map(|task| task.traverser).collect();
    assert_eq!(traversers, vec![0, 1, 2, 0, 1, 2, 0, 1, 2, 0, 1, 2]);
}

#[test]
fn updates_that_do_not_fit_are_refused() {
    let mut solver = batch_solver(5, 6, 0);
    let key = make_batch_key(0, 0, combo("As Ah"));
    let delta = |regrets: &[f64], strategies: &[f64], visits: u64| InfoSetData {
        regret_sum: regrets.iter().map(|value| bits(*value)).collect(),
        strategy_sum: strategies.iter().map(|value| bits(*value)).collect(),
        visits,
    };
    solver.apply_delta(key, &delta(&[1.0, -2.0], &[1.0, -2.0], 3), &plus).unwrap();
    let data = solver.info(0, 0, combo("As Ah")).unwrap();
    assert_eq!(data.regret_sum, vec![bits(1.0), bits(0.0)]);
    assert_eq!(data.strategy_sum, vec![bits(1.0), bits(-2.0)]);
    assert_eq!(data.visits, 3);
    assert_eq!(
        solver.apply_delta(key, &delta(&[1.0], &[1.0], 1), &plus),
        Err(ParallelError::UpdateActionCount { player: 0, node: 0 })
    );
    assert_eq!(
        solver.apply_delta(key, &delta(&[2.0, f64::INFINITY], &[3.0, 1.0], 1), &plus),
        Err(ParallelError::NonFinite)
    );
    let data = solver.info(0, 0, combo("As Ah")).unwrap();
    assert_eq!(data.regret_sum, vec![bits(3.0), bits(0.0)]);
    assert_eq!(data.strategy_sum, vec![bits(4.0), bits(-2.0)]);
    assert_eq!(data.visits, 3);
    assert_eq!(
        solver.apply_delta(key, &delta(&[1.0, 1.0], &[0.0, 0.0], u64::MAX), &plus),
        Err(ParallelError::VisitCountOverflow)
    );
    let data = solver.info(0, 0, combo("As Ah")).unwrap();
    assert_eq!(data.regret_sum, vec![bits(4.0), bits(1.0)]);
    assert_eq!(data.visits, 3);
}

fn manifest_and_files(
    run: &mut JobRun,
    solver: &mut MultiwayHoldemBatchSolver,
    files: &mut Vec<String>,
    go_on: &mut dyn FnMut() -> bool,
) {
    loop {
        match run.command() {
            JobCommand::Stop => break,
            JobCommand::SaveManifest => {
                assert!(run.manifest.validate().is_ok());
                run.manifest_saved();
            }
            JobCommand::SaveCheckpoint(sequence) => {
                files.push(checkpoint_filename(sequence));
                let removed = files_to_rotate(files, run.manifest.config.keep_checkpoints);
                let kept: Vec<String> = files
                    .iter()
                    .enumerate()
                    .filter(|(index, _)| !removed.contains(index))
                    .map(|(_, name)| name.to_string())
                    .collect();
                *files = kept;
                run.checkpoint_saved();
            }
            JobCommand::Ask => run.answered(go_on()),
            JobCommand::Run(iterations) => {
                let config = run.manifest.config;
                run_parallel(solver, iterations, config.worker_count, config.reduction_batch_size)
                    .unwrap();
                run.batch_finished().unwrap();
            }
        }
    }
}

fn job_config(target: u64, workers: usize, batch: usize) -> MultiwayBatchJobConfig {
    MultiwayBatchJobConfig {
        target_iterations: target,
        worker_count: workers,
        reduction_batch_size: batch,
        checkpoint_interval: 2,
        max_private_attempts: 100,
        keep_checkpoints: 2,
    }
}

#[test]
fn persistent_job_store_rotates_checkpoints_and_restores_latest_state() {
    let config = job_config(5, 2, 2);
    let mut solver = batch_solver(991, 444, 0);
    let mut files: Vec<String> = Vec::new();
    let mut run = JobRun::start_new("job-test", config, &solver.checkpoint()).unwrap();
    manifest_and_files(&mut run, &mut solver, &mut files, &mut || true);
    assert_eq!(run.manifest.status, MultiwayBatchJobStatus::Completed);
    assert_eq!(run.manifest.completed_iterations, 5);
    assert!(run.manifest.latest_checkpoint.is_some());
    assert_eq!(files.len(), 2);
    assert_eq!(files.last(), run.manifest.latest_checkpoint.as_ref());

    let checkpoint = solver.checkpoint();
    assert_eq!(run.manifest.check_latest(&checkpoint), Ok(()));
    let mut extended = resumed_solver(&checkpoint, 444).unwrap();
    assert_eq!(extended.iterations(), 5);
    assert_eq!(
        format!("{:?}", extended.checkpoint()),
        format!("{:?}", solver.checkpoint())
    );

    let longer = job_config(7, 2, 2);
    let mut run =
        JobRun::start_existing(run.manifest, "job-test", longer, &extended.checkpoint()).unwrap();
    manifest_and_files(&mut run, &mut extended, &mut files, &mut || true);
    assert_eq!(run.manifest.completed_iterations, 7);
    assert_eq!(run.manifest.config.target_iterations, 7);
    assert_eq!(files.len(), 2);
}

#[test]
fn persistent_job_store_supports_cooperative_cancellation_and_resume() {
    let config = job_config(5, 1, 1);
    let mut solver = batch_solver(771, 662, 0);
    let mut files: Vec<String> = Vec::new();
    let mut checks = 0;
    let mut run = JobRun::start_new("cancel-test", config, &solver.checkpoint()).unwrap();
    manifest_and_files(&mut run, &mut solver, &mut files, &mut || {
        checks += 1;
        checks <= 2
    });
    assert_eq!(run.manifest.status, MultiwayBatchJobStatus::Cancelled);
    assert_eq!(run.manifest.completed_iterations, 2);

    let mut resumed = resumed_solver(&solver.checkpoint(), 662).unwrap();
    assert_eq!(resumed.iterations(), 2);
    let mut run =
        JobRun::start_existing(run.manifest, "cancel-test", config, &resumed.checkpoint()).unwrap();
    manifest_and_files(&mut run, &mut resumed, &mut files, &mut || true);
    assert_eq!(run.manifest.status, MultiwayBatchJobStatus::Completed);
    assert_eq!(run.manifest.completed_iterations, 5);
}

#[test]
fn a_failed_batch_fails_the_job() {
    let mut solver = batch_solver(3, 4, 0);
    let mut run = JobRun::start_new("fails", job_config(5, 1, 1), &solver.checkpoint()).unwrap();
    let mut files: Vec<String> = Vec::new();
    loop {
        match run.command() {
            JobCommand::Stop => break,
            JobCommand::SaveManifest => run.manifest_saved(),
            JobCommand::SaveCheckpoint(sequence) => {
                files.push(checkpoint_filename(sequence));
                run.checkpoint_saved();
            }
            JobCommand::Ask => run.answered(true),
            JobCommand::Run(_) => {
                run_parallel(&mut solver, 1, 1, 1).unwrap();
                run.batch_failed("out of attempts".to_string(), 1);
            }
        }
    }
    assert_eq!(run.manifest.status, MultiwayBatchJobStatus::Failed);
    assert_eq!(run.manifest.error, Some("out of attempts".to_string()));
}

#[test]
fn each_fault_of_a_job_has_its_error() {
    let fault = |change: &dyn Fn(&mut MultiwayBatchJobConfig)| {
        let mut config = job_config(5, 1, 1);
        change(&mut config);
        config.validate().err()
    };
    assert_eq!(fault(&|_| {}), None);
    assert_eq!(fault(&|config| config.target_iterations = 0), Some(JobError::ZeroTargetIterations));
    assert_eq!(fault(&|config| config.worker_count = 0), Some(JobError::ZeroWorkerCount));
    assert_eq!(
        fault(&|config| config.reduction_batch_size = 0),
        Some(JobError::ZeroReductionBatchSize)
    );
    assert_eq!(
        fault(&|config| config.checkpoint_interval = 0),
        Some(JobError::ZeroCheckpointInterval)
    );
    assert_eq!(
        fault(&|config| config.max_private_attempts = 0),
        Some(JobError::ZeroMaxPrivateAttempts)
    );
    assert_eq!(fault(&|config| config.keep_checkpoints = 0), Some(JobError::ZeroKeepCheckpoints));

    let checkpoint = batch_solver(1, 2, 0).checkpoint();
    assert_eq!(
        JobRun::start_new("  ", job_config(5, 1, 1), &checkpoint).err(),
        Some(JobError::EmptyJobId)
    );
    let fresh = || {
        let solver = batch_solver(1, 2, 0);
        let mut run = JobRun::start_new("job", job_config(5, 1, 1), &solver.checkpoint()).unwrap();
        let mut solver = solver;
        let mut files = Vec::new();
        manifest_and_files(&mut run, &mut solver, &mut files, &mut || false);
        (run.manifest, solver.checkpoint())
    };
    let refused = |change: &dyn Fn(&mut MultiwayBatchJobManifest), id: &str, target: u64| {
        let (mut manifest, checkpoint) = fresh();
        change(&mut manifest);
        JobRun::start_existing(manifest, id, job_config(target, 1, 1), &checkpoint).err()
    };
    assert_eq!(refused(&|_| {}, "job", 5), None);
    assert_eq!(refused(&|_| {}, "other", 5), Some(JobError::OtherJob));
    assert_eq!(
        refused(&|manifest| manifest.format_version = 7, "job", 5),
        Some(JobError::UnsupportedVersion { version: 7 })
    );
    assert_eq!(
        refused(&|manifest| manifest.config.worker_count = 3, "job", 5),
        Some(JobError::ConfigMismatch)
    );
    assert_eq!(
        refused(&|manifest| manifest.tree_fingerprint ^= 1, "job", 5),
        Some(JobError::ContextMismatch)
    );
    assert_eq!(
        refused(&|manifest| manifest.completed_iterations = 1, "job", 5),
        Some(JobError::SolverIterationMismatch)
    );
    assert_eq!(
        refused(&|manifest| manifest.completed_iterations = 9, "job", 5),
        Some(JobError::PastTarget)
    );
}

#[test]
fn names_of_files_sort_by_sequence() {
    assert_eq!(checkpoint_filename(3), "checkpoint-00000000000000000003.json");
    assert!(is_checkpoint_name(&checkpoint_filename(12)));
    assert!(!is_checkpoint_name("notes.txt"));
    assert!(checkpoint_filename(9) < checkpoint_filename(10));
    let names: Vec<String> =
        [7, 2, 11, 5].iter().map(|sequence| checkpoint_filename(*sequence)).collect();
    assert_eq!(files_to_rotate(&names, 2), vec![1, 3]);
    assert_eq!(files_to_rotate(&names, 9), Vec::<usize>::new());
    let store = MultiwayBatchJobStore { directory: "jobs/a".to_string() };
    assert_eq!(store.directory(), "jobs/a");
    assert_eq!(store.checkpoints_directory(), "jobs/a/checkpoints");
    assert_eq!(store.checkpoint_path("x"), "jobs/a/checkpoints/x");
    assert_eq!(store.checkpoint_path("/elsewhere/x"), "/elsewhere/x");
    assert_eq!(unique_temporary_path("d", "n", 1, 2, 3), "d/.n.tmp-1-2-3");
}

#[test]
fn default_batch_solver_uses_public_arena_without_profile_compilation() {
    let mut solver = batch_solver(321, 888, 0);
    run_batch(&mut solver, 4);
    let cache_metrics = solver.compiled_profile_cache_metrics();
    assert_eq!(cache_metrics.hits, 0);
    assert_eq!(cache_metrics.misses, 0);
    assert!(solver.infoset_count() > 0);
    let metrics = solver.metrics();
    assert_eq!(metrics.traverser_updates, 12);
    assert_eq!(metrics.traverser_updates_by_player, vec![4, 4, 4]);
    assert_eq!(metrics.sampled_private_deals_by_player, vec![4, 4, 4]);
    assert_eq!(metrics.infoset_visits_by_player.iter().sum::<u64>(), metrics.infoset_visits);
    let (infosets, visits) = solver.tally();
    assert_eq!(infosets.len(), 3);
    assert_eq!(infosets.iter().sum::<u64>(), solver.infoset_count() as u64);
    assert_eq!(visits.len(), 3);
    let rows = solver.report_rows().unwrap();
    assert!(!rows.is_empty());
    let checkpoint = solver.checkpoint();
    assert_eq!(checkpoint.profile_cache_capacity, 0);
    let mut resumed = resumed_solver(&checkpoint, 888).unwrap();
    run_batch(&mut resumed, 1);
    assert_eq!(resumed.iterations(), solver.iterations() + 1);
}

#[test]
fn batch_checkpoints_are_checked() {
    let mut solver = batch_solver(21, 22, 0);
    run_batch(&mut solver, 2);
    let refused = |change: &dyn Fn(&mut holdem_solver::batch_store::MultiwayHoldemBatchCheckpoint)| {
        let mut checkpoint = solver.checkpoint();
        change(&mut checkpoint);
        resumed_solver(&checkpoint, 22).err()
    };
    assert!(refused(&|_| {}).is_none());
    assert!(matches!(
        refused(&|checkpoint| checkpoint.format_version = 1),
        Some(BatchError::Checkpoint(BatchCheckpointError::UnsupportedVersion { version: 1 }))
    ));
    assert!(matches!(
        refused(&|checkpoint| checkpoint.player_count = 2),
        Some(BatchError::Checkpoint(BatchCheckpointError::PlayerCount { players: 2 }))
    ));
    assert!(matches!(
        refused(&|checkpoint| checkpoint.max_private_attempts = 0),
        Some(BatchError::Checkpoint(BatchCheckpointError::ZeroAttemptLimit))
    ));
    assert!(matches!(
        refused(&|checkpoint| checkpoint.private_rng_state = 0),
        Some(BatchError::Checkpoint(BatchCheckpointError::ZeroRngState))
    ));
    assert!(matches!(
        refused(&|checkpoint| checkpoint.infosets[0].player = 5),
        Some(BatchError::Checkpoint(BatchCheckpointError::InvalidPlayer { player: 5 }))
    ));
    assert!(matches!(
        refused(&|checkpoint| checkpoint.infosets[0].action_count = 7),
        Some(BatchError::Checkpoint(BatchCheckpointError::InvalidActionVectors { .. }))
    ));
    assert!(matches!(
        refused(&|checkpoint| checkpoint.infosets[0].regret_sum[0] = bits(f64::NAN)),
        Some(BatchError::Checkpoint(BatchCheckpointError::InvalidValues))
    ));
    assert!(matches!(
        refused(&|checkpoint| checkpoint.tree_fingerprint ^= 1),
        Some(BatchError::ContextMismatch)
    ));
    assert!(matches!(
        resumed_solver(&solver.checkpoint(), 23).err(),
        Some(BatchError::ContextMismatch)
    ));
}

#[test]
fn metrics_have_one_entry_per_player() {
    assert_eq!(default_profile_cache_capacity(), 128);
    let mut metrics = MultiwayBatchSamplingMetrics::for_player_count(3);
    assert_eq!(metrics.infoset_visits_by_player, vec![0, 0, 0]);
    metrics.count_deal(1, 4);
    metrics.count_visits(2, 5);
    assert_eq!(metrics.private_sampling_attempts_by_player, vec![0, 4, 0]);
    assert_eq!(metrics.infoset_visits, 5);
    assert!(metrics.validate_player_dimensions(3).is_ok());
    let error = metrics.validate_player_dimensions(4).unwrap_err();
    assert_eq!((error.field, error.players, error.expected), (MetricsField::TraverserUpdates, 3, 4));
}

#[test]
fn full_caches_drop_the_oldest_profile() {
    assert!(MultiwayCompiledProfileCache::new(0).is_none());
    let mut cache = MultiwayCompiledProfileCache::new(2).unwrap();
    let tree = tiny_three_way_tree();
    let hands = |first: &str| vec![combo(first), combo("Jc Js"), combo("Tc Td")];
    for first in ["As Ah", "Kc Kd", "Qs Qh"] {
        assert_eq!(cache.look_up(&hands(first)), None);
        cache.store(hands(first), compile_profile(&tree, &hands(first)));
    }
    assert_eq!(cache.look_up(&hands("As Ah")), None);
    assert!(cache.look_up(&hands("Qs Qh")).is_some());
    let metrics = cache.metrics();
    assert_eq!((metrics.hits, metrics.misses, metrics.evictions, metrics.entries), (1, 4, 1, 2));
}

#[test]
fn arenas_refuse_other_seat_and_hand_counts() {
    let solver = batch_solver(1, 1, 0);
    assert!(matches!(
        solver.public_arena.profile(vec![combo("As Ah")]).err(),
        Some(ArenaError::HandCount { hands: 1, expected: 3 })
    ));
    let profile =
        solver.profile(vec![combo("As Ah"), combo("Jc Js"), combo("Tc Td")]).unwrap();
    assert_eq!(
        profile.hands_mask(),
        combo("As Ah").mask() | combo("Jc Js").mask() | combo("Tc Td").mask()
    );
    assert!(matches!(
        profile.chance_outcomes(solver.public_arena.tree(), 0),
        Err(ArenaError::NotAChanceNode { node: 0 })
    ));
    assert!(matches!(
        profile.shape(solver.public_arena.tree(), 9),
        Err(ArenaError::UnknownNode { node: 9 })
    ));
}
