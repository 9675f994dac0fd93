//! Exact values of the small parts: hashes, draws, texts, tables, grids.
use holdem_solver::bits::{is_above_one, is_above_zero, is_below_zero, is_finite};
use holdem_solver::cards::{cards_from_mask, mask_from_cards, CardError, Combo};
use holdem_solver::checkpoint::SolverAlgorithm;
use holdem_solver::csv::{csv_escape, csv_lines, csv_row, optional_csv};
use holdem_solver::domain::{Action, Street};
use holdem_solver::group::group_items;
use holdem_solver::hash::{update_hash, Fingerprint, FNV_OFFSET};
use holdem_solver::holdem::PrivateDeal;
use holdem_solver::matrix::{
    class_name, descending_rank, MatrixError, RangeActionReport, RangeClassReport,
    RangeStrategyReport,
};
use holdem_solver::matrix_csv::{
    action_kind, algorithm_name, target_of, ActionExport, ActionTexts, CellTexts, MatrixTexts,
};
use holdem_solver::range_report::{bucket_infosets, marginal_groups, AggregateError};
use holdem_solver::report::{ActionReport, InfoSetReport, StrategyReport};
use holdem_solver::rng::{index_for_draw, XorShift64};
use holdem_solver::spot_job::names_exact_hand;
use holdem_solver::table::{Key, Table};
use holdem_solver::text::{blank, decimal, decimal_padded, word_count};
use holdem_solver::walk::{
    plan_full, plan_sampled, Plan, Shape, Walk, WalkCounters, WalkStep,
};

fn bits(value: f64) -> u64 {
    value.to_bits()
}

#[test]
fn draws_follow_the_generator() {
    let mut rng = XorShift64::new(1);
    assert_eq!(rng.next_u64(), 33_153);
    assert_eq!(rng.next_u64(), 1_075_920_929);
    assert_eq!(rng.next_draw(), 17_383_110_435);
    assert_eq!(XorShift64::new(0).state, 0x9e37_79b9_7f4a_7c15);
    assert_eq!(index_for_draw(&[5, 9, 9], 4), 0);
    assert_eq!(index_for_draw(&[5, 9, 9], 5), 1);
    assert_eq!(index_for_draw(&[5, 9, 9], 100), 2);
}

#[test]
fn fingerprints_mix_word_by_word() {
    let mut fingerprint = Fingerprint::new();
    fingerprint.word(1);
    fingerprint.word(2);
    assert_eq!(fingerprint.hash, 0xe64a_ea73_63c8_e066);
    assert_eq!(update_hash(update_hash(FNV_OFFSET, 1), 2), fingerprint.hash);
    let mut other = Fingerprint::new();
    other.word(2);
    other.word(1);
    assert_ne!(other.hash, fingerprint.hash);
}

#[test]
fn bit_patterns_are_told_apart_as_numbers() {
    for value in [0.0, -0.0, 1.5, -2.5, f64::INFINITY, f64::NEG_INFINITY, f64::NAN, 1.0, 5e-324] {
        assert_eq!(is_finite(bits(value)), value.is_finite(), "{value}");
        assert_eq!(is_above_zero(bits(value)), value > 0.0, "{value}");
        assert_eq!(is_above_one(bits(value)), value > 1.0, "{value}");
        assert_eq!(is_below_zero(bits(value)), value < 0.0, "{value}");
    }
}

#[test]
fn numbers_are_written_in_decimal() {
    assert_eq!(decimal(0), "0");
    assert_eq!(decimal(u64::MAX), "18446744073709551615");
    assert_eq!(decimal_padded(42, 6), "000042");
    assert_eq!(decimal_padded(1_234_567, 3), "1234567");
}

#[test]
fn fields_are_quoted_where_they_must_be() {
    assert_eq!(csv_escape("plain"), "plain");
    assert_eq!(csv_escape("a,b"), "\"a,b\"");
    assert_eq!(csv_escape("say \"hi\""), "\"say \"\"hi\"\"\"");
    assert_eq!(csv_escape("two\nlines"), "\"two\nlines\"");
    assert_eq!(csv_row(&vec!["a".to_string(), "b,c".to_string()]), "a,\"b,c\"");
    assert_eq!(csv_lines(&vec!["a".to_string(), "b".to_string()]), "a\nb\n");
    assert_eq!(optional_csv(Some(7)), "7");
    assert_eq!(optional_csv(None), "");
}

#[test]
fn masks_and_cards_belong_together() {
    assert_eq!(mask_from_cards(&[0, 3, 51]), Ok(1 | 1 << 3 | 1 << 51));
    assert_eq!(mask_from_cards(&[52]), Err(CardError::OutOfDeck { card: 52 }));
    assert_eq!(mask_from_cards(&[4, 4]), Err(CardError::Duplicate { card: 4 }));
    assert_eq!(cards_from_mask(1 | 1 << 3 | 1 << 51), vec![0, 3, 51]);
    let hand = Combo { first: 3, second: 51 };
    assert_eq!(hand.mask(), 1 << 3 | 1 << 51);
    assert!(hand.conflicts(1 << 51));
    assert!(!hand.conflicts(1 << 50));
}

#[test]
fn streets_follow_each_other() {
    assert_eq!(Street::Preflop.next(), Some(Street::Flop));
    assert_eq!(Street::Turn.next(), Some(Street::River));
    assert_eq!(Street::River.next(), None);
    assert_eq!(Street::Preflop.required_new_board_cards(), 3);
    assert_eq!(Street::River.required_new_board_cards(), 0);
}

fn key(major: u64, middle: u64, minor: u64) -> Key {
    Key { major, middle, minor }
}

#[test]
fn tables_keep_their_keys_in_order() {
    let mut table: Table<u64> = Table::new();
    assert!(table.insert_new(key(2, 0, 0), 20));
    assert!(table.insert_new(key(1, 9, 0), 19));
    assert!(table.insert_new(key(1, 9, 3), 193));
    assert!(!table.insert_new(key(2, 0, 0), 99));
    assert_eq!(table.len(), 3);
    assert_eq!(table.get(key(2, 0, 0)), Some(&20));
    assert_eq!(table.get(key(2, 0, 1)), None);
    let keys: Vec<u64> = table.entries.iter().map(|entry| entry.1).collect();
    assert_eq!(keys, vec![19, 193, 20]);

    let items = vec![(key(1, 0, 0), 5u64), (key(0, 0, 0), 6), (key(1, 0, 0), 7)];
    let groups = group_items(&items);
    assert_eq!(groups.get(key(1, 0, 0)), Some(&vec![5, 7]));
    assert_eq!(groups.get(key(0, 0, 0)), Some(&vec![6]));
}

#[test]
fn grids_name_every_class_once() {
    assert_eq!(descending_rank(0), 'A');
    assert_eq!(descending_rank(12), '2');
    assert_eq!(class_name(0, 0), "AA");
    assert_eq!(class_name(0, 1), "AKs");
    assert_eq!(class_name(1, 0), "AKo");
    assert_eq!(class_name(12, 11), "32o");
    let mut names: Vec<String> =
        (0..169).map(|cell| class_name(cell / 13, cell % 13)).collect();
    names.sort();
    names.dedup();
    assert_eq!(names.len(), 169);
}

fn class_report(class_id: u16, player: usize) -> RangeClassReport {
    RangeClassReport {
        player,
        public_node: Some(4),
        class_id,
        combo_count: 2,
        marginal_weight: bits(0.5),
        actions: vec![RangeActionReport {
            action: Action::Raise { to: 12 },
            frequency: bits(1.0),
            counterfactual_ev: None,
            ev_loss: None,
        }],
    }
}

fn range_report(classes: Vec<RangeClassReport>) -> RangeStrategyReport {
    RangeStrategyReport {
        algorithm: SolverAlgorithm::CfrPlus,
        iterations: 3,
        average_utility: [bits(1.0), bits(-1.0)],
        classes,
    }
}

#[test]
fn grids_place_classes_and_refuse_strangers() {
    let ids: Vec<u16> = (0..169).collect();
    let matrix = range_report(vec![class_report(14, 0), class_report(14, 1)])
        .to_matrix(&ids)
        .unwrap();
    assert_eq!(matrix.matrices.len(), 2);
    let cell = &matrix.matrices[0].cells[14];
    assert_eq!((cell.row, cell.column, cell.class_name.as_str()), (1, 1, "KK"));
    assert_eq!(cell.combo_count, Some(2));
    assert_eq!(matrix.matrices[0].cells[13].combo_count, None);
    assert_eq!(
        range_report(vec![class_report(500, 0)]).to_matrix(&ids).err(),
        Some(MatrixError::UnknownClass { class_id: 500 })
    );
    assert_eq!(
        range_report(vec![class_report(3, 0), class_report(3, 0)]).to_matrix(&ids).err(),
        Some(MatrixError::DuplicateClass { class_id: 3, player: 0, public_node: Some(4) })
    );
    let texts = MatrixTexts {
        utility: ["1".to_string(), "-1".to_string()],
        matrices: matrix
            .matrices
            .iter()
            .map(|matrix| {
                matrix
                    .cells
                    .iter()
                    .map(|cell| CellTexts {
                        marginal_weight: "0.5".to_string(),
                        actions: cell
                            .actions
                            .iter()
                            .map(|_| ActionTexts {
                                frequency: "1".to_string(),
                                counterfactual_ev: String::new(),
                                ev_loss: String::new(),
                            })
                            .collect(),
                    })
                    .collect()
            })
            .collect(),
    };
    let csv = matrix.to_csv(&texts);
    assert_eq!(csv.lines().count(), 1 + 2 * 169);
    assert!(csv.contains(",KK,"));
    assert!(csv.contains("raise,12"));
}

#[test]
fn actions_and_algorithms_have_names() {
    assert_eq!(algorithm_name(SolverAlgorithm::CfrPlus), "cfr_plus");
    assert_eq!(
        algorithm_name(SolverAlgorithm::ExternalSamplingMccfr),
        "external_sampling_mccfr"
    );
    assert_eq!(action_kind(Action::AllIn), "all_in");
    assert_eq!(target_of(Action::Bet { to: 9 }), Some(9));
    assert_eq!(target_of(Action::Call), None);
    assert_eq!(ActionExport::from_action(&Action::Bet { to: 9 }), ActionExport::Bet { to: 9 });
}

#[test]
fn walks_enter_and_leave_in_depth_first_order() {
    let shapes = |node: usize| match node {
        0 => Shape::Decision(0, vec![1, 2]),
        1 => Shape::Chance(vec![3]),
        _ => Shape::Leaf,
    };
    let mut walk = Walk::new(0);
    let mut steps: Vec<(char, usize)> = Vec::new();
    loop {
        match walk.next_step() {
            WalkStep::Finished => break,
            WalkStep::Enter(node) => {
                let shape = shapes(node);
                let plan = plan_full(&shape);
                walk.enter(&shape, plan);
                steps.push(('+', node));
            }
            WalkStep::Leave(node) => {
                walk.leave();
                steps.push(('-', node));
            }
        }
    }
    assert_eq!(
        steps,
        vec![
            ('+', 0), ('+', 1), ('+', 3), ('-', 3), ('-', 1), ('+', 2), ('-', 2), ('-', 0)
        ]
    );
}

#[test]
fn only_chance_and_opponents_are_sampled() {
    let mut rng = XorShift64::new(1);
    let mut counters = WalkCounters { sampled_chance_nodes: 0, sampled_opponent_actions: 0 };
    let chance = Shape::Chance(vec![5, 6]);
    let limits = [20, u64::MAX];
    assert!(matches!(plan_sampled(&chance, 0, &limits, &mut rng, &mut counters), Plan::Only(0)));
    let own = Shape::Decision(0, vec![5, 6]);
    assert!(matches!(plan_sampled(&own, 0, &[], &mut rng, &mut counters), Plan::Everywhere));
    let other = Shape::Decision(1, vec![5, 6]);
    assert!(matches!(plan_sampled(&other, 0, &limits, &mut rng, &mut counters), Plan::Only(1)));
    assert_eq!((counters.sampled_chance_nodes, counters.sampled_opponent_actions), (1, 1));
}

fn infoset(player: usize, infoset: u64, hand: Option<Combo>) -> InfoSetReport {
    InfoSetReport {
        player,
        infoset,
        public_node: Some(0),
        private_hand: hand,
        occurrences: 1,
        visits: 1,
        actions: vec![ActionReport {
            action: Action::Check,
            frequency: bits(1.0),
            counterfactual_ev: None,
            ev_loss: None,
        }],
    }
}

#[test]
fn reports_that_do_not_fit_the_deals_are_refused() {
    let hands = [Combo { first: 0, second: 1 }, Combo { first: 2, second: 3 }];
    let deal = |share: f64| PrivateDeal { probability: bits(share), hands };
    assert_eq!(marginal_groups(&Vec::new()).err(), Some(AggregateError::NoDeals));
    assert_eq!(
        marginal_groups(&vec![deal(-1.0)]).err(),
        Some(AggregateError::InvalidProbability)
    );
    let clash = PrivateDeal { probability: bits(1.0), hands: [hands[0], hands[0]] };
    assert_eq!(marginal_groups(&vec![clash]).err(), Some(AggregateError::DuplicateCards));

    let groups = marginal_groups(&vec![deal(0.25), deal(0.5)]).unwrap();
    assert_eq!(groups.len(), 2);
    assert_eq!(groups.entries[0].1, vec![bits(0.25), bits(0.5)]);
    let weights = vec![bits(0.75), bits(0.75)];
    let fault = |infosets: Vec<InfoSetReport>| {
        let ids = vec![7; infosets.len()];
        let report = StrategyReport {
            algorithm: SolverAlgorithm::CfrPlus,
            iterations: 1,
            average_utility: [0, 0],
            infosets,
        };
        bucket_infosets(&report, &ids, &groups, &weights).err()
    };
    assert_eq!(fault(vec![infoset(0, 1, Some(hands[0]))]), None);
    assert_eq!(fault(vec![infoset(0, 1, None)]), Some(AggregateError::NoPrivateHand));
    assert_eq!(
        fault(vec![infoset(0, 1, Some(hands[1]))]),
        Some(AggregateError::AbsentHand { player: 0 })
    );
    assert_eq!(
        fault(vec![infoset(0, 1, Some(hands[0])), infoset(0, 1, Some(hands[0]))]),
        Some(AggregateError::DuplicateInfoSet { player: 0, infoset: 1 })
    );
    assert_eq!(
        fault(vec![infoset(0, 1, Some(hands[0])), infoset(0, 2, Some(hands[0]))]),
        Some(AggregateError::DuplicateCombo { player: 0, public_node: Some(0) })
    );
}

#[test]
fn two_words_name_an_exact_hand() {
    assert!(names_exact_hand("As Jd"));
    assert!(names_exact_hand("  As\t Jd\n"));
    assert!(!names_exact_hand("AJo"));
    assert!(!names_exact_hand(""));
    assert!(!names_exact_hand("As Jd Kc"));
    assert_eq!(word_count(" a bc  d "), 3);
    assert!(blank(" \u{a0}\t"));
    assert!(!blank(" x "));
}
