//! Reports of the batch solver.
use vstd::prelude::*;

use crate::batch::MultiwayHoldemBatchSolver;
use crate::batch_store::{batch_key_ok, batch_keys};
use crate::cards::Combo;
use crate::checkpoint::InfoSetData;
use crate::csv::{csv_lines, csv_row, lines_text, optional_csv, optional_text, row_text, string_views};
use crate::domain::Action;
use crate::matrix::HandClassId;
use crate::matrix_csv::{action_kind, action_target, kind_text, target_of};
use crate::solver::{floor_all, floored_all};
use crate::table::Key;
use crate::text::{decimal, decimal_text};
use crate::tree::GameTree;

verus! {

/// Version of the sampled multiway result.
pub const MULTIWAY_BATCH_RESULT_SCHEMA_VERSION: u32 = 1;

#[derive(Debug, Clone, Copy, PartialEq, Eq, Structural)]
pub enum BatchReportError {
    UnknownNode { node: usize },
    MissingAction { node: usize },
    ActionCountMismatch { player: usize, node: usize },
}

/// An information set of a report before its frequencies are known.
#[derive(Debug, Clone)]
pub struct MultiwayBatchInfoSetReport {
    pub player: usize,
    pub public_node: usize,
    pub private_hand: Combo,
    pub visits: u64,
    pub actions: Vec<Action>,
    /// Regrets, none below zero, as IEEE-754 bits.
    pub positive_regrets: Vec<u64>,
}

/// The first child from `from` on without an incoming action.
pub open spec fn unlabelled(tree: GameTree, children: Seq<usize>, from: int) -> bool
    decreases children.len() - from,
{
    if from >= children.len() {
        false
    } else if children[from] >= tree.nodes@.len() || tree.nodes@[children[from] as int]
        .action_from_parent is None {
        true
    } else {
        unlabelled(tree, children, from + 1)
    }
}

/// The actions that lead to some children.
pub open spec fn child_actions(tree: GameTree, children: Seq<usize>) -> Seq<Action> {
    children.map(
        |i: int, child: usize| tree.nodes@[child as int].action_from_parent->Some_0,
    )
}

/// Why an entry cannot be reported.
pub open spec fn row_error(tree: GameTree, entry: (Key, InfoSetData)) -> Option<BatchReportError> {
    let node = entry.0.middle as usize;
    if node >= tree.nodes@.len() {
        Some(BatchReportError::UnknownNode { node })
    } else if unlabelled(tree, tree.nodes@[node as int].children@, 0) {
        Some(BatchReportError::MissingAction { node })
    } else if tree.nodes@[node as int].children@.len() != entry.1.regret_sum@.len() {
        Some(
            BatchReportError::ActionCountMismatch { player: entry.0.major as usize, node },
        )
    } else {
        None
    }
}

pub open spec fn rows_error(tree: GameTree, entries: Seq<(Key, InfoSetData)>, from: int) -> Option<
    BatchReportError,
>
    decreases entries.len() - from,
{
    if from >= entries.len() {
        None
    } else {
        match row_error(tree, entries[from]) {
            Some(error) => Some(error),
            None => rows_error(tree, entries, from + 1),
        }
    }
}

/// The report of one entry.
pub open spec fn row_ok(
    row: MultiwayBatchInfoSetReport,
    tree: GameTree,
    entry: (Key, InfoSetData),
) -> bool {
    &&& row.player == entry.0.major
    &&& row.public_node == entry.0.middle
    &&& 256 * row.private_hand.first + row.private_hand.second == entry.0.minor
    &&& row.visits == entry.1.visits
    &&& row.actions@ == child_actions(tree, tree.nodes@[entry.0.middle as int].children@)
    &&& row.positive_regrets@ == floored_all(entry.1.regret_sum@)
    &&& row.positive_regrets@.len() == row.actions@.len()
}

fn label_children(tree: &GameTree, children: &Vec<usize>) -> (actions: Option<Vec<Action>>)
    ensures
        match actions {
            Some(found) => !unlabelled(*tree, children@, 0) && found@ == child_actions(
                *tree,
                children@,
            ),
            None => unlabelled(*tree, children@, 0),
        },
{
    let mut actions: Vec<Action> = Vec::new();
    let mut index: usize = 0;
    while index < children.len()
        invariant
            index <= children@.len(),
            unlabelled(*tree, children@, 0) == unlabelled(*tree, children@, index as int),
            actions@ == child_actions(*tree, children@).take(index as int),
        decreases children.len() - index,
    {
        let child = children[index];
        let label = match tree.node(child) {
            Some(node) => node.action_from_parent,
            None => None,
        };
        match label {
            Some(action) => {
                actions.push(action);
            },
            None => {
                return None;
            },
        }
        assert(actions@ =~= child_actions(*tree, children@).take(index as int + 1));
        index = index + 1;
    }
    assert(child_actions(*tree, children@).take(index as int) =~= child_actions(*tree, children@));
    Some(actions)
}

impl MultiwayHoldemBatchSolver {
    /// The information sets of the solver with their actions, ordered by
    /// player, public node and hand.
    pub fn report_rows(&self) -> (result: Result<
        Vec<MultiwayBatchInfoSetReport>,
        BatchReportError,
    >)
        requires
            self.wf(),
        ensures
            match rows_error(self.public_arena.tree, self.infosets.entries@, 0) {
                Some(error) => result == Err::<Vec<MultiwayBatchInfoSetReport>, BatchReportError>(
                    error,
                ),
                None => {
                    &&& result matches Ok(rows)
                    &&& rows@.len() == self.infosets.entries@.len()
                    &&& forall|i: int|
                        0 <= i < rows@.len() ==> row_ok(
                            #[trigger] rows@[i],
                            self.public_arena.tree,
                            self.infosets.entries@[i],
                        )
                },
            },
    {
        let tree = self.public_arena.tree();
        let mut rows: Vec<MultiwayBatchInfoSetReport> = Vec::new();
        let mut index: usize = 0;
        while index < self.infosets.entries.len()
            invariant
                *tree == self.public_arena.tree,
                batch_keys(self.infosets.entries@),
                index <= self.infosets.entries@.len(),
                rows@.len() == index,
                rows_error(*tree, self.infosets.entries@, 0) == rows_error(
                    *tree,
                    self.infosets.entries@,
                    index as int,
                ),
                forall|i: int|
                    0 <= i < rows@.len() ==> row_ok(
                        #[trigger] rows@[i],
                        *tree,
                        self.infosets.entries@[i],
                    ),
            decreases self.infosets.entries.len() - index,
        {
            let key = self.infosets.entries[index].0;
            assert(batch_key_ok(self.infosets.entries@[index as int].0));
            let player = key.major as usize;
            let node = key.middle as usize;
            let found = match tree.node(node) {
                Some(found) => found,
                None => {
                    return Err(BatchReportError::UnknownNode { node });
                },
            };
            let actions = match label_children(tree, &found.children) {
                Some(actions) => actions,
                None => {
                    return Err(BatchReportError::MissingAction { node });
                },
            };
            let data = &self.infosets.entries[index].1;
            if actions.len() != data.regret_sum.len() {
                return Err(BatchReportError::ActionCountMismatch { player, node });
            }
            let hand = Combo { first: (key.minor / 256) as u8, second: (key.minor % 256) as u8 };
            rows.push(
                MultiwayBatchInfoSetReport {
                    player,
                    public_node: node,
                    private_hand: hand,
                    visits: data.visits,
                    actions,
                    positive_regrets: floor_all(&data.regret_sum),
                },
            );
            index = index + 1;
        }
        Ok(rows)
    }

    /// How many information sets each player has, and how often they were
    /// visited.
    pub fn tally(&self) -> (tally: (Vec<u64>, Vec<u64>))
        requires
            self.wf(),
        ensures
            tally.0@ == Seq::new(
                self.players() as nat,
                |p: int| infosets_of(self.infosets.entries@, p, self.infosets.entries@.len() as int),
            ),
            tally.1@ == Seq::new(
                self.players() as nat,
                |p: int| visits_of(self.infosets.entries@, p, self.infosets.entries@.len() as int),
            ),
    {
        let players = self.public_arena.player_count();
        let mut counts: Vec<u64> = crate::checkpoint::zeros(players);
        let mut visits: Vec<u64> = crate::checkpoint::zeros(players);
        let mut index: usize = 0;
        let ghost entries = self.infosets.entries@;
        while index < self.infosets.entries.len()
            invariant
                index <= self.infosets.entries@.len(),
                entries == self.infosets.entries@,
                counts@.len() == players,
                visits@.len() == players,
                forall|p: int|
                    0 <= p < players ==> (#[trigger] counts@[p]) == infosets_of(
                        entries,
                        p,
                        index as int,
                    ),
                forall|p: int|
                    0 <= p < players ==> (#[trigger] counts@[p]) <= index,
                forall|p: int|
                    0 <= p < players ==> (#[trigger] visits@[p]) == visits_of(
                        entries,
                        p,
                        index as int,
                    ),
            decreases self.infosets.entries.len() - index,
        {
            let player = self.infosets.entries[index].0.major;
            if player < players as u64 {
                let player: usize = player as usize;
                let count = counts[player];
                counts[player] = count + 1;
                let seen = visits[player];
                visits[player] = seen.saturating_add(self.infosets.entries[index].1.visits);
            }
            index = index + 1;
        }
        assert(counts@ =~= Seq::new(
            players as nat,
            |p: int| infosets_of(entries, p, entries.len() as int),
        ));
        assert(visits@ =~= Seq::new(
            players as nat,
            |p: int| visits_of(entries, p, entries.len() as int),
        ));
        (counts, visits)
    }
}

/// How many of the first `count` entries belong to a player.
pub open spec fn infosets_of(entries: Seq<(Key, InfoSetData)>, player: int, count: int) -> u64
    decreases count,
{
    if count <= 0 {
        0
    } else {
        (infosets_of(entries, player, count - 1) + if entries[count - 1].0.major == player {
            1int
        } else {
            0
        }) as u64
    }
}

/// The visits of the entries of a player among the first `count`, as far as
/// they can be counted.
pub open spec fn visits_of(entries: Seq<(Key, InfoSetData)>, player: int, count: int) -> u64
    decreases count,
{
    if count <= 0 {
        0
    } else {
        let before = visits_of(entries, player, count - 1);
        if entries[count - 1].0.major == player {
            if before + entries[count - 1].1.visits > u64::MAX {
                u64::MAX
            } else {
                (before + entries[count - 1].1.visits) as u64
            }
        } else {
            before
        }
    }
}

/// Texts of the numbers of an information set, and the class of its hand.
#[derive(Debug)]
pub struct BatchRowTexts {
    pub hand_class_id: HandClassId,
    pub frequencies: Vec<String>,
    pub positive_regrets: Vec<String>,
}

pub open spec fn row_texts_fit(
    rows: Seq<MultiwayBatchInfoSetReport>,
    texts: Seq<BatchRowTexts>,
) -> bool {
    &&& texts.len() == rows.len()
    &&& forall|i: int|
        0 <= i < texts.len() ==> (#[trigger] texts[i]).frequencies@.len() == rows[i].actions@.len()
            && texts[i].positive_regrets@.len() == rows[i].actions@.len()
}

/// The fields of one action of an information set.
pub open spec fn batch_fields(
    player_count: usize,
    iterations: u64,
    row: MultiwayBatchInfoSetReport,
    texts: BatchRowTexts,
    action: int,
) -> Seq<Seq<char>> {
    seq![
        decimal_text(MULTIWAY_BATCH_RESULT_SCHEMA_VERSION as nat),
        "multiway_batch_strategy"@,
        decimal_text(player_count as nat),
        decimal_text(iterations as nat),
        decimal_text(row.player as nat),
        decimal_text(row.public_node as nat),
        decimal_text(row.private_hand.first as nat),
        decimal_text(row.private_hand.second as nat),
        decimal_text(texts.hand_class_id as nat),
        decimal_text(row.visits as nat),
        kind_text(row.actions@[action]),
        optional_text(action_target(row.actions@[action])),
        texts.frequencies@[action]@,
        texts.positive_regrets@[action]@,
    ]
}

/// The rows of an information set, one for each action.
pub open spec fn infoset_rows(
    player_count: usize,
    iterations: u64,
    row: MultiwayBatchInfoSetReport,
    texts: BatchRowTexts,
) -> Seq<Seq<char>> {
    Seq::new(
        row.actions@.len(),
        |a: int| row_text(batch_fields(player_count, iterations, row, texts, a)),
    )
}

/// The rows of the first `count` information sets.
pub open spec fn all_rows(
    player_count: usize,
    iterations: u64,
    rows: Seq<MultiwayBatchInfoSetReport>,
    texts: Seq<BatchRowTexts>,
    count: int,
) -> Seq<Seq<char>>
    decreases count,
{
    if count <= 0 {
        Seq::empty()
    } else {
        all_rows(player_count, iterations, rows, texts, count - 1) + infoset_rows(
            player_count,
            iterations,
            rows[count - 1],
            texts[count - 1],
        )
    }
}

fn owned(text: &str) -> (copy: String)
    ensures
        copy@ == text@,
{
    let mut copy = String::new();
    copy.append(text);
    assert(copy@ =~= text@);
    copy
}

fn batch_row(
    player_count: usize,
    iterations: u64,
    row: &MultiwayBatchInfoSetReport,
    texts: &BatchRowTexts,
    action: usize,
) -> (text: String)
    requires
        action < row.actions@.len(),
        texts.frequencies@.len() == row.actions@.len(),
        texts.positive_regrets@.len() == row.actions@.len(),
    ensures
        text@ == row_text(batch_fields(player_count, iterations, *row, *texts, action as int)),
{
    let made = row.actions[action];
    let fields = vec![
        decimal(MULTIWAY_BATCH_RESULT_SCHEMA_VERSION as u64),
        owned("multiway_batch_strategy"),
        decimal(player_count as u64),
        decimal(iterations),
        decimal(row.player as u64),
        decimal(row.public_node as u64),
        decimal(row.private_hand.first as u64),
        decimal(row.private_hand.second as u64),
        decimal(texts.hand_class_id as u64),
        decimal(row.visits),
        owned(action_kind(made)),
        optional_csv(target_of(made)),
        owned(texts.frequencies[action].as_str()),
        owned(texts.positive_regrets[action].as_str()),
    ];
    assert(string_views(fields@) =~= batch_fields(
        player_count,
        iterations,
        *row,
        *texts,
        action as int,
    ));
    csv_row(&fields)
}

pub open spec fn batch_header() -> Seq<char> {
    "schema_version,format,player_count,iterations,player,public_node,private_card_0,private_card_1,hand_class_id,visits,action_kind,action_to,frequency,positive_regret"@
}

/// Writes the information sets as CSV, one row for each action.
pub fn batch_report_to_csv(
    player_count: usize,
    iterations: u64,
    rows: &Vec<MultiwayBatchInfoSetReport>,
    texts: &Vec<BatchRowTexts>,
) -> (text: String)
    requires
        row_texts_fit(rows@, texts@),
    ensures
        text@ == lines_text(
            seq![batch_header()] + all_rows(
                player_count,
                iterations,
                rows@,
                texts@,
                rows@.len() as int,
            ),
        ),
{
    let mut lines: Vec<String> = Vec::new();
    lines.push(
        owned(
            "schema_version,format,player_count,iterations,player,public_node,private_card_0,private_card_1,hand_class_id,visits,action_kind,action_to,frequency,positive_regret",
        ),
    );
    let ghost head = seq![batch_header()];
    assert(string_views(lines@) =~= head + all_rows(player_count, iterations, rows@, texts@, 0));
    let mut index: usize = 0;
    while index < rows.len()
        invariant
            index <= rows@.len(),
            row_texts_fit(rows@, texts@),
            string_views(lines@) == head + all_rows(
                player_count,
                iterations,
                rows@,
                texts@,
                index as int,
            ),
        decreases rows.len() - index,
    {
        let row = &rows[index];
        let row_texts = &texts[index];
        assert(texts@[index as int].frequencies@.len() == rows@[index as int].actions@.len());
        let ghost start = string_views(lines@);
        let ghost wanted = infoset_rows(player_count, iterations, *row, *row_texts);
        let mut action: usize = 0;
        assert(start =~= start + wanted.take(0));
        while action < row.actions.len()
            invariant
                action <= row.actions@.len(),
                row_texts.frequencies@.len() == row.actions@.len(),
                row_texts.positive_regrets@.len() == row.actions@.len(),
                wanted == infoset_rows(player_count, iterations, *row, *row_texts),
                string_views(lines@) == start + wanted.take(action as int),
            decreases row.actions.len() - action,
        {
            let ghost before = lines@;
            lines.push(batch_row(player_count, iterations, row, row_texts, action));
            assert(string_views(lines@) =~= string_views(before).push(wanted[action as int]));
            assert(string_views(lines@) =~= start + wanted.take(action as int + 1));
            action = action + 1;
        }
        proof {
            assert(wanted.take(action as int) =~= wanted);
            let so_far = all_rows(player_count, iterations, rows@, texts@, index as int);
            assert(start + wanted =~= head + (so_far + wanted));
        }
        index = index + 1;
    }
    csv_lines(&lines)
}

} // verus!
