//! What leaves the library: grids, rows, trees and labels, cell by cell and column by
//! column.
use vstd::prelude::*;

use crate::batch_report::{
    all_rows, batch_fields, infoset_rows, BatchRowTexts, MultiwayBatchInfoSetReport,
};
use crate::cards::Combo;
use crate::csv::row_text;
use crate::domain::{Action, TerminalState};
use crate::drill::{dealt_hand, drawn_state, label_text, label_texts, playable};
use crate::laws::picks::{lemma_pick, picks};
use crate::laws::ranges::lemma_hands_meet;
use crate::laws::spots::is_dead;
use crate::laws::texts::{lemma_decimal_text_reads_back, value_of};
use crate::matrix::{
    cell_ok, class_key, class_name_text, classes_error, context_key, rank_at, reported,
    HandClassId, RangeClassReport, RangeMatrixCell, RangeMatrixReport,
};
use crate::matrix_csv::{
    action_target, cell_rows, exported, header_fields, kind_text, matrix_rows, report_rows,
    row_fields, MatrixTexts,
};
use crate::rng::{chosen_index, seeded_state, xorshift};
use crate::spot_report::{
    first_different, first_row, indexed, indexed_actions, missing_of, observed_of,
    MultiwayHoldemSpotHeroHandReport, TreeIndexEnd, TreeIndexNode,
};
use crate::tree::{LeafKind, TreeNode};

verus! {

/// The rank that a character stands for, aces highest.
pub open spec fn rank_value(rank: char) -> int {
    if rank == 'A' {
        14
    } else if rank == 'K' {
        13
    } else if rank == 'Q' {
        12
    } else if rank == 'J' {
        11
    } else if rank == 'T' {
        10
    } else {
        rank as u32 - '0' as u32
    }
}

/// Rows and columns go down from aces to twos, one rank at a time.
pub proof fn lemma_ranks_fall(index: int)
    requires
        0 <= index < 13,
    ensures
        rank_value(rank_at(index)) == 14 - index,
{
}

/// A class is named by its ranks, the higher first: a pair by its rank twice, and of
/// two ranks the cell above the pairs is suited and the one below them is not.
pub proof fn lemma_class_names(row: int, column: int)
    requires
        0 <= row < 13,
        0 <= column < 13,
    ensures
        ({
            let name = class_name_text(row, column);
            let high = rank_value(name[0]);
            let low = rank_value(name[1]);
            &&& row == column <==> name.len() == 2
            &&& row != column <==> name.len() == 3
            &&& row == column ==> high == low && high == 14 - row
            &&& row != column ==> high > low
            &&& high == 14 - row || high == 14 - column
            &&& low == 14 - row || low == 14 - column
            &&& row < column ==> name[2] == 's'
            &&& row > column ==> name[2] == 'o'
        }),
{
    lemma_ranks_fall(row);
    lemma_ranks_fall(column);
}

/// Contexts and classes have keys of their own.
pub proof fn lemma_matrix_keys(
    player: usize,
    other_player: usize,
    node: Option<usize>,
    other_node: Option<usize>,
    class_id: HandClassId,
    other_class: HandClassId,
)
    ensures
        context_key(player, node) == context_key(other_player, other_node) <==> player
            == other_player && node == other_node,
        class_key(player, node, class_id) == class_key(other_player, other_node, other_class)
            <==> player == other_player && node == other_node && class_id == other_class,
        context_key(player, node).below(context_key(other_player, other_node)) <==> {
            ||| player < other_player
            ||| player == other_player && node is None && other_node is Some
            ||| player == other_player && node is Some && other_node is Some && node->Some_0
                < other_node->Some_0
        },
{
}

/// A report fits the grid exactly where every class is one of the grid's and none is
/// reported twice for a player and public node.
pub proof fn lemma_classes_that_fit(
    classes: Seq<RangeClassReport>,
    class_ids: Seq<HandClassId>,
    from: int,
)
    requires
        0 <= from <= classes.len(),
    ensures
        classes_error(classes, class_ids, from) is None <==> {
            &&& forall|i: int|
                from <= i < classes.len() ==> class_ids.contains((#[trigger] classes[i]).class_id)
            &&& forall|i: int, j: int|
                0 <= i < j < classes.len() && from <= j ==> !same_class(
                    #[trigger] classes[i],
                    #[trigger] classes[j],
                )
        },
    decreases classes.len() - from,
{
    if from < classes.len() {
        lemma_classes_that_fit(classes, class_ids, from + 1);
        let class = classes[from];
        assert forall|j: int| 0 <= j < from implies ((#[trigger] classes[j]).key() == class.key()
            <==> same_class(classes[j], class)) by {
            lemma_matrix_keys(
                classes[j].player,
                class.player,
                classes[j].public_node,
                class.public_node,
                classes[j].class_id,
                class.class_id,
            );
        }
        if exists|j: int| 0 <= j < from && (#[trigger] classes[j]).key() == class.key() {
            let j = choose|j: int| 0 <= j < from && (#[trigger] classes[j]).key() == class.key();
            assert(same_class(classes[j], classes[from]));
        }
    }
}

/// The same class of the same player at the same public node.
pub open spec fn same_class(left: RangeClassReport, right: RangeClassReport) -> bool {
    &&& left.player == right.player
    &&& left.public_node == right.public_node
    &&& left.class_id == right.class_id
}

/// A cell lies in its row and column under their ranks, and holds what is reported of
/// its class for the grid's player and public node, or nothing.
pub proof fn lemma_cells(
    cell: RangeMatrixCell,
    index: int,
    player: usize,
    public_node: Option<usize>,
    classes: Seq<RangeClassReport>,
    class_ids: Seq<HandClassId>,
    i: int,
)
    requires
        cell_ok(cell, index, player, public_node, classes, class_ids),
        0 <= index < 169,
        classes_error(classes, class_ids, 0) is None,
        0 <= i < classes.len(),
        classes[i].player == player,
        classes[i].public_node == public_node,
        classes[i].class_id == cell.class_id,
    ensures
        13 * cell.row + cell.column == index,
        0 <= cell.row < 13,
        0 <= cell.column < 13,
        rank_value(cell.row_rank) == 14 - cell.row,
        rank_value(cell.column_rank) == 14 - cell.column,
        cell.class_name@ == class_name_text(cell.row as int, cell.column as int),
        cell.combo_count == Some(classes[i].combo_count),
        cell.marginal_weight == Some(classes[i].marginal_weight),
        cell.actions@ == classes[i].actions@,
{
    lemma_ranks_fall(index / 13);
    lemma_ranks_fall(index % 13);
    lemma_classes_that_fit(classes, class_ids, 0);
    let key = class_key(player, public_node, class_ids[index]);
    assert(classes[i].key() == key);
    let found = reported(classes, key)->Some_0;
    assert(0 <= found < classes.len() && classes[found].key() == key);
    lemma_matrix_keys(
        classes[found].player,
        player,
        classes[found].public_node,
        public_node,
        classes[found].class_id,
        class_ids[index],
    );
    assert(same_class(classes[found], classes[i]));
    if found < i {
        assert(!same_class(classes[found], classes[i]));
    } else if i < found {
        assert(!same_class(classes[i], classes[found]));
    }
}

/// A cell of a class that is not reported holds nothing.
pub proof fn lemma_empty_cells(
    cell: RangeMatrixCell,
    index: int,
    player: usize,
    public_node: Option<usize>,
    classes: Seq<RangeClassReport>,
    class_ids: Seq<HandClassId>,
)
    requires
        cell_ok(cell, index, player, public_node, classes, class_ids),
        forall|i: int|
            0 <= i < classes.len() ==> (#[trigger] classes[i]).player != player
                || classes[i].public_node != public_node || classes[i].class_id != cell.class_id,
    ensures
        cell.combo_count is None,
        cell.marginal_weight is None,
        cell.actions@.len() == 0,
{
    let key = class_key(player, public_node, class_ids[index]);
    assert forall|i: int| 0 <= i < classes.len() implies (#[trigger] classes[i]).key() != key by {
        lemma_matrix_keys(
            classes[i].player,
            player,
            classes[i].public_node,
            public_node,
            classes[i].class_id,
            class_ids[index],
        );
    }
}

/// An action is exported under its own name and with its own amount.
pub proof fn lemma_exported_actions(action: Action)
    ensures
        action is Fold <==> exported(action) is Fold,
        action is Check <==> exported(action) is Check,
        action is Call <==> exported(action) is Call,
        action is Bet <==> exported(action) is Bet,
        action is Raise <==> exported(action) is Raise,
        action is AllIn <==> exported(action) is AllIn,
        action is Bet ==> exported(action)->Bet_to == action->Bet_to,
        action is Raise ==> exported(action)->Raise_to == action->Raise_to,
        action_target(action) is Some <==> action is Bet || action is Raise,
        action is Bet ==> action_target(action) == Some(action->Bet_to),
        action is Raise ==> action_target(action) == Some(action->Raise_to),
        action is Fold ==> kind_text(action) == "fold"@ && label_text(action) == "fold"@,
        action is Check ==> kind_text(action) == "check"@ && label_text(action) == "check"@,
        action is Call ==> kind_text(action) == "call"@ && label_text(action) == "call"@,
        action is Bet ==> kind_text(action) == "bet"@,
        action is Raise ==> kind_text(action) == "raise"@,
        action is AllIn ==> kind_text(action) == "all_in"@ && label_text(action) == "all-in"@,
{
}

/// A bet and a raise are labelled with the amount they go to.
pub proof fn lemma_labelled_amounts(action: Action)
    ensures
        action is Bet ==> label_text(action).take(4) == "bet "@ && value_of(
            label_text(action).skip(4),
        ) == action->Bet_to,
        action is Raise ==> label_text(action).take(9) == "raise to "@ && value_of(
            label_text(action).skip(9),
        ) == action->Raise_to,
{
    reveal_strlit("bet ");
    reveal_strlit("raise to ");
    if action is Bet {
        let digits = crate::text::decimal_text(action->Bet_to as nat);
        lemma_decimal_text_reads_back(action->Bet_to as nat);
        assert(label_text(action).take(4) =~= "bet "@);
        assert(label_text(action).skip(4) =~= digits);
    }
    if action is Raise {
        let digits = crate::text::decimal_text(action->Raise_to as nat);
        lemma_decimal_text_reads_back(action->Raise_to as nat);
        assert(label_text(action).take(9) =~= "raise to "@);
        assert(label_text(action).skip(9) =~= digits);
    }
}

/// Every heading of the grid's table stands over its own value.
pub proof fn lemma_columns_of_a_grid(
    report: RangeMatrixReport,
    texts: MatrixTexts,
    m: int,
    c: int,
    a: int,
)
    ensures
        ({
            let names = header_fields();
            let row = row_fields(report, texts, m, c, Some(a));
            let bare = row_fields(report, texts, m, c, None);
            let matrix = report.matrices@[m];
            let cell = matrix.cells@[c];
            let action = cell.actions@[a];
            &&& names.len() == 21
            &&& row.len() == 21
            &&& bare.len() == 21
            &&& bare.take(16) == row.take(16)
            &&& names[0] == "schema_version"@ && value_of(row[0]) == report.schema_version
            &&& names[1] == "format"@ && row[1] == "range_matrix"@
            &&& names[3] == "iterations"@ && value_of(row[3]) == report.iterations
            &&& names[4] == "average_utility_player_0"@ && row[4] == texts.utility@[0]@
            &&& names[5] == "average_utility_player_1"@ && row[5] == texts.utility@[1]@
            &&& names[6] == "player"@ && value_of(row[6]) == matrix.player
            &&& names[7] == "public_node"@ && (matrix.public_node is None ==> row[7].len() == 0)
            &&& matrix.public_node is Some ==> value_of(row[7]) == matrix.public_node->Some_0
            &&& names[8] == "row"@ && value_of(row[8]) == cell.row
            &&& names[9] == "column"@ && value_of(row[9]) == cell.column
            &&& names[10] == "row_rank"@ && row[10] == seq![cell.row_rank]
            &&& names[11] == "column_rank"@ && row[11] == seq![cell.column_rank]
            &&& names[12] == "class_name"@ && row[12] == cell.class_name@
            &&& names[13] == "class_id"@ && value_of(row[13]) == cell.class_id
            &&& names[14] == "combo_count"@ && (cell.combo_count is None ==> row[14].len() == 0)
            &&& cell.combo_count is Some ==> value_of(row[14]) == cell.combo_count->Some_0
            &&& names[15] == "marginal_weight"@ && row[15]
                == texts.matrices@[m]@[c].marginal_weight@
            &&& names[16] == "action_kind"@ && row[16] == kind_text(action.action)
            &&& names[17] == "action_to"@ && (action_target(action.action) is None ==> row[17].len()
                == 0)
            &&& action_target(action.action) is Some ==> value_of(row[17]) == action_target(
                action.action,
            )->Some_0
            &&& names[18] == "frequency"@ && row[18]
                == texts.matrices@[m]@[c].actions@[a].frequency@
            &&& names[19] == "counterfactual_ev"@ && row[19]
                == texts.matrices@[m]@[c].actions@[a].counterfactual_ev@
            &&& names[20] == "ev_loss"@ && row[20] == texts.matrices@[m]@[c].actions@[a].ev_loss@
            &&& forall|k: int| 16 <= k < 21 ==> (#[trigger] bare[k]).len() == 0
        }),
{
    let matrix = report.matrices@[m];
    let cell = matrix.cells@[c];
    lemma_decimal_text_reads_back(report.schema_version as nat);
    lemma_decimal_text_reads_back(report.iterations as nat);
    lemma_decimal_text_reads_back(matrix.player as nat);
    lemma_decimal_text_reads_back(cell.row as nat);
    lemma_decimal_text_reads_back(cell.column as nat);
    lemma_decimal_text_reads_back(cell.class_id as nat);
    if matrix.public_node is Some {
        lemma_decimal_text_reads_back(matrix.public_node->Some_0 as nat);
    }
    if cell.combo_count is Some {
        lemma_decimal_text_reads_back(cell.combo_count->Some_0 as nat);
    }
    crate::laws::texts::lemma_optional_numbers(action_target(cell.actions@[a].action));
    let row = row_fields(report, texts, m, c, Some(a));
    let bare = row_fields(report, texts, m, c, None);
    assert(bare.take(16) =~= row.take(16));
}

/// How many rows a cell takes: one for each action, and one where it has none.
pub open spec fn rows_of_cell(report: RangeMatrixReport, m: int, c: int) -> int {
    let count = report.matrices@[m].cells@[c].actions@.len();
    if count == 0 {
        1
    } else {
        count as int
    }
}

/// How many rows stand before a cell of a grid.
pub open spec fn rows_before_cell(report: RangeMatrixReport, m: int, c: int) -> int
    decreases c,
{
    if c <= 0 {
        0
    } else {
        rows_before_cell(report, m, c - 1) + rows_of_cell(report, m, c - 1)
    }
}

/// The rows of a grid stand cell by cell and action by action, each in its place.
pub proof fn lemma_rows_of_a_grid(
    report: RangeMatrixReport,
    texts: MatrixTexts,
    m: int,
    count: int,
    c: int,
    a: int,
)
    requires
        0 <= c < count,
        0 <= a < rows_of_cell(report, m, c),
    ensures
        ({
            let rows = matrix_rows(report, texts, m, count);
            let at = rows_before_cell(report, m, c) + a;
            &&& rows.len() == rows_before_cell(report, m, count)
            &&& 0 <= at < rows.len()
            &&& rows[at] == row_text(
                row_fields(
                    report,
                    texts,
                    m,
                    c,
                    if report.matrices@[m].cells@[c].actions@.len() == 0 {
                        None
                    } else {
                        Some(a)
                    },
                ),
            )
        }),
    decreases count,
{
    lemma_grid_size(report, texts, m, count);
    lemma_grid_size(report, texts, m, count - 1);
    if c < count - 1 {
        lemma_rows_of_a_grid(report, texts, m, count - 1, c, a);
    } else {
        assert(cell_rows(report, texts, m, c).len() == rows_of_cell(report, m, c));
    }
}

proof fn lemma_grid_size(report: RangeMatrixReport, texts: MatrixTexts, m: int, count: int)
    ensures
        matrix_rows(report, texts, m, count).len() == rows_before_cell(report, m, count),
        rows_before_cell(report, m, count) >= 0,
    decreases count,
{
    if count > 0 {
        lemma_grid_size(report, texts, m, count - 1);
        assert(cell_rows(report, texts, m, count - 1).len() == rows_of_cell(report, m, count - 1));
    }
}

/// The grids of a report stand one after the other.
pub proof fn lemma_grids_of_a_report(
    report: RangeMatrixReport,
    texts: MatrixTexts,
    count: int,
    m: int,
)
    requires
        0 <= m < count,
    ensures
        ({
            let start = report_rows(report, texts, m).len() as int;
            let grid = matrix_rows(report, texts, m, report.matrices@[m].cells@.len() as int);
            let rows = report_rows(report, texts, count);
            &&& start + grid.len() <= rows.len()
            &&& rows.subrange(start, start + grid.len()) == grid
            &&& m == 0 ==> start == 0
            &&& m == count - 1 ==> rows.len() == start + grid.len()
        }),
    decreases count,
{
    let start = report_rows(report, texts, m).len() as int;
    let grid = matrix_rows(report, texts, m, report.matrices@[m].cells@.len() as int);
    let rows = report_rows(report, texts, count);
    if m < count - 1 {
        lemma_grids_of_a_report(report, texts, count - 1, m);
        let before = report_rows(report, texts, count - 1);
        assert(rows.subrange(start, start + grid.len()) =~= before.subrange(
            start,
            start + grid.len(),
        ));
    } else {
        assert(rows.subrange(start, start + grid.len()) =~= grid);
    }
}

/// Every column of a batch report holds its own value.
pub proof fn lemma_columns_of_a_batch(
    player_count: usize,
    iterations: u64,
    row: MultiwayBatchInfoSetReport,
    texts: BatchRowTexts,
    a: int,
)
    ensures
        ({
            let fields = batch_fields(player_count, iterations, row, texts, a);
            &&& fields.len() == 14
            &&& fields[1] == "multiway_batch_strategy"@
            &&& value_of(fields[2]) == player_count
            &&& value_of(fields[3]) == iterations
            &&& value_of(fields[4]) == row.player
            &&& value_of(fields[5]) == row.public_node
            &&& value_of(fields[6]) == row.private_hand.first
            &&& value_of(fields[7]) == row.private_hand.second
            &&& value_of(fields[8]) == texts.hand_class_id
            &&& value_of(fields[9]) == row.visits
            &&& fields[10] == kind_text(row.actions@[a])
            &&& action_target(row.actions@[a]) is None ==> fields[11].len() == 0
            &&& action_target(row.actions@[a]) is Some ==> value_of(fields[11]) == action_target(
                row.actions@[a],
            )->Some_0
            &&& fields[12] == texts.frequencies@[a]@
            &&& fields[13] == texts.positive_regrets@[a]@
        }),
{
    lemma_decimal_text_reads_back(player_count as nat);
    lemma_decimal_text_reads_back(iterations as nat);
    lemma_decimal_text_reads_back(row.player as nat);
    lemma_decimal_text_reads_back(row.public_node as nat);
    lemma_decimal_text_reads_back(row.private_hand.first as nat);
    lemma_decimal_text_reads_back(row.private_hand.second as nat);
    lemma_decimal_text_reads_back(texts.hand_class_id as nat);
    lemma_decimal_text_reads_back(row.visits as nat);
    crate::laws::texts::lemma_optional_numbers(action_target(row.actions@[a]));
}

/// How many rows the first information sets take.
pub open spec fn actions_before(rows: Seq<MultiwayBatchInfoSetReport>, count: int) -> int
    decreases count,
{
    if count <= 0 {
        0
    } else {
        actions_before(rows, count - 1) + rows[count - 1].actions@.len()
    }
}

/// The rows of a batch report stand information set by information set and action by
/// action, each in its place.
pub proof fn lemma_rows_of_a_batch(
    player_count: usize,
    iterations: u64,
    rows: Seq<MultiwayBatchInfoSetReport>,
    texts: Seq<BatchRowTexts>,
    count: int,
    i: int,
    a: int,
)
    requires
        0 <= i < count,
        0 <= a < rows[i].actions@.len(),
    ensures
        ({
            let list = all_rows(player_count, iterations, rows, texts, count);
            let at = actions_before(rows, i) + a;
            &&& list.len() == actions_before(rows, count)
            &&& 0 <= at < list.len()
            &&& list[at] == row_text(batch_fields(player_count, iterations, rows[i], texts[i], a))
        }),
    decreases count,
{
    lemma_batch_size(player_count, iterations, rows, texts, count);
    lemma_batch_size(player_count, iterations, rows, texts, count - 1);
    if i < count - 1 {
        lemma_rows_of_a_batch(player_count, iterations, rows, texts, count - 1, i, a);
    } else {
        assert(infoset_rows(player_count, iterations, rows[i], texts[i])[a] == row_text(
            batch_fields(player_count, iterations, rows[i], texts[i], a),
        ));
    }
}

proof fn lemma_batch_size(
    player_count: usize,
    iterations: u64,
    rows: Seq<MultiwayBatchInfoSetReport>,
    texts: Seq<BatchRowTexts>,
    count: int,
)
    ensures
        all_rows(player_count, iterations, rows, texts, count).len() == actions_before(rows, count),
        actions_before(rows, count) >= 0,
    decreases count,
{
    if count > 0 {
        lemma_batch_size(player_count, iterations, rows, texts, count - 1);
    }
}

/// A row tells of a player's decision at a node with a hand.
pub open spec fn tells(
    row: MultiwayBatchInfoSetReport,
    player: usize,
    node: usize,
    hand: Combo,
) -> bool {
    row.player == player && row.public_node == node && row.private_hand == hand
}

pub open spec fn told(
    rows: Seq<MultiwayBatchInfoSetReport>,
    player: usize,
    node: usize,
    hand: Combo,
) -> bool {
    exists|r: int| 0 <= r < rows.len() && tells(#[trigger] rows[r], player, node, hand)
}

proof fn lemma_first_row(
    rows: Seq<MultiwayBatchInfoSetReport>,
    player: usize,
    node: usize,
    hand: Combo,
    from: int,
)
    requires
        0 <= from <= rows.len(),
    ensures
        match first_row(rows, player, node, hand, from) {
            Some(at) => {
                &&& from <= at < rows.len()
                &&& tells(rows[at], player, node, hand)
                &&& forall|r: int|
                    from <= r < at ==> !tells(#[trigger] rows[r], player, node, hand)
            },
            None => forall|r: int|
                from <= r < rows.len() ==> !tells(#[trigger] rows[r], player, node, hand),
        },
    decreases rows.len() - from,
{
    if from < rows.len() {
        lemma_first_row(rows, player, node, hand, from + 1);
    }
}

pub open spec fn hands_told(
    rows: Seq<MultiwayBatchInfoSetReport>,
    player: usize,
    node: usize,
    hands: Seq<Combo>,
    yes: bool,
) -> spec_fn(int) -> bool {
    |k: int| told(rows, player, node, hands[k]) == yes
}

/// The hero's hands are told apart: those that some row tells of are observed, in their
/// order, each with the visits of the first such row; the others are missing.
pub proof fn lemma_observed_hands(
    rows: Seq<MultiwayBatchInfoSetReport>,
    player: usize,
    node: usize,
    hands: Seq<Combo>,
    count: int,
) -> (origins: (Seq<int>, Seq<int>))
    requires
        0 <= count <= hands.len(),
        rows.len() <= usize::MAX,
    ensures
        ({
            let observed = observed_of(rows, player, node, hands, count);
            let missing = missing_of(rows, player, node, hands, count);
            &&& picks(origins.0, count, hands_told(rows, player, node, hands, true))
            &&& picks(origins.1, count, hands_told(rows, player, node, hands, false))
            &&& observed.len() == origins.0.len()
            &&& missing.len() == origins.1.len()
            &&& forall|k: int|
                0 <= k < observed.len() ==> {
                    let entry = #[trigger] observed[k];
                    &&& entry.private_hand == hands[origins.0[k]]
                    &&& entry.row < rows.len()
                    &&& tells(rows[entry.row as int], player, node, entry.private_hand)
                    &&& forall|r: int|
                        0 <= r < entry.row ==> !tells(
                            #[trigger] rows[r],
                            player,
                            node,
                            entry.private_hand,
                        )
                    &&& entry.visits == rows[entry.row as int].visits
                }
            &&& forall|k: int|
                0 <= k < missing.len() ==> #[trigger] missing[k] == hands[origins.1[k]]
        }),
    decreases count,
{
    if count == 0 {
        (Seq::empty(), Seq::empty())
    } else {
        let (seen, unseen) = lemma_observed_hands(rows, player, node, hands, count - 1);
        let hand = hands[count - 1];
        lemma_first_row(rows, player, node, hand, 0);
        let found = first_row(rows, player, node, hand, 0);
        assert(told(rows, player, node, hand) == (found is Some)) by {
            if found is Some {
                assert(tells(rows[found->Some_0], player, node, hand));
            }
        }
        let more = lemma_pick(seen, count - 1, hands_told(rows, player, node, hands, true));
        let less = lemma_pick(unseen, count - 1, hands_told(rows, player, node, hands, false));
        let before = observed_of(rows, player, node, hands, count - 1);
        let observed = observed_of(rows, player, node, hands, count);
        assert forall|k: int| 0 <= k < observed.len() implies {
            let entry = #[trigger] observed[k];
            &&& entry.private_hand == hands[more[k]]
            &&& entry.row < rows.len()
            &&& tells(rows[entry.row as int], player, node, entry.private_hand)
            &&& forall|r: int|
                0 <= r < entry.row ==> !tells(#[trigger] rows[r], player, node, entry.private_hand)
            &&& entry.visits == rows[entry.row as int].visits
        } by {
            if k < before.len() {
                assert(observed[k] == before[k]);
            }
        }
        let missed = missing_of(rows, player, node, hands, count - 1);
        let missing = missing_of(rows, player, node, hands, count);
        assert forall|k: int| 0 <= k < missing.len() implies #[trigger] missing[k]
            == hands[less[k]] by {
            if k < missed.len() {
                assert(missing[k] == missed[k]);
            }
        }
        (more, less)
    }
}

/// The observed hands offer the same actions exactly where none of them differs; the
/// one that is named is the first that does.
pub proof fn lemma_hands_with_other_actions(
    rows: Seq<MultiwayBatchInfoSetReport>,
    observed: Seq<MultiwayHoldemSpotHeroHandReport>,
    actions: Seq<Action>,
    from: int,
)
    requires
        0 <= from <= observed.len(),
    ensures
        first_different(rows, observed, actions, from) is None <==> forall|k: int|
            from <= k < observed.len() ==> rows[(
            #[trigger] observed[k]).row as int].actions@ == actions,
        first_different(rows, observed, actions, from) matches Some(hand) ==> exists|k: int|
            {
                &&& from <= k < observed.len()
                &&& (#[trigger] observed[k]).private_hand == hand
                &&& rows[observed[k].row as int].actions@ != actions
            },
    decreases observed.len() - from,
{
    if from < observed.len() {
        lemma_hands_with_other_actions(rows, observed, actions, from + 1);
        if rows[observed[from].row as int].actions@ != actions {
            assert(observed[from].private_hand == observed[from].private_hand);
        }
    }
}

pub open spec fn leads_on(nodes: Seq<TreeNode>, children: Seq<usize>) -> spec_fn(int) -> bool {
    |k: int| children[k] < nodes.len() && nodes[children[k] as int].action_from_parent is Some
}

/// The listed actions of a node are those that lead to its children, in their order,
/// each with its own child.
pub proof fn lemma_listed_actions(nodes: Seq<TreeNode>, children: Seq<usize>, count: int) -> (origin:
    Seq<int>)
    requires
        0 <= count <= children.len(),
    ensures
        picks(origin, count, leads_on(nodes, children)),
        indexed_actions(nodes, children, count).len() == origin.len(),
        forall|k: int|
            0 <= k < origin.len() ==> {
                let entry = #[trigger] indexed_actions(nodes, children, count)[k];
                &&& entry.child == children[origin[k]]
                &&& entry.action == exported(
                    nodes[children[origin[k]] as int].action_from_parent->Some_0,
                )
            },
    decreases count,
{
    if count == 0 {
        Seq::empty()
    } else {
        let shorter = lemma_listed_actions(nodes, children, count - 1);
        let origin = lemma_pick(shorter, count - 1, leads_on(nodes, children));
        let before = indexed_actions(nodes, children, count - 1);
        let after = indexed_actions(nodes, children, count);
        assert forall|k: int| 0 <= k < origin.len() implies {
            let entry = #[trigger] after[k];
            &&& entry.child == children[origin[k]]
            &&& entry.action == exported(
                nodes[children[origin[k]] as int].action_from_parent->Some_0,
            )
        } by {
            if k < shorter.len() {
                assert(after[k] == before[k]);
            }
        }
        origin
    }
}

/// The entry of a node has everything of it: place, street, board, chips, players and
/// what follows.
pub proof fn lemma_indexed_nodes(entry: TreeIndexNode, nodes: Seq<TreeNode>, node: TreeNode)
    requires
        indexed(entry, nodes, node),
    ensures
        entry.id == node.id,
        entry.parent == node.parent,
        node.state.street is Preflop ==> entry.street@ == "preflop"@,
        node.state.street is Flop ==> entry.street@ == "flop"@,
        node.state.street is Turn ==> entry.street@ == "turn"@,
        node.state.street is River ==> entry.street@ == "river"@,
        entry.board@ == node.state.board@,
        entry.pot == node.state.pot,
        entry.current_bet == node.state.current_bet,
        entry.dead_money == node.state.dead_money,
        entry.actor == node.state.actor,
        entry.players@.len() == node.state.players@.len(),
        forall|p: int|
            0 <= p < entry.players@.len() ==> {
                let player = node.state.players@[p];
                &&& (#[trigger] entry.players@[p]).seat == player.seat
                &&& entry.players@[p].stack == player.stack_remaining
                &&& entry.players@[p].committed == player.committed_total
                &&& player.status is Active ==> entry.players@[p].status@ == "active"@
                &&& player.status is Folded ==> entry.players@[p].status@ == "folded"@
                &&& player.status is AllIn ==> entry.players@[p].status@ == "all_in"@
                &&& player.status is OutOfHand ==> entry.players@[p].status@ == "out_of_hand"@
            },
        entry.actions@ == indexed_actions(nodes, node.children@, node.children@.len() as int),
        node.chance is None <==> entry.chance is None,
        node.chance is Some && node.chance->Some_0.outcomes@.len() == node.children@.len() ==> {
            let deals = entry.chance->Some_0@;
            let outcomes = node.chance->Some_0.outcomes@;
            &&& deals.len() == outcomes.len()
            &&& forall|i: int|
                0 <= i < deals.len() ==> (#[trigger] deals[i]).cards@ == outcomes[i].cards@
                    && deals[i].child == node.children@[i]
        },
        node.leaf is None <==> entry.terminal is None,
        node.leaf == Some(LeafKind::RoundComplete) <==> entry.terminal == Some(
            TreeIndexEnd::RoundComplete,
        ),
        node.leaf == Some(LeafKind::Terminal(TerminalState::Showdown)) <==> entry.terminal == Some(
            TreeIndexEnd::Showdown,
        ),
        node.leaf matches Some(LeafKind::Terminal(TerminalState::Fold { winner }))
            ==> entry.terminal == Some(TreeIndexEnd::Fold { winner }),
{
}

pub open spec fn can_be_dealt(hands: Seq<Combo>, dead_cards: u64, weighted: Seq<bool>) -> spec_fn(
    int,
) -> bool {
    |k: int| !is_dead(hands[k], dead_cards) && weighted[k]
}

/// The hands of a drill are those that no dead card meets and that have weight, all of
/// them, in order.
pub proof fn lemma_hands_of_a_drill(
    hands: Seq<Combo>,
    dead_cards: u64,
    weighted: Seq<bool>,
    count: int,
) -> (origin: Seq<int>)
    requires
        0 <= count <= hands.len() <= usize::MAX,
        forall|i: int| 0 <= i < hands.len() ==> (#[trigger] hands[i]).valid(),
    ensures
        picks(origin, count, can_be_dealt(hands, dead_cards, weighted)),
        playable(hands, dead_cards, weighted, count).len() == origin.len(),
        forall|k: int|
            0 <= k < origin.len() ==> #[trigger] playable(hands, dead_cards, weighted, count)[k]
                == origin[k],
    decreases count,
{
    if count == 0 {
        Seq::empty()
    } else {
        let shorter = lemma_hands_of_a_drill(hands, dead_cards, weighted, count - 1);
        lemma_hands_meet(hands[count - 1], hands[count - 1], dead_cards);
        let origin = lemma_pick(shorter, count - 1, can_be_dealt(hands, dead_cards, weighted));
        let before = playable(hands, dead_cards, weighted, count - 1);
        let after = playable(hands, dead_cards, weighted, count);
        assert forall|k: int| 0 <= k < origin.len() implies #[trigger] after[k] == origin[k] by {
            if k < shorter.len() {
                assert(before[k] == shorter[k]);
            }
        }
        origin
    }
}

/// The hands of a drill follow from its seed: each takes the next draw of the
/// generator, and the same seed gives the same hands.
pub proof fn lemma_drawn_hands(
    hands: Seq<Combo>,
    thresholds: Seq<u64>,
    seed: u64,
    index: nat,
)
    ensures
        drawn_state(seed, 0) == seeded_state(seed),
        drawn_state(seed, index + 1) == xorshift(drawn_state(seed, index)),
        dealt_hand(hands, thresholds, seed, index) == hands[chosen_index(
            thresholds,
            xorshift(drawn_state(seed, index)) >> 11u64,
        )],
{
    reveal_with_fuel(drawn_state, 2);
}

/// Each action of a drill has its own label, in order.
pub proof fn lemma_labels_in_order(actions: Seq<Action>, i: int)
    requires
        0 <= i < actions.len(),
    ensures
        label_texts(actions).len() == actions.len(),
        label_texts(actions)[i] == label_text(actions[i]),
{
}

} // verus!
