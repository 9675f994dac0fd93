//! Class reports projected onto the 13x13 grid of starting hands.
use vstd::prelude::*;

use crate::checkpoint::SolverAlgorithm;
use crate::domain::Action;
use crate::table::{lemma_entry, Key, Table};

verus! {

pub type HandClassId = u16;

/// Version of the machine-readable range result.
pub const RANGE_RESULT_SCHEMA_VERSION: u32 = 1;

/// Rows and columns of the grid.
pub const RANGE_MATRIX_SIZE: usize = 13;

/// Cells of the grid.
pub const RANGE_MATRIX_CELLS: usize = 169;

/// What an action of a class is worth; numbers are IEEE-754 bits.
#[derive(Debug, Clone, Copy, PartialEq, Eq, Structural)]
pub struct RangeActionReport {
    pub action: Action,
    pub frequency: u64,
    pub counterfactual_ev: Option<u64>,
    pub ev_loss: Option<u64>,
}

#[derive(Debug, Clone)]
pub struct RangeClassReport {
    pub player: usize,
    pub public_node: Option<usize>,
    pub class_id: HandClassId,
    pub combo_count: usize,
    pub marginal_weight: u64,
    pub actions: Vec<RangeActionReport>,
}

#[derive(Debug, Clone)]
pub struct RangeStrategyReport {
    pub algorithm: SolverAlgorithm,
    pub iterations: u64,
    pub average_utility: [u64; 2],
    pub classes: Vec<RangeClassReport>,
}

/// A cell of the grid.
///
/// Rows and columns run `A, K, Q, ..., 2`. Above the diagonal lie the suited
/// hands, below it the offsuit hands, on it the pairs. A cell whose class was
/// not reported stays in the grid without numbers.
#[derive(Debug, Clone)]
pub struct RangeMatrixCell {
    pub row: usize,
    pub column: usize,
    pub row_rank: char,
    pub column_rank: char,
    pub class_name: String,
    pub class_id: HandClassId,
    pub combo_count: Option<usize>,
    pub marginal_weight: Option<u64>,
    pub actions: Vec<RangeActionReport>,
}

#[derive(Debug, Clone)]
pub struct RangeMatrix {
    pub player: usize,
    pub public_node: Option<usize>,
    pub cells: Vec<RangeMatrixCell>,
}

#[derive(Debug, Clone)]
pub struct RangeMatrixReport {
    pub schema_version: u32,
    pub algorithm: SolverAlgorithm,
    pub iterations: u64,
    pub average_utility: [u64; 2],
    pub rank_order: Vec<char>,
    pub matrices: Vec<RangeMatrix>,
}

#[derive(Debug, Clone, Copy, PartialEq, Eq, Structural)]
pub enum MatrixError {
    UnknownClass { class_id: HandClassId },
    DuplicateClass { class_id: HandClassId, player: usize, public_node: Option<usize> },
}

/// The rank of a row or column, aces first.
pub open spec fn rank_at(index: int) -> char {
    if index == 0 {
        'A'
    } else if index == 1 {
        'K'
    } else if index == 2 {
        'Q'
    } else if index == 3 {
        'J'
    } else if index == 4 {
        'T'
    } else if index == 5 {
        '9'
    } else if index == 6 {
        '8'
    } else if index == 7 {
        '7'
    } else if index == 8 {
        '6'
    } else if index == 9 {
        '5'
    } else if index == 10 {
        '4'
    } else if index == 11 {
        '3'
    } else {
        '2'
    }
}

pub fn descending_rank(index: usize) -> (rank: char)
    requires
        index < RANGE_MATRIX_SIZE,
    ensures
        rank == rank_at(index as int),
{
    if index == 0 {
        'A'
    } else if index == 1 {
        'K'
    } else if index == 2 {
        'Q'
    } else if index == 3 {
        'J'
    } else if index == 4 {
        'T'
    } else if index == 5 {
        '9'
    } else if index == 6 {
        '8'
    } else if index == 7 {
        '7'
    } else if index == 8 {
        '6'
    } else if index == 9 {
        '5'
    } else if index == 10 {
        '4'
    } else if index == 11 {
        '3'
    } else {
        '2'
    }
}

/// The name of the class of a cell, the higher rank first.
pub open spec fn class_name_text(row: int, column: int) -> Seq<char> {
    if row == column {
        seq![rank_at(row), rank_at(column)]
    } else if row < column {
        seq![rank_at(row), rank_at(column), 's']
    } else {
        seq![rank_at(column), rank_at(row), 'o']
    }
}

/// The text of the rank of a row or column.
pub fn rank_text(index: usize) -> (text: &'static str)
    requires
        index < RANGE_MATRIX_SIZE,
    ensures
        text@ == seq![rank_at(index as int)],
{
    proof {
        reveal_strlit("AKQJT98765432");
    }
    let text = "AKQJT98765432".substring_char(index, index + 1);
    assert(text@ =~= seq![rank_at(index as int)]);
    text
}

/// The name of the class of a cell.
pub fn class_name(row: usize, column: usize) -> (name: String)
    requires
        row < RANGE_MATRIX_SIZE,
        column < RANGE_MATRIX_SIZE,
    ensures
        name@ == class_name_text(row as int, column as int),
{
    proof {
        reveal_strlit("s");
        reveal_strlit("o");
    }
    let mut name = String::new();
    if row == column {
        name.append(rank_text(row));
        name.append(rank_text(column));
    } else if row < column {
        name.append(rank_text(row));
        name.append(rank_text(column));
        name.append("s");
    } else {
        name.append(rank_text(column));
        name.append(rank_text(row));
        name.append("o");
    }
    assert(name@ =~= class_name_text(row as int, column as int));
    name
}

/// No two cells have the same class name.
pub proof fn lemma_class_names_differ(row: int, column: int, other_row: int, other_column: int)
    requires
        0 <= row < 13,
        0 <= column < 13,
        0 <= other_row < 13,
        0 <= other_column < 13,
        class_name_text(row, column) == class_name_text(other_row, other_column),
    ensures
        row == other_row,
        column == other_column,
{
    let a = class_name_text(row, column);
    let b = class_name_text(other_row, other_column);
    assert(a.len() == b.len());
    assert(a[0] == b[0]);
    assert(a[1] == b[1]);
    if row != column {
        assert(a[2] == b[2]);
    }
}

/// Where a class was reported: player and public node.
pub open spec fn context_key(player: usize, public_node: Option<usize>) -> Key {
    match public_node {
        None => Key { major: player as u64, middle: 0, minor: 0 },
        Some(node) => Key { major: player as u64, middle: 1, minor: node as u64 },
    }
}

fn make_context_key(player: usize, public_node: Option<usize>) -> (key: Key)
    ensures
        key == context_key(player, public_node),
{
    match public_node {
        None => Key { major: player as u64, middle: 0, minor: 0 },
        Some(node) => Key { major: player as u64, middle: 1, minor: node as u64 },
    }
}

/// Context and class of a report.
pub open spec fn class_key(
    player: usize,
    public_node: Option<usize>,
    class_id: HandClassId,
) -> Key {
    match public_node {
        None => Key { major: player as u64, middle: class_id as u64, minor: 0 },
        Some(node) => Key {
            major: player as u64,
            middle: (65536 + class_id) as u64,
            minor: node as u64,
        },
    }
}

fn make_class_key(player: usize, public_node: Option<usize>, class_id: HandClassId) -> (key: Key)
    ensures
        key == class_key(player, public_node, class_id),
{
    match public_node {
        None => Key { major: player as u64, middle: class_id as u64, minor: 0 },
        Some(node) => Key {
            major: player as u64,
            middle: 65536 + class_id as u64,
            minor: node as u64,
        },
    }
}

impl RangeClassReport {
    pub open spec fn key(self) -> Key {
        class_key(self.player, self.public_node, self.class_id)
    }

    pub open spec fn context(self) -> Key {
        context_key(self.player, self.public_node)
    }
}

/// The first problem among the classes from `from` on: a class outside the
/// grid, or one that was reported before in the same context.
pub open spec fn classes_error(
    classes: Seq<RangeClassReport>,
    class_ids: Seq<HandClassId>,
    from: int,
) -> Option<MatrixError>
    decreases classes.len() - from,
{
    if from >= classes.len() {
        None
    } else {
        let class = classes[from];
        if !class_ids.contains(class.class_id) {
            Some(MatrixError::UnknownClass { class_id: class.class_id })
        } else if exists|j: int| 0 <= j < from && (#[trigger] classes[j]).key() == class.key() {
            Some(
                MatrixError::DuplicateClass {
                    class_id: class.class_id,
                    player: class.player,
                    public_node: class.public_node,
                },
            )
        } else {
            classes_error(classes, class_ids, from + 1)
        }
    }
}

/// The report of a class in a context, if there is one.
pub open spec fn reported(classes: Seq<RangeClassReport>, key: Key) -> Option<int> {
    if exists|i: int| 0 <= i < classes.len() && (#[trigger] classes[i]).key() == key {
        Some(choose|i: int| 0 <= i < classes.len() && (#[trigger] classes[i]).key() == key)
    } else {
        None
    }
}

/// Cell `index` of the grid of one context.
pub open spec fn cell_ok(
    cell: RangeMatrixCell,
    index: int,
    player: usize,
    public_node: Option<usize>,
    classes: Seq<RangeClassReport>,
    class_ids: Seq<HandClassId>,
) -> bool {
    let found = reported(classes, class_key(player, public_node, class_ids[index]));
    &&& cell.row == index / 13
    &&& cell.column == index % 13
    &&& cell.row_rank == rank_at(index / 13)
    &&& cell.column_rank == rank_at(index % 13)
    &&& cell.class_name@ == class_name_text(index / 13, index % 13)
    &&& cell.class_id == class_ids[index]
    &&& match found {
        Some(i) => {
            &&& cell.combo_count == Some(classes[i].combo_count)
            &&& cell.marginal_weight == Some(classes[i].marginal_weight)
            &&& cell.actions@ == classes[i].actions@
        },
        None => {
            &&& cell.combo_count is None
            &&& cell.marginal_weight is None
            &&& cell.actions@.len() == 0
        },
    }
}

/// The grid of one context.
pub open spec fn matrix_ok(
    matrix: RangeMatrix,
    classes: Seq<RangeClassReport>,
    class_ids: Seq<HandClassId>,
) -> bool {
    &&& matrix.cells@.len() == RANGE_MATRIX_CELLS
    &&& forall|k: int|
        0 <= k < RANGE_MATRIX_CELLS ==> cell_ok(
            #[trigger] matrix.cells@[k],
            k,
            matrix.player,
            matrix.public_node,
            classes,
            class_ids,
        )
}

/// One grid for each context, contexts ascending.
pub open spec fn matrices_ok(
    matrices: Seq<RangeMatrix>,
    classes: Seq<RangeClassReport>,
    class_ids: Seq<HandClassId>,
) -> bool {
    &&& forall|m: int|
        0 <= m < matrices.len() ==> matrix_ok(#[trigger] matrices[m], classes, class_ids)
    &&& forall|m: int, n: int|
        0 <= m < n < matrices.len() ==> context_key(
            (#[trigger] matrices[m]).player,
            matrices[m].public_node,
        ).below(context_key((#[trigger] matrices[n]).player, matrices[n].public_node))
    &&& forall|i: int|
        0 <= i < classes.len() ==> has_context(matrices, (#[trigger] classes[i]).context())
    &&& forall|m: int|
        0 <= m < matrices.len() ==> reported_context(
            classes,
            context_key((#[trigger] matrices[m]).player, matrices[m].public_node),
        )
}

pub open spec fn has_context(matrices: Seq<RangeMatrix>, key: Key) -> bool {
    exists|m: int|
        0 <= m < matrices.len() && context_key(
            (#[trigger] matrices[m]).player,
            matrices[m].public_node,
        ) == key
}

pub open spec fn reported_context(classes: Seq<RangeClassReport>, key: Key) -> bool {
    exists|i: int| 0 <= i < classes.len() && (#[trigger] classes[i]).context() == key
}

fn holds_class(class_ids: &Vec<HandClassId>, class_id: HandClassId) -> (yes: bool)
    ensures
        yes == class_ids@.contains(class_id),
{
    let mut index: usize = 0;
    while index < class_ids.len()
        invariant
            index <= class_ids@.len(),
            forall|i: int| 0 <= i < index ==> class_ids@[i] != class_id,
        decreases class_ids.len() - index,
    {
        if class_ids[index] == class_id {
            assert(class_ids@[index as int] == class_id);
            return true;
        }
        index = index + 1;
    }
    false
}

fn copy_actions(actions: &Vec<RangeActionReport>) -> (copy: Vec<RangeActionReport>)
    ensures
        copy@ == actions@,
{
    let copy = actions.clone();
    assert(copy@ =~= actions@);
    copy
}

/// The table finds each report by its key.
spec fn indexes(table: Table<usize>, classes: Seq<RangeClassReport>, count: int) -> bool {
    &&& table.wf()
    &&& forall|key: Key| #[trigger]
        table@.dom().contains(key) ==> table@[key] < count && classes[table@[key] as int].key()
            == key
    &&& forall|i: int|
        0 <= i < count ==> table@.dom().contains((#[trigger] classes[i]).key())
}

/// No two reports have the same key.
spec fn keys_differ(classes: Seq<RangeClassReport>, count: int) -> bool {
    forall|i: int, j: int|
        0 <= i < j < count ==> (#[trigger] classes[i]).key() != (#[trigger] classes[j]).key()
}

impl RangeStrategyReport {
    /// Projects the classes onto complete grids, one for each player and public
    /// node that occurs. `class_ids` are the classes of the cells, row by row.
    pub fn to_matrix(&self, class_ids: &Vec<HandClassId>) -> (result: Result<
        RangeMatrixReport,
        MatrixError,
    >)
        requires
            class_ids@.len() == RANGE_MATRIX_CELLS,
        ensures
            match classes_error(self.classes@, class_ids@, 0) {
                Some(error) => result == Err::<RangeMatrixReport, MatrixError>(error),
                None => {
                    &&& result matches Ok(report)
                    &&& report.schema_version == RANGE_RESULT_SCHEMA_VERSION
                    &&& report.algorithm == self.algorithm
                    &&& report.iterations == self.iterations
                    &&& report.average_utility == self.average_utility
                    &&& report.rank_order@ == Seq::new(13, |i: int| rank_at(i))
                    &&& matrices_ok(report.matrices@, self.classes@, class_ids@)
                },
            },
    {
        let mut table: Table<usize> = Table::new();
        let mut contexts: Table<()> = Table::new();
        let mut index: usize = 0;
        while index < self.classes.len()
            invariant
                index <= self.classes@.len(),
                class_ids@.len() == RANGE_MATRIX_CELLS,
                indexes(table, self.classes@, index as int),
                keys_differ(self.classes@, index as int),
                contexts.wf(),
                context_keys(contexts),
                forall|key: Key| #[trigger]
                    contexts@.dom().contains(key) <==> reported_context(
                        self.classes@.take(index as int),
                        key,
                    ),
                classes_error(self.classes@, class_ids@, 0) == classes_error(
                    self.classes@,
                    class_ids@,
                    index as int,
                ),
            decreases self.classes.len() - index,
        {
            let class = &self.classes[index];
            if !holds_class(class_ids, class.class_id) {
                return Err(MatrixError::UnknownClass { class_id: class.class_id });
            }
            let key = make_class_key(class.player, class.public_node, class.class_id);
            let ghost before = table@;
            assert(key == self.classes@[index as int].key());
            if !table.insert_new(key, index) {
                assert(self.classes@[before[key] as int].key() == key);
                return Err(
                    MatrixError::DuplicateClass {
                        class_id: class.class_id,
                        player: class.player,
                        public_node: class.public_node,
                    },
                );
            }
            let context = make_context_key(class.player, class.public_node);
            let ghost known = contexts@;
            add_context(&mut contexts, context, class.player, class.public_node);
            proof {
                let some = self.classes@.take(index as int);
                let more = self.classes@.take(index as int + 1);
                assert forall|other: Key| #[trigger] contexts@.dom().contains(other) <==>
                    reported_context(more, other) by {
                    assert(known.dom().contains(other) <==> reported_context(some, other));
                    if reported_context(some, other) {
                        let i = choose|i: int|
                            0 <= i < some.len() && (#[trigger] some[i]).context() == other;
                        assert(more[i].context() == other);
                    }
                    if other == context {
                        assert(more[index as int].context() == other);
                    }
                    if reported_context(more, other) {
                        let i = choose|i: int|
                            0 <= i < more.len() && (#[trigger] more[i]).context() == other;
                        if i < index {
                            assert(some[i].context() == other);
                        }
                    }
                }
                assert forall|i: int| 0 <= i < index + 1 implies table@.dom().contains(
                    (#[trigger] self.classes@[i]).key(),
                ) by {}
            }
            index = index + 1;
        }
        assert(self.classes@.take(index as int) =~= self.classes@);
        let matrices = self.build_matrices(class_ids, &table, &contexts);
        Ok(
            RangeMatrixReport {
                schema_version: RANGE_RESULT_SCHEMA_VERSION,
                algorithm: self.algorithm,
                iterations: self.iterations,
                average_utility: self.average_utility,
                rank_order: ranks_in_order(),
                matrices,
            },
        )
    }

    fn build_matrices(
        &self,
        class_ids: &Vec<HandClassId>,
        table: &Table<usize>,
        contexts: &Table<()>,
    ) -> (matrices: Vec<RangeMatrix>)
        requires
            class_ids@.len() == RANGE_MATRIX_CELLS,
            indexes(*table, self.classes@, self.classes@.len() as int),
            keys_differ(self.classes@, self.classes@.len() as int),
            contexts.wf(),
            context_keys(*contexts),
            forall|key: Key| #[trigger]
                contexts@.dom().contains(key) <==> reported_context(self.classes@, key),
        ensures
            matrices_ok(matrices@, self.classes@, class_ids@),
    {
        let mut matrices: Vec<RangeMatrix> = Vec::new();
        let mut index: usize = 0;
        while index < contexts.entries.len()
            invariant
                index <= contexts.entries@.len(),
                matrices@.len() == index,
                class_ids@.len() == RANGE_MATRIX_CELLS,
                indexes(*table, self.classes@, self.classes@.len() as int),
                keys_differ(self.classes@, self.classes@.len() as int),
                contexts.wf(),
                context_keys(*contexts),
                forall|m: int|
                    0 <= m < index ==> matrix_ok(
                        #[trigger] matrices@[m],
                        self.classes@,
                        class_ids@,
                    ) && context_key(matrices@[m].player, matrices@[m].public_node)
                        == contexts.entries@[m].0,
            decreases contexts.entries.len() - index,
        {
            let key = contexts.entries[index].0;
            assert(context_key_ok(contexts.entries@[index as int].0));
            let player: usize = key.major as usize;
            let public_node: Option<usize> = if key.middle == 0 {
                None
            } else {
                Some(key.minor as usize)
            };
            let cells = self.build_cells(class_ids, table, player, public_node);
            matrices.push(RangeMatrix { player, public_node, cells });
            index = index + 1;
        }
        proof {
            assert forall|m: int, n: int| 0 <= m < n < matrices@.len() implies context_key(
                (#[trigger] matrices@[m]).player,
                matrices@[m].public_node,
            ).below(context_key((#[trigger] matrices@[n]).player, matrices@[n].public_node)) by {
                assert(contexts.entries@[m].0.below(contexts.entries@[n].0));
            }
            assert forall|i: int| 0 <= i < self.classes@.len() implies has_context(
                matrices@,
                (#[trigger] self.classes@[i]).context(),
            ) by {
                let key = self.classes@[i].context();
                assert(reported_context(self.classes@, key));
                assert(contexts@.dom().contains(key));
                assert(contexts.has(key));
                let m = choose|m: int|
                    0 <= m < contexts.entries@.len() && (#[trigger] contexts.entries@[m]).0 == key;
                assert(context_key(matrices@[m].player, matrices@[m].public_node) == key);
            }
            assert forall|m: int| 0 <= m < matrices@.len() implies reported_context(
                self.classes@,
                context_key((#[trigger] matrices@[m]).player, matrices@[m].public_node),
            ) by {
                lemma_entry(*contexts, m);
            }
        }
        matrices
    }

    fn build_cells(
        &self,
        class_ids: &Vec<HandClassId>,
        table: &Table<usize>,
        player: usize,
        public_node: Option<usize>,
    ) -> (cells: Vec<RangeMatrixCell>)
        requires
            class_ids@.len() == RANGE_MATRIX_CELLS,
            indexes(*table, self.classes@, self.classes@.len() as int),
            keys_differ(self.classes@, self.classes@.len() as int),
        ensures
            matrix_ok((RangeMatrix { player, public_node, cells }), self.classes@, class_ids@),
    {
        let mut cells: Vec<RangeMatrixCell> = Vec::new();
        while cells.len() < RANGE_MATRIX_CELLS
            invariant
                cells@.len() <= RANGE_MATRIX_CELLS,
                class_ids@.len() == RANGE_MATRIX_CELLS,
                indexes(*table, self.classes@, self.classes@.len() as int),
                keys_differ(self.classes@, self.classes@.len() as int),
                forall|k: int|
                    0 <= k < cells@.len() ==> cell_ok(
                        #[trigger] cells@[k],
                        k,
                        player,
                        public_node,
                        self.classes@,
                        class_ids@,
                    ),
            decreases RANGE_MATRIX_CELLS - cells.len(),
        {
            let number: usize = cells.len();
            let row: usize = number / 13;
            let column: usize = number % 13;
            let class_id = class_ids[number];
            let key = make_class_key(player, public_node, class_id);
            let mut combo_count: Option<usize> = None;
            let mut marginal_weight: Option<u64> = None;
            let mut actions: Vec<RangeActionReport> = Vec::new();
            match table.get(key) {
                Some(place) => {
                    let report = &self.classes[*place];
                    combo_count = Some(report.combo_count);
                    marginal_weight = Some(report.marginal_weight);
                    actions = copy_actions(&report.actions);
                    proof {
                        let at = *place as int;
                        assert(self.classes@[at].key() == key);
                        let found = reported(self.classes@, key)->Some_0;
                        assert(self.classes@[found].key() == key);
                        if found < at {
                            assert(self.classes@[found].key() != self.classes@[at].key());
                        } else if at < found {
                            assert(self.classes@[at].key() != self.classes@[found].key());
                        }
                        assert(found == at);
                    }
                },
                None => {
                    assert(reported(self.classes@, key) is None) by {
                        if exists|i: int|
                            0 <= i < self.classes@.len() && (#[trigger] self.classes@[i]).key()
                                == key {
                            let i = choose|i: int|
                                0 <= i < self.classes@.len() && (
                                #[trigger] self.classes@[i]).key() == key;
                            assert(table@.dom().contains(self.classes@[i].key()));
                        }
                    }
                },
            }
            cells.push(
                RangeMatrixCell {
                    row,
                    column,
                    row_rank: descending_rank(row),
                    column_rank: descending_rank(column),
                    class_name: class_name(row, column),
                    class_id,
                    combo_count,
                    marginal_weight,
                    actions,
                },
            );
        }
        cells
    }
}

/// The key of some context.
pub open spec fn context_key_ok(key: Key) -> bool {
    &&& key.major <= usize::MAX
    &&& key.minor <= usize::MAX
    &&& key.middle == 1 || key.middle == 0 && key.minor == 0
}

pub open spec fn context_keys(contexts: Table<()>) -> bool {
    forall|i: int|
        0 <= i < contexts.entries@.len() ==> context_key_ok((#[trigger] contexts.entries@[i]).0)
}

fn add_context(
    contexts: &mut Table<()>,
    key: Key,
    player: usize,
    public_node: Option<usize>,
)
    requires
        old(contexts).wf(),
        context_keys(*old(contexts)),
        key == context_key(player, public_node),
    ensures
        final(contexts).wf(),
        context_keys(*final(contexts)),
        forall|other: Key| #[trigger]
            final(contexts)@.dom().contains(other) <==> old(contexts)@.dom().contains(other)
                || other == key,
{
    match contexts.find(key) {
        crate::table::Place::Found(_) => {},
        crate::table::Place::Missing(index) => {
            contexts.insert_at(index, key, ());
            assert forall|i: int| 0 <= i < contexts.entries@.len() implies context_key_ok(
                (#[trigger] contexts.entries@[i]).0,
            ) by {
                if i < index {
                    assert(contexts.entries@[i] == old(contexts).entries@[i]);
                } else if i > index {
                    assert(contexts.entries@[i] == old(contexts).entries@[i - 1]);
                }
            }
        },
    }
}

fn ranks_in_order() -> (ranks: Vec<char>)
    ensures
        ranks@ == Seq::new(13, |i: int| rank_at(i)),
{
    let mut ranks: Vec<char> = Vec::new();
    while ranks.len() < RANGE_MATRIX_SIZE
        invariant
            ranks@.len() <= 13,
            ranks@ == Seq::new(ranks@.len(), |i: int| rank_at(i)),
        decreases 13 - ranks.len(),
    {
        let next = ranks.len();
        ranks.push(descending_rank(next));
        assert(ranks@ =~= Seq::new(ranks@.len(), |i: int| rank_at(i)));
    }
    ranks
}

} // verus!
