//! CSV export of grids.
//!
//! Numbers that are not whole come as texts from the caller.
use vstd::prelude::*;

use crate::checkpoint::SolverAlgorithm;
use crate::csv::{
    csv_lines, csv_row, lines_text, optional_csv, optional_text, row_text, string_views,
};
use crate::domain::Action;
use crate::matrix::{
    RangeMatrix, RangeMatrixCell, RangeMatrixReport,
};
use crate::text::{char_text, decimal, decimal_text};

verus! {

/// An action as it is exported.
#[derive(Debug, Clone, Copy, PartialEq, Eq, Structural)]
pub enum ActionExport {
    Fold,
    Check,
    Call,
    Bet { to: u64 },
    Raise { to: u64 },
    AllIn,
}

pub open spec fn exported(action: Action) -> ActionExport {
    match action {
        Action::Fold => ActionExport::Fold,
        Action::Check => ActionExport::Check,
        Action::Call => ActionExport::Call,
        Action::Bet { to } => ActionExport::Bet { to },
        Action::Raise { to } => ActionExport::Raise { to },
        Action::AllIn => ActionExport::AllIn,
    }
}

impl ActionExport {
    pub fn from_action(action: &Action) -> (export: Self)
        ensures
            export == exported(*action),
    {
        match *action {
            Action::Fold => ActionExport::Fold,
            Action::Check => ActionExport::Check,
            Action::Call => ActionExport::Call,
            Action::Bet { to } => ActionExport::Bet { to },
            Action::Raise { to } => ActionExport::Raise { to },
            Action::AllIn => ActionExport::AllIn,
        }
    }
}

pub open spec fn algorithm_text(algorithm: SolverAlgorithm) -> Seq<char> {
    match algorithm {
        SolverAlgorithm::CfrPlus => "cfr_plus"@,
        SolverAlgorithm::ExternalSamplingMccfr => "external_sampling_mccfr"@,
    }
}

pub fn algorithm_name(algorithm: SolverAlgorithm) -> (name: &'static str)
    ensures
        name@ == algorithm_text(algorithm),
{
    match algorithm {
        SolverAlgorithm::CfrPlus => "cfr_plus",
        SolverAlgorithm::ExternalSamplingMccfr => "external_sampling_mccfr",
    }
}

/// The kind of an action.
pub open spec fn kind_text(action: Action) -> Seq<char> {
    match action {
        Action::Fold => "fold"@,
        Action::Check => "check"@,
        Action::Call => "call"@,
        Action::Bet { to } => "bet"@,
        Action::Raise { to } => "raise"@,
        Action::AllIn => "all_in"@,
    }
}

/// The amount that an action goes to.
pub open spec fn action_target(action: Action) -> Option<u64> {
    match action {
        Action::Bet { to } => Some(to),
        Action::Raise { to } => Some(to),
        _ => None,
    }
}

pub fn action_kind(action: Action) -> (kind: &'static str)
    ensures
        kind@ == kind_text(action),
{
    match action {
        Action::Fold => "fold",
        Action::Check => "check",
        Action::Call => "call",
        Action::Bet { to } => "bet",
        Action::Raise { to } => "raise",
        Action::AllIn => "all_in",
    }
}

pub fn target_of(action: Action) -> (target: Option<u64>)
    ensures
        target == action_target(action),
{
    match action {
        Action::Bet { to } => Some(to),
        Action::Raise { to } => Some(to),
        _ => None,
    }
}

/// Texts of the numbers of an action; empty where there is no number.
#[derive(Debug)]
pub struct ActionTexts {
    pub frequency: String,
    pub counterfactual_ev: String,
    pub ev_loss: String,
}

/// Texts of the numbers of a cell.
#[derive(Debug)]
pub struct CellTexts {
    pub marginal_weight: String,
    pub actions: Vec<ActionTexts>,
}

/// Texts of the numbers of a report.
#[derive(Debug)]
pub struct MatrixTexts {
    pub utility: [String; 2],
    pub matrices: Vec<Vec<CellTexts>>,
}

/// There is a text for every number.
pub open spec fn texts_fit(report: RangeMatrixReport, texts: MatrixTexts) -> bool {
    &&& texts.matrices@.len() == report.matrices@.len()
    &&& forall|m: int|
        0 <= m < report.matrices@.len() ==> cells_fit(
            #[trigger] report.matrices@[m],
            texts.matrices@[m]@,
        )
}

pub open spec fn cells_fit(matrix: RangeMatrix, texts: Seq<CellTexts>) -> bool {
    &&& texts.len() == matrix.cells@.len()
    &&& forall|c: int|
        0 <= c < texts.len() ==> (#[trigger] texts[c]).actions@.len()
            == matrix.cells@[c].actions@.len()
}

pub open spec fn header_fields() -> Seq<Seq<char>> {
    seq![
        "schema_version"@,
        "format"@,
        "algorithm"@,
        "iterations"@,
        "average_utility_player_0"@,
        "average_utility_player_1"@,
        "player"@,
        "public_node"@,
        "row"@,
        "column"@,
        "row_rank"@,
        "column_rank"@,
        "class_name"@,
        "class_id"@,
        "combo_count"@,
        "marginal_weight"@,
        "action_kind"@,
        "action_to"@,
        "frequency"@,
        "counterfactual_ev"@,
        "ev_loss"@,
    ]
}

/// The fields of an action, all empty without one.
pub open spec fn action_fields(cell: RangeMatrixCell, texts: CellTexts, action: Option<int>) -> Seq<
    Seq<char>,
> {
    match action {
        None => seq![Seq::empty(), Seq::empty(), Seq::empty(), Seq::empty(), Seq::empty()],
        Some(a) => seq![
            kind_text(cell.actions@[a].action),
            optional_text(action_target(cell.actions@[a].action)),
            texts.actions@[a].frequency@,
            texts.actions@[a].counterfactual_ev@,
            texts.actions@[a].ev_loss@,
        ],
    }
}

pub open spec fn usize_text(value: Option<usize>) -> Seq<char> {
    match value {
        Some(number) => decimal_text(number as nat),
        None => Seq::empty(),
    }
}

/// The fields of a row: the report, the grid, the cell, the action.
pub open spec fn row_fields(
    report: RangeMatrixReport,
    texts: MatrixTexts,
    m: int,
    c: int,
    action: Option<int>,
) -> Seq<Seq<char>> {
    let matrix = report.matrices@[m];
    let cell = matrix.cells@[c];
    let cell_texts = texts.matrices@[m]@[c];
    seq![
        decimal_text(report.schema_version as nat),
        "range_matrix"@,
        algorithm_text(report.algorithm),
        decimal_text(report.iterations as nat),
        texts.utility@[0]@,
        texts.utility@[1]@,
        decimal_text(matrix.player as nat),
        usize_text(matrix.public_node),
        decimal_text(cell.row as nat),
        decimal_text(cell.column as nat),
        seq![cell.row_rank],
        seq![cell.column_rank],
        cell.class_name@,
        decimal_text(cell.class_id as nat),
        usize_text(cell.combo_count),
        cell_texts.marginal_weight@,
    ] + action_fields(cell, cell_texts, action)
}

/// The rows of a cell: one for each action, or one without.
pub open spec fn cell_rows(report: RangeMatrixReport, texts: MatrixTexts, m: int, c: int) -> Seq<
    Seq<char>,
> {
    let count = report.matrices@[m].cells@[c].actions@.len();
    if count == 0 {
        seq![row_text(row_fields(report, texts, m, c, None))]
    } else {
        Seq::new(count, |a: int| row_text(row_fields(report, texts, m, c, Some(a))))
    }
}

/// The rows of the first `count` cells of a grid.
pub open spec fn matrix_rows(report: RangeMatrixReport, texts: MatrixTexts, m: int, count: int) -> Seq<
    Seq<char>,
>
    decreases count,
{
    if count <= 0 {
        Seq::empty()
    } else {
        matrix_rows(report, texts, m, count - 1) + cell_rows(report, texts, m, count - 1)
    }
}

/// The rows of the first `count` grids.
pub open spec fn report_rows(report: RangeMatrixReport, texts: MatrixTexts, count: int) -> Seq<
    Seq<char>,
>
    decreases count,
{
    if count <= 0 {
        Seq::empty()
    } else {
        report_rows(report, texts, count - 1) + matrix_rows(
            report,
            texts,
            count - 1,
            report.matrices@[count - 1].cells@.len() as int,
        )
    }
}

fn owned(text: &str) -> (copy: String)
    ensures
        copy@ == text@,
{
    let mut copy = String::new();
    copy.append(text);
    assert(copy@ =~= text@);
    copy
}

fn usize_csv(value: Option<usize>) -> (text: String)
    ensures
        text@ == usize_text(value),
{
    match value {
        Some(number) => decimal(number as u64),
        None => optional_csv(None),
    }
}

fn header_row() -> (row: String)
    ensures
        row@ == row_text(header_fields()),
{
    let fields = vec![
        owned("schema_version"),
        owned("format"),
        owned("algorithm"),
        owned("iterations"),
        owned("average_utility_player_0"),
        owned("average_utility_player_1"),
        owned("player"),
        owned("public_node"),
        owned("row"),
        owned("column"),
        owned("row_rank"),
        owned("column_rank"),
        owned("class_name"),
        owned("class_id"),
        owned("combo_count"),
        owned("marginal_weight"),
        owned("action_kind"),
        owned("action_to"),
        owned("frequency"),
        owned("counterfactual_ev"),
        owned("ev_loss"),
    ];
    assert(string_views(fields@) =~= header_fields());
    csv_row(&fields)
}

/// The fields of an action, all empty without one.
pub fn action_csv_fields(cell: &RangeMatrixCell, texts: &CellTexts, action: Option<usize>) -> (fields:
    Vec<String>)
    requires
        texts.actions@.len() == cell.actions@.len(),
        action matches Some(a) ==> a < cell.actions@.len(),
    ensures
        string_views(fields@) == action_fields(
            *cell,
            *texts,
            match action {
                Some(a) => Some(a as int),
                None => None,
            },
        ),
{
    match action {
        None => {
            let fields = vec![
                optional_csv(None),
                optional_csv(None),
                optional_csv(None),
                optional_csv(None),
                optional_csv(None),
            ];
            assert(string_views(fields@) =~= action_fields(*cell, *texts, None));
            fields
        },
        Some(a) => {
            let made = cell.actions[a].action;
            let fields = vec![
                owned(action_kind(made)),
                optional_csv(target_of(made)),
                owned(texts.actions[a].frequency.as_str()),
                owned(texts.actions[a].counterfactual_ev.as_str()),
                owned(texts.actions[a].ev_loss.as_str()),
            ];
            assert(string_views(fields@) =~= action_fields(*cell, *texts, Some(a as int)));
            fields
        },
    }
}

fn build_row(
    report: &RangeMatrixReport,
    texts: &MatrixTexts,
    m: usize,
    c: usize,
    action: Option<usize>,
) -> (row: String)
    requires
        texts_fit(*report, *texts),
        m < report.matrices@.len(),
        c < report.matrices@[m as int].cells@.len(),
        action matches Some(a) ==> a < report.matrices@[m as int].cells@[c as int].actions@.len(),
    ensures
        row@ == row_text(
            row_fields(
                *report,
                *texts,
                m as int,
                c as int,
                match action {
                    Some(a) => Some(a as int),
                    None => None,
                },
            ),
        ),
{
    let matrix = &report.matrices[m];
    let cell = &matrix.cells[c];
    assert(cells_fit(report.matrices@[m as int], texts.matrices@[m as int]@));
    let cell_texts = &texts.matrices[m][c];
    let mut fields = vec![
        decimal(report.schema_version as u64),
        owned("range_matrix"),
        owned(algorithm_name(report.algorithm)),
        decimal(report.iterations),
        owned(texts.utility[0].as_str()),
        owned(texts.utility[1].as_str()),
        decimal(matrix.player as u64),
        usize_csv(matrix.public_node),
        decimal(cell.row as u64),
        decimal(cell.column as u64),
        char_text(cell.row_rank),
        char_text(cell.column_rank),
        owned(cell.class_name.as_str()),
        decimal(cell.class_id as u64),
        usize_csv(cell.combo_count),
        owned(cell_texts.marginal_weight.as_str()),
    ];
    let mut more = action_csv_fields(cell, cell_texts, action);
    let ghost front = fields@;
    let ghost back = more@;
    fields.append(&mut more);
    proof {
        let wanted = match action {
            Some(a) => Some(a as int),
            None => None,
        };
        assert(fields@ =~= front + back);
        assert(string_views(fields@) =~= string_views(front) + string_views(back));
        let all = row_fields(*report, *texts, m as int, c as int, wanted);
        assert(string_views(fields@) =~= all);
    }
    csv_row(&fields)
}

/// Writes a report as CSV: one row for each cell and action, and one for a cell
/// without actions.
pub fn matrix_report_to_csv(report: &RangeMatrixReport, texts: &MatrixTexts) -> (text: String)
    requires
        texts_fit(*report, *texts),
    ensures
        text@ == lines_text(
            seq![row_text(header_fields())] + report_rows(
                *report,
                *texts,
                report.matrices@.len() as int,
            ),
        ),
{
    let mut rows: Vec<String> = Vec::new();
    rows.push(header_row());
    let ghost head = seq![row_text(header_fields())];
    let mut m: usize = 0;
    assert(string_views(rows@) =~= head + report_rows(*report, *texts, 0));
    while m < report.matrices.len()
        invariant
            m <= report.matrices@.len(),
            texts_fit(*report, *texts),
            string_views(rows@) == head + report_rows(*report, *texts, m as int),
        decreases report.matrices.len() - m,
    {
        let ghost start = string_views(rows@);
        let count = report.matrices[m].cells.len();
        let mut c: usize = 0;
        assert(start =~= start + matrix_rows(*report, *texts, m as int, 0));
        while c < count
            invariant
                m < report.matrices@.len(),
                c <= count,
                count == report.matrices@[m as int].cells@.len(),
                texts_fit(*report, *texts),
                string_views(rows@) == start + matrix_rows(*report, *texts, m as int, c as int),
            decreases count - c,
        {
            let ghost before = string_views(rows@);
            push_cell_rows(&mut rows, report, texts, m, c);
            proof {
                let cell = cell_rows(*report, *texts, m as int, c as int);
                assert(before + cell =~= start + (matrix_rows(*report, *texts, m as int, c as int)
                    + cell));
            }
            c = c + 1;
        }
        proof {
            let grid = matrix_rows(*report, *texts, m as int, count as int);
            assert(start + grid =~= head + (report_rows(*report, *texts, m as int) + grid));
        }
        m = m + 1;
    }
    csv_lines(&rows)
}

impl RangeMatrixReport {
    /// Writes the report as CSV.
    pub fn to_csv(&self, texts: &MatrixTexts) -> (text: String)
        requires
            texts_fit(*self, *texts),
        ensures
            text@ == lines_text(
                seq![row_text(header_fields())] + report_rows(
                    *self,
                    *texts,
                    self.matrices@.len() as int,
                ),
            ),
    {
        matrix_report_to_csv(self, texts)
    }
}

fn push_cell_rows(
    rows: &mut Vec<String>,
    report: &RangeMatrixReport,
    texts: &MatrixTexts,
    m: usize,
    c: usize,
)
    requires
        texts_fit(*report, *texts),
        m < report.matrices@.len(),
        c < report.matrices@[m as int].cells@.len(),
    ensures
        string_views(final(rows)@) == string_views(old(rows)@) + cell_rows(
            *report,
            *texts,
            m as int,
            c as int,
        ),
{
    let count = report.matrices[m].cells[c].actions.len();
    let ghost start = rows@;
    if count == 0 {
        rows.push(build_row(report, texts, m, c, None));
        assert(string_views(rows@) =~= string_views(start) + cell_rows(
            *report,
            *texts,
            m as int,
            c as int,
        ));
        return;
    }
    let ghost all = cell_rows(*report, *texts, m as int, c as int);
    let mut a: usize = 0;
    assert(string_views(rows@) =~= string_views(start) + all.take(0));
    while a < count
        invariant
            a <= count,
            count > 0,
            texts_fit(*report, *texts),
            m < report.matrices@.len(),
            c < report.matrices@[m as int].cells@.len(),
            count == report.matrices@[m as int].cells@[c as int].actions@.len(),
            all == cell_rows(*report, *texts, m as int, c as int),
            string_views(rows@) == string_views(start) + all.take(a as int),
        decreases count - a,
    {
        let ghost before = rows@;
        rows.push(build_row(report, texts, m, c, Some(a)));
        assert(string_views(rows@) =~= string_views(before).push(all[a as int]));
        assert(string_views(rows@) =~= string_views(start) + all.take(a as int + 1));
        a = a + 1;
    }
    assert(all.take(a as int) =~= all);
}

} // verus!
