//! 2D grid alignment through `tate::grid`: the options that this crate's
//! engines set, and the aligned grid, as values of this crate.

use vstd::prelude::*;

use crate::ops::{segs_view, Seg};
use crate::strs::{grid_view, strings_view};

verus! {

#[verifier::external_type_specification]
#[verifier::external_body]
pub struct ExTateGridDiff(tate::grid::GridDiff);

#[verifier::external_type_specification]
#[verifier::external_body]
pub struct ExTateStatus(tate::grid::Status);

#[verifier::external_type_specification]
#[verifier::external_body]
pub struct ExTateCellChange(tate::grid::CellChange);

#[verifier::external_type_specification]
#[verifier::external_body]
pub struct ExTateGridRow(tate::grid::GridRow);

/// Initialization strategy for the alignment: positional, or seeded from one
/// header row (0-based) on each side.
#[derive(Debug, Clone, Copy)]
pub enum Init {
    Positional,
    Header { a: usize, b: usize },
}

/// Options for [`grid_diff`]: the initialization, whether the column
/// alignment stays as initialized, the iteration cap, and the row count above
/// which rows are matched by position. The cost model is `tate`'s default.
#[derive(Debug, Clone, Copy)]
pub struct GridOptions {
    pub init: Init,
    pub lock_columns: bool,
    pub max_iters: usize,
    pub max_rows: usize,
}

impl GridOptions {
    /// The plain value of the options: the header rows (if any), the column
    /// lock, the iteration cap and the row cap.
    pub open spec fn spec_value(self) -> (Option<(nat, nat)>, bool, nat, nat) {
        (
            match self.init {
                Init::Positional => None,
                Init::Header { a, b } => Some((a as nat, b as nat)),
            },
            self.lock_columns,
            self.max_iters as nat,
            self.max_rows as nat,
        )
    }
}

impl Default for GridOptions {
    /// Positional initialization, free columns, three iterations, and
    /// coordinate descent up to 4000 rows (`tate`'s defaults).
    fn default() -> (r: Self)
        ensures
            r.init is Positional,
            !r.lock_columns,
            r.max_iters == 3,
            r.max_rows == 4000,
    {
        GridOptions { init: Init::Positional, lock_columns: false, max_iters: 3, max_rows: 4000 }
    }
}

/// Status of an aligned row, column or cell.
#[derive(Debug, Clone, Copy, PartialEq, Eq, Structural)]
pub enum CellStatus {
    Equal,
    Modified,
    Added,
    Removed,
}

/// One aligned column: its display name and status.
#[derive(Debug, Clone)]
pub struct AlignedColumn {
    pub name: String,
    pub status: CellStatus,
}

/// One cell of an aligned row: its status, the old and new values, and for a
/// modified cell the word-level segments of both values.
#[derive(Debug, Clone)]
pub struct CellDiff {
    pub status: CellStatus,
    pub old: String,
    pub new: String,
    pub old_segs: Vec<Seg>,
    pub new_segs: Vec<Seg>,
}

/// One aligned row: its status, its source rows (1-based, 0 when absent),
/// whether it is the header row, and one cell per aligned column.
#[derive(Debug, Clone)]
pub struct AlignedRow {
    pub status: CellStatus,
    pub row_a: usize,
    pub row_b: usize,
    pub header: bool,
    pub cells: Vec<CellDiff>,
}

/// The result of diffing two grids: the aligned columns and rows with
/// per-cell status, the row and column change counts, and the notes.
#[derive(Debug, Clone)]
pub struct GridResult {
    pub columns: Vec<AlignedColumn>,
    pub rows: Vec<AlignedRow>,
    pub added_rows: usize,
    pub removed_rows: usize,
    pub modified_rows: usize,
    pub added_cols: usize,
    pub removed_cols: usize,
    pub notes: Vec<String>,
}

/// The mathematical value of a cell.
pub struct CellView {
    pub status: CellStatus,
    pub old: Seq<char>,
    pub new: Seq<char>,
    pub old_segs: Seq<(Seq<char>, bool)>,
    pub new_segs: Seq<(Seq<char>, bool)>,
}

/// The mathematical value of an aligned row.
pub struct RowView {
    pub status: CellStatus,
    pub row_a: nat,
    pub row_b: nat,
    pub header: bool,
    pub cells: Seq<CellView>,
}

/// The mathematical value of a grid diff.
pub struct GridView {
    pub columns: Seq<(Seq<char>, CellStatus)>,
    pub rows: Seq<RowView>,
    pub added_rows: nat,
    pub removed_rows: nat,
    pub modified_rows: nat,
    pub added_cols: nat,
    pub removed_cols: nat,
    pub notes: Seq<Seq<char>>,
}

/// The value of a cell.
pub open spec fn cell_view(c: CellDiff) -> CellView {
    CellView {
        status: c.status,
        old: c.old@,
        new: c.new@,
        old_segs: segs_view(c.old_segs@),
        new_segs: segs_view(c.new_segs@),
    }
}

/// The value of an aligned row.
pub open spec fn row_view(r: AlignedRow) -> RowView {
    RowView {
        status: r.status,
        row_a: r.row_a as nat,
        row_b: r.row_b as nat,
        header: r.header,
        cells: r.cells@.map_values(|c: CellDiff| cell_view(c)),
    }
}

impl View for GridResult {
    type V = GridView;

    open spec fn view(&self) -> GridView {
        GridView {
            columns: self.columns@.map_values(|c: AlignedColumn| (c.name@, c.status)),
            rows: self.rows@.map_values(|r: AlignedRow| row_view(r)),
            added_rows: self.added_rows as nat,
            removed_rows: self.removed_rows as nat,
            modified_rows: self.modified_rows as nat,
            added_cols: self.added_cols as nat,
            removed_cols: self.removed_cols as nat,
            notes: strings_view(self.notes@),
        }
    }
}

/// The change counts of a grid diff: added, removed and modified rows, added
/// and removed columns.
pub open spec fn change_counts(g: GridView) -> (nat, nat, nat, nat, nat) {
    (g.added_rows, g.removed_rows, g.modified_rows, g.added_cols, g.removed_cols)
}

/// The aligned grid that `tate::grid::grid_diff` computes for two grids under
/// the given options (header rows, column lock, iteration cap, row cap).
pub uninterp spec fn grid_spec(
    rows_a: Seq<Seq<Seq<char>>>,
    rows_b: Seq<Seq<Seq<char>>>,
    opts: (Option<(nat, nat)>, bool, nat, nat),
) -> GridView;

/// Header rows, where the options name them, below `usize::MAX`: `tate`
/// adds one to each to compare it with 1-based row numbers.
pub open spec fn header_rows_fit(opts: GridOptions) -> bool {
    match opts.init {
        Init::Positional => true,
        Init::Header { a, b } => a < usize::MAX && b < usize::MAX,
    }
}

/// Whether the options seed both sides alike: positional, or the same
/// header row on both sides.
pub open spec fn symmetric_init(opts: GridOptions) -> bool {
    match opts.init {
        Init::Positional => true,
        Init::Header { a, b } => a == b,
    }
}

/// A `tate` status as this crate's.
#[verifier::external_body]
fn lib_status(s: tate::grid::Status) -> CellStatus {
    match s {
        tate::grid::Status::Equal => CellStatus::Equal,
        tate::grid::Status::Modified => CellStatus::Modified,
        tate::grid::Status::Added => CellStatus::Added,
        tate::grid::Status::Removed => CellStatus::Removed,
    }
}

/// A `tate` cell as this crate's, field by field.
#[verifier::external_body]
fn lib_cell(c: tate::grid::CellChange) -> CellDiff {
    let seg = |g: tate::inline::Seg| Seg { text: g.text, changed: g.changed };
    let old_segs = c.old_segs.into_iter().map(seg).collect();
    let new_segs = c.new_segs.into_iter().map(seg).collect();
    CellDiff { status: lib_status(c.status), old: c.old, new: c.new, old_segs, new_segs }
}

/// A `tate` aligned row as this crate's, field by field.
#[verifier::external_body]
fn lib_row(r: tate::grid::GridRow) -> AlignedRow {
    let cells = r.cells.into_iter().map(lib_cell).collect();
    AlignedRow { status: lib_status(r.status), row_a: r.row_a, row_b: r.row_b, header: r.header, cells }
}

/// A `tate` grid diff as this crate's, field by field.
#[verifier::external_body]
fn lib_grid(g: tate::grid::GridDiff) -> GridResult {
    let col = |c: tate::grid::GridColumn| AlignedColumn { name: c.name, status: lib_status(c.status) };
    let columns = g.columns.into_iter().map(col).collect();
    let rows = g.rows.into_iter().map(lib_row).collect();
    let (added_rows, removed_rows, modified_rows) = (g.added_rows, g.removed_rows, g.modified_rows);
    let (added_cols, removed_cols, notes) = (g.added_cols, g.removed_cols, g.notes);
    GridResult { columns, rows, added_rows, removed_rows, modified_rows, added_cols, removed_cols, notes }
}

/// `tate::grid::grid_diff` with `tate`'s default cost model, its result
/// converted field by field. The aligned grid is named. What its source
/// shows is stated beside the name: two empty grids give no rows, no columns
/// and no changes; two equal grids, seeded alike, stay aligned position by
/// position (the LCS of equal keys is the diagonal), so no row or column is
/// added, removed or modified. Header rows must lie below `usize::MAX`:
/// `tate` adds one to them, which would overflow.
#[verifier::external_body]
fn tate_grid_diff(rows_a: &Vec<Vec<String>>, rows_b: &Vec<Vec<String>>, opts: &GridOptions) -> (r: GridResult)
    requires
        header_rows_fit(*opts),
    ensures
        r@ == grid_spec(grid_view(rows_a@), grid_view(rows_b@), opts.spec_value()),
        rows_a@.len() == 0 && rows_b@.len() == 0 ==> r@.rows.len() == 0 && r@.columns.len() == 0
            && change_counts(r@) == (0nat, 0nat, 0nat, 0nat, 0nat),
        grid_view(rows_a@) == grid_view(rows_b@) && symmetric_init(*opts) ==> change_counts(r@) == (
            0nat,
            0nat,
            0nat,
            0nat,
            0nat,
        ),
{
    let init = match opts.init {
        Init::Positional => tate::grid::Init::Positional,
        Init::Header { a, b } => tate::grid::Init::Header { a, b },
    };
    let (lock_columns, max_iters, max_rows) = (opts.lock_columns, opts.max_iters, opts.max_rows);
    let t = tate::grid::GridOptions { init, lock_columns, max_iters, max_rows, ..Default::default() };
    lib_grid(tate::grid::grid_diff(rows_a, rows_b, &t))
}

/// Diff two string grids and produce one aligned grid.
pub fn grid_diff(rows_a: &Vec<Vec<String>>, rows_b: &Vec<Vec<String>>, opts: &GridOptions) -> (r: GridResult)
    requires
        header_rows_fit(*opts),
    ensures
        r@ == grid_spec(grid_view(rows_a@), grid_view(rows_b@), opts.spec_value()),
        rows_a@.len() == 0 && rows_b@.len() == 0 ==> r@.rows.len() == 0 && r@.columns.len() == 0
            && change_counts(r@) == (0nat, 0nat, 0nat, 0nat, 0nat),
        grid_view(rows_a@) == grid_view(rows_b@) && symmetric_init(*opts) ==> change_counts(r@) == (
            0nat,
            0nat,
            0nat,
            0nat,
            0nat,
        ),
{
    tate_grid_diff(rows_a, rows_b, opts)
}

} // verus!
