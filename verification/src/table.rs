//! One last-write-wins table: rows of cells, a derived column index, and
//! the tombstone guards that make concurrent edits converge.
//!
//! Every mutating operation takes the `OpId` chosen by the database and
//! applies the LWW rule: an operation is a no-op whenever a tombstone or an
//! existing cell with an equal-or-greater `OpId` dominates it. Equal
//! `OpId`s mean the same operation, so replaying one is always a no-op.

use vstd::prelude::*;

use crate::assoc::{assoc_map, keys_unique, lemma_assoc_dom_len, lemma_assoc_index,
    lemma_assoc_push, lemma_assoc_update};
use crate::value::{Value, ValueModel};
use vstd::string::StringSliceAdditionalSpecFns;
use crate::OpId;

verus! {

/// One written cell: the column it lives in, its value (possibly the
/// `Deleted` tombstone) and the operation that wrote it.
pub struct Cell {
    pub col: String,
    pub value: Value,
    pub id: OpId,
}

/// One row: its name, its cells (distinct column names), and the `OpId`
/// of the latest row deletion, if any.
pub struct Row {
    pub name: String,
    pub cells: Vec<Cell>,
    pub cleared_at: Option<OpId>,
}

/// A column-index entry: a column name and how many live (non-tombstone)
/// cells it currently has. Columns with no live cells are absent.
pub struct Column {
    pub name: String,
    pub live: usize,
}

/// One cell as yielded by row iteration.
pub struct RowValue {
    pub col_name: String,
    pub id: OpId,
    pub value: Value,
}

/// One LWW table.
pub struct LwwTable {
    pub rows: Vec<Row>,
    pub cols: Vec<Column>,
    pub removed: Option<OpId>,
}

/// Model of a cell: value and writing operation.
pub struct CellModel {
    pub value: ValueModel,
    pub id: OpId,
}

/// Model of a row: a map from column name to cell, plus the row tombstone.
#[verifier::ext_equal]
pub struct RowModel {
    pub cells: Map<Seq<char>, CellModel>,
    pub cleared_at: Option<OpId>,
}

/// Model of a table: a map from row name to row, plus the table tombstone.
/// The column index is derived state and not part of the model.
#[verifier::ext_equal]
pub struct TableModel {
    pub rows: Map<Seq<char>, RowModel>,
    pub removed: Option<OpId>,
}

pub open spec fn cell_key() -> spec_fn(Cell) -> Seq<char> {
    |c: Cell| c.col@
}

pub open spec fn cell_val() -> spec_fn(Cell) -> CellModel {
    |c: Cell| c@
}

pub open spec fn row_key() -> spec_fn(Row) -> Seq<char> {
    |r: Row| r.name@
}

pub open spec fn row_val() -> spec_fn(Row) -> RowModel {
    |r: Row| r@
}

pub open spec fn col_key() -> spec_fn(Column) -> Seq<char> {
    |c: Column| c.name@
}

pub open spec fn cells_model(cells: Seq<Cell>) -> Map<Seq<char>, CellModel> {
    assoc_map(cells, cell_key(), cell_val())
}

pub open spec fn rows_model(rows: Seq<Row>) -> Map<Seq<char>, RowModel> {
    assoc_map(rows, row_key(), row_val())
}

impl View for Cell {
    type V = CellModel;

    open spec fn view(&self) -> CellModel {
        CellModel { value: self.value@, id: self.id }
    }
}

impl View for Row {
    type V = RowModel;

    open spec fn view(&self) -> RowModel {
        RowModel { cells: cells_model(self.cells@), cleared_at: self.cleared_at }
    }
}

impl View for LwwTable {
    type V = TableModel;

    open spec fn view(&self) -> TableModel {
        TableModel { rows: rows_model(self.rows@), removed: self.removed }
    }
}

/// A guard blocks an operation when the operation's id is at or below it.
pub open spec fn guard_blocks(g: Option<OpId>, id: OpId) -> bool {
    g matches Some(d) && id.spec_le(d)
}

pub open spec fn empty_row_model() -> RowModel {
    RowModel { cells: Map::empty(), cleared_at: None }
}

/// The row a name denotes, or the empty row when absent.
pub open spec fn row_of(t: TableModel, row: Seq<char>) -> RowModel {
    if t.rows.contains_key(row) {
        t.rows[row]
    } else {
        empty_row_model()
    }
}

/// Whether `set(row, col, _, id)` makes a change: no table tombstone, row
/// tombstone, or existing cell at or above `id`.
pub open spec fn set_allowed(t: TableModel, row: Seq<char>, col: Seq<char>, id: OpId) -> bool {
    &&& !guard_blocks(t.removed, id)
    &&& !guard_blocks(row_of(t, row).cleared_at, id)
    &&& !(row_of(t, row).cells.contains_key(col) && id.spec_le(row_of(t, row).cells[col].id))
}

/// The state after `set(row, col, v, id)`.
pub open spec fn apply_set(
    t: TableModel,
    row: Seq<char>,
    col: Seq<char>,
    v: ValueModel,
    id: OpId,
) -> TableModel {
    if set_allowed(t, row, col, id) {
        let r = row_of(t, row);
        TableModel {
            rows: t.rows.insert(
                row,
                RowModel {
                    cells: r.cells.insert(col, CellModel { value: v, id }),
                    cleared_at: r.cleared_at,
                },
            ),
            removed: t.removed,
        }
    } else {
        t
    }
}

/// Whether `delete_row(row, id)` makes a change.
pub open spec fn delete_row_allowed(t: TableModel, row: Seq<char>, id: OpId) -> bool {
    &&& !guard_blocks(t.removed, id)
    &&& !guard_blocks(row_of(t, row).cleared_at, id)
}

/// A row after a row deletion at `id`: cells at or below `id` are gone,
/// and the tombstone is recorded.
pub open spec fn clear_row_model(r: RowModel, id: OpId) -> RowModel {
    RowModel {
        cells: Map::new(
            |c: Seq<char>| r.cells.contains_key(c) && id.spec_lt(r.cells[c].id),
            |c: Seq<char>| r.cells[c],
        ),
        cleared_at: Some(id),
    }
}

/// The state after `delete_row(row, id)`.
pub open spec fn apply_delete_row(t: TableModel, row: Seq<char>, id: OpId) -> TableModel {
    if delete_row_allowed(t, row, id) {
        TableModel { rows: t.rows.insert(row, clear_row_model(row_of(t, row), id)), removed: t.removed }
    } else {
        t
    }
}

/// A row after a table deletion at `id`: cells at or below `id` are gone,
/// and a row tombstone at or below `id` is dropped (the table tombstone
/// subsumes it).
pub open spec fn strip_row_model(r: RowModel, id: OpId) -> RowModel {
    RowModel {
        cells: Map::new(
            |c: Seq<char>| r.cells.contains_key(c) && id.spec_lt(r.cells[c].id),
            |c: Seq<char>| r.cells[c],
        ),
        cleared_at: if r.cleared_at matches Some(c) && id.spec_lt(c) {
            r.cleared_at
        } else {
            None
        },
    }
}

/// Whether a row still carries information after a table deletion at `id`.
pub open spec fn row_survives(r: RowModel, id: OpId) -> bool {
    (exists|c: Seq<char>| strip_row_model(r, id).cells.contains_key(c)) || strip_row_model(
        r,
        id,
    ).cleared_at is Some
}

/// The state after `delete_table(id)`.
pub open spec fn apply_delete_table(t: TableModel, id: OpId) -> TableModel {
    if !guard_blocks(t.removed, id) {
        TableModel {
            rows: Map::new(
                |k: Seq<char>| t.rows.contains_key(k) && row_survives(t.rows[k], id),
                |k: Seq<char>| strip_row_model(t.rows[k], id),
            ),
            removed: Some(id),
        }
    } else {
        t
    }
}

/// The structural invariant tying the model together: lamports start at 1,
/// every cell strictly dominates the table and row tombstones, and a row
/// tombstone strictly dominates the table tombstone.
pub open spec fn model_inv(t: TableModel) -> bool {
    &&& (t.removed matches Some(d) ==> d.lamport >= 1)
    &&& forall|r: Seq<char>| #[trigger] t.rows.contains_key(r) ==> row_model_inv(t, t.rows[r])
}

pub open spec fn row_model_inv(t: TableModel, rm: RowModel) -> bool {
    &&& (rm.cleared_at matches Some(c) ==> c.lamport >= 1 && (t.removed matches Some(d)
        ==> d.spec_lt(c)))
    &&& forall|c: Seq<char>| #[trigger] rm.cells.contains_key(c) ==> cell_model_inv(t, rm, rm.cells[c])
}

pub open spec fn cell_model_inv(t: TableModel, rm: RowModel, cm: CellModel) -> bool {
    &&& cm.id.lamport >= 1
    &&& (t.removed matches Some(d) ==> d.spec_lt(cm.id))
    &&& (rm.cleared_at matches Some(cl) ==> cl.spec_lt(cm.id))
}

// --- live-cell counting, for the derived column index ---

pub open spec fn cell_live_contrib(c: Cell, col: Seq<char>) -> nat {
    if c.col@ == col && c.value@.is_live() {
        1nat
    } else {
        0nat
    }
}

/// Live cells under `col` in one cell sequence.
pub open spec fn cells_live(cells: Seq<Cell>, col: Seq<char>) -> nat
    decreases cells.len(),
{
    if cells.len() == 0 {
        0nat
    } else {
        cells_live(cells.drop_last(), col) + cell_live_contrib(cells.last(), col)
    }
}

/// Live cells under `col` in the whole table.
pub open spec fn count_live(rows: Seq<Row>, col: Seq<char>) -> nat
    decreases rows.len(),
{
    if rows.len() == 0 {
        0nat
    } else {
        count_live(rows.drop_last(), col) + cells_live(rows.last().cells@, col)
    }
}

pub open spec fn col_live_val() -> spec_fn(Column) -> nat {
    |c: Column| c.live as nat
}

/// The column index as a map from column name to stored live count.
pub open spec fn cols_map(cols: Seq<Column>) -> Map<Seq<char>, nat> {
    assoc_map(cols, col_key(), col_live_val())
}

/// The stored live count of a column, zero when absent.
pub open spec fn col_count(cols: Seq<Column>, c: Seq<char>) -> nat {
    if cols_map(cols).contains_key(c) {
        cols_map(cols)[c]
    } else {
        0nat
    }
}

/// The column index is correct for `rows`: distinct names, each entry
/// carries the exact live count, and a column is present exactly when its
/// live count is positive.
pub open spec fn cols_ok(rows: Seq<Row>, cols: Seq<Column>) -> bool {
    &&& keys_unique(cols, col_key())
    &&& forall|c: Seq<char>|
        #[trigger] cols_map(cols).contains_key(c) <==> count_live(rows, c) > 0
    &&& forall|c: Seq<char>|
        #[trigger] cols_map(cols).contains_key(c) ==> cols_map(cols)[c] == count_live(rows, c)
}

impl Row {
    pub open spec fn rep_wf(self) -> bool {
        keys_unique(self.cells@, cell_key())
    }
}

// --- counting lemmas ---

/// A sequence without the column contributes nothing.
pub proof fn lemma_cells_live_absent(cells: Seq<Cell>, c: Seq<char>)
    requires
        forall|i: int| 0 <= i < cells.len() ==> (#[trigger] cells[i]).col@ != c,
    ensures
        cells_live(cells, c) == 0,
    decreases cells.len(),
{
    if cells.len() > 0 {
        lemma_cells_live_absent(cells.drop_last(), c);
    }
}

/// With distinct column names a column has at most one live cell per row.
pub proof fn lemma_cells_live_unique(cells: Seq<Cell>, c: Seq<char>)
    requires
        keys_unique(cells, cell_key()),
    ensures
        cells_live(cells, c) <= 1,
    decreases cells.len(),
{
    if cells.len() > 0 {
        if cells.last().col@ == c && cells.last().value@.is_live() {
            assert forall|i: int| 0 <= i < cells.drop_last().len() implies (
            #[trigger] cells.drop_last()[i]).col@ != c by {
                assert(cell_key()(cells[i]) != cell_key()(cells[cells.len() - 1]));
            }
            lemma_cells_live_absent(cells.drop_last(), c);
        } else {
            lemma_cells_live_unique(cells.drop_last(), c);
        }
    }
}

/// A table of well-formed rows has at most one live cell per row and
/// column, so a column's count is bounded by the number of rows.
pub proof fn lemma_count_live_bound(rows: Seq<Row>, c: Seq<char>)
    requires
        forall|i: int| 0 <= i < rows.len() ==> (#[trigger] rows[i]).rep_wf(),
    ensures
        count_live(rows, c) <= rows.len(),
    decreases rows.len(),
{
    if rows.len() > 0 {
        lemma_count_live_bound(rows.drop_last(), c);
        lemma_cells_live_unique(rows.last().cells@, c);
    }
}

/// One step of a prefix count over cells.
pub proof fn lemma_cells_live_take_step(cells: Seq<Cell>, c: Seq<char>, j: int)
    requires
        0 <= j < cells.len(),
    ensures
        cells_live(cells.take(j + 1), c) == cells_live(cells.take(j), c) + cell_live_contrib(
            cells[j],
            c,
        ),
{
    assert(cells.take(j + 1).drop_last() =~= cells.take(j));
    assert(cells.take(j + 1).last() == cells[j]);
}

/// One step of a prefix count over rows.
pub proof fn lemma_count_live_take_step(rows: Seq<Row>, c: Seq<char>, i: int)
    requires
        0 <= i < rows.len(),
    ensures
        count_live(rows.take(i + 1), c) == count_live(rows.take(i), c) + cells_live(
            rows[i].cells@,
            c,
        ),
{
    assert(rows.take(i + 1).drop_last() =~= rows.take(i));
    assert(rows.take(i + 1).last() == rows[i]);
}

// --- lookups ---

/// Index of the row with the given name, if any.
pub fn find_row(rows: &Vec<Row>, name: &String) -> (r: Option<usize>)
    ensures
        match r {
            Some(i) => i < rows@.len() && rows@[i as int].name@ == name@,
            None => forall|i: int| 0 <= i < rows@.len() ==> (#[trigger] rows@[i]).name@ != name@,
        },
{
    let mut i: usize = 0;
    while i < rows.len()
        invariant
            i <= rows@.len(),
            forall|k: int| 0 <= k < i ==> (#[trigger] rows@[k]).name@ != name@,
        decreases rows@.len() - i,
    {
        if rows[i].name == *name {
            return Some(i);
        }
        i += 1;
    }
    None
}

/// Index of the cell under the given column, if any.
pub fn find_cell(cells: &Vec<Cell>, col: &String) -> (r: Option<usize>)
    ensures
        match r {
            Some(j) => j < cells@.len() && cells@[j as int].col@ == col@,
            None => forall|j: int| 0 <= j < cells@.len() ==> (#[trigger] cells@[j]).col@ != col@,
        },
{
    let mut j: usize = 0;
    while j < cells.len()
        invariant
            j <= cells@.len(),
            forall|k: int| 0 <= k < j ==> (#[trigger] cells@[k]).col@ != col@,
        decreases cells@.len() - j,
    {
        if cells[j].col == *col {
            return Some(j);
        }
        j += 1;
    }
    None
}

/// Index of the column entry with the given name, if any.
pub fn find_col(cols: &Vec<Column>, name: &String) -> (r: Option<usize>)
    ensures
        match r {
            Some(i) => i < cols@.len() && cols@[i as int].name@ == name@,
            None => forall|i: int| 0 <= i < cols@.len() ==> (#[trigger] cols@[i]).name@ != name@,
        },
{
    let mut i: usize = 0;
    while i < cols.len()
        invariant
            i <= cols@.len(),
            forall|k: int| 0 <= k < i ==> (#[trigger] cols@[k]).name@ != name@,
        decreases cols@.len() - i,
    {
        if cols[i].name == *name {
            return Some(i);
        }
        i += 1;
    }
    None
}

// --- the derived column index ---

/// Raise a column's stored count by one, creating the entry if absent.
fn bump_col(cols: &mut Vec<Column>, name: &String)
    requires
        keys_unique(old(cols)@, col_key()),
        col_count(old(cols)@, name@) < usize::MAX,
    ensures
        keys_unique(final(cols)@, col_key()),
        cols_map(final(cols)@) == cols_map(old(cols)@).insert(
            name@,
            col_count(old(cols)@, name@) + 1,
        ),
{
    let ghost cols0 = cols@;
    match find_col(cols, name) {
        Some(i) => {
            proof {
                lemma_assoc_index(cols0, col_key(), col_live_val(), i as int);
            }
            let live = cols[i].live;
            let entry = &mut cols[i];
            entry.live = live + 1;
            proof {
                assert(cols@ =~= cols0.update(i as int, Column { name: cols0[i as int].name, live: (cols0[i as int].live + 1) as usize }));
                lemma_assoc_update(
                    cols0,
                    col_key(),
                    col_live_val(),
                    i as int,
                    cols@[i as int],
                );
            }
        },
        None => {
            proof {
                lemma_assoc_contains_one_cols(cols0, name@);
            }
            cols.push(Column { name: name.clone(), live: 1 });
            proof {
                lemma_assoc_push(cols0, col_key(), col_live_val(), cols@.last());
            }
        },
    }
}

/// Instantiated key-occurrence lemma for the column index.
proof fn lemma_assoc_contains_one_cols(cols: Seq<Column>, c: Seq<char>)
    ensures
        cols_map(cols).contains_key(c) <==> exists|i: int|
            0 <= i < cols.len() && (#[trigger] cols[i]).name@ == c,
{
    crate::assoc::lemma_assoc_contains_one(cols, col_key(), col_live_val(), c);
    assert forall|i: int| 0 <= i < cols.len() && (#[trigger] cols[i]).name@ == c implies col_key()(
        cols[i],
    ) == c by {}
    if exists|i: int| 0 <= i < cols.len() && col_key()(#[trigger] cols[i]) == c {
        let i = choose|i: int| 0 <= i < cols.len() && col_key()(#[trigger] cols[i]) == c;
        assert(cols[i].name@ == c);
    }
}

/// Recompute the column index of `rows` from scratch.
pub fn rebuild_cols(rows: &Vec<Row>) -> (cols: Vec<Column>)
    requires
        forall|i: int| 0 <= i < rows@.len() ==> (#[trigger] rows@[i]).rep_wf(),
    ensures
        cols_ok(rows@, cols@),
{
    let mut cols: Vec<Column> = Vec::new();
    let mut i: usize = 0;
    proof {
        assert(cols_map(cols@) =~= Map::<Seq<char>, nat>::empty());
    }
    while i < rows.len()
        invariant
            i <= rows@.len(),
            forall|k: int| 0 <= k < rows@.len() ==> (#[trigger] rows@[k]).rep_wf(),
            keys_unique(cols@, col_key()),
            forall|c: Seq<char>|
                #[trigger] cols_map(cols@).contains_key(c) <==> count_live(rows@.take(i as int), c)
                    > 0,
            forall|c: Seq<char>|
                #[trigger] cols_map(cols@).contains_key(c) ==> cols_map(cols@)[c] == count_live(
                    rows@.take(i as int),
                    c,
                ),
        decreases rows@.len() - i,
    {
        let cells = &rows[i].cells;
        let ghost prefix = rows@.take(i as int);
        let mut j: usize = 0;
        while j < cells.len()
            invariant
                j <= cells@.len(),
                cells == &rows@[i as int].cells,
                i < rows@.len(),
                forall|k: int| 0 <= k < rows@.len() ==> (#[trigger] rows@[k]).rep_wf(),
                prefix == rows@.take(i as int),
                keys_unique(cols@, col_key()),
                forall|c: Seq<char>|
                    #[trigger] cols_map(cols@).contains_key(c) <==> count_live(prefix, c)
                        + cells_live(cells@.take(j as int), c) > 0,
                forall|c: Seq<char>|
                    #[trigger] cols_map(cols@).contains_key(c) ==> cols_map(cols@)[c]
                        == count_live(prefix, c) + cells_live(cells@.take(j as int), c),
            decreases cells@.len() - j,
        {
            let ghost colsg = cols@;
            let live = cells[j].value.is_live();
            if live {
                proof {
                    let c = cells@[j as int].col@;
                    assert forall|k: int| 0 <= k < prefix.len() implies (
                    #[trigger] prefix[k]).rep_wf() by {
                        assert(prefix[k] == rows@[k]);
                    }
                    lemma_count_live_bound(prefix, c);
                    lemma_cells_live_unique(cells@, c);
                    lemma_cells_live_take_step(cells@, c, j as int);
                    lemma_cells_live_prefix_bound(cells@, c, j as int + 1);
                    assert(cell_live_contrib(cells@[j as int], c) == 1);
                    assert(cells_live(cells@.take(j as int), c) == 0);
                    assert(count_live(prefix, c) <= i);
                    assert(rows@.len() == rows.len());
                    assert(cols_map(colsg).contains_key(c) ==> cols_map(colsg)[c]
                        == count_live(prefix, c) + cells_live(cells@.take(j as int), c));
                    assert(col_count(colsg, c) <= i);
                }
                bump_col(&mut cols, &cells[j].col);
            }
            proof {
                let c = cells@[j as int].col@;
                lemma_cells_live_take_step(cells@, c, j as int);
                assert forall|d: Seq<char>| d != c implies cells_live(
                    cells@.take(j as int + 1),
                    d,
                ) == cells_live(cells@.take(j as int), d) by {
                    lemma_cells_live_take_step(cells@, d, j as int);
                }
                if !live {
                    assert(cells_live(cells@.take(j as int + 1), c) == cells_live(
                        cells@.take(j as int),
                        c,
                    ));
                }
            }
            j += 1;
        }
        proof {
            assert(cells@.take(cells@.len() as int) =~= cells@);
            assert forall|c: Seq<char>|
                count_live(rows@.take(i as int + 1), c) == count_live(prefix, c) + cells_live(
                    cells@,
                    c,
                ) by {
                lemma_count_live_take_step(rows@, c, i as int);
            }
        }
        i += 1;
    }
    proof {
        assert(rows@.take(rows@.len() as int) =~= rows@);
    }
    cols
}

/// A prefix of a cell sequence counts no more than the whole.
proof fn lemma_cells_live_prefix_bound(cells: Seq<Cell>, c: Seq<char>, j: int)
    requires
        0 <= j <= cells.len(),
    ensures
        cells_live(cells.take(j), c) <= cells_live(cells, c),
    decreases cells.len() - j,
{
    if j < cells.len() {
        lemma_cells_live_take_step(cells, c, j);
        lemma_cells_live_prefix_bound(cells, c, j + 1);
        if j + 1 == cells.len() {
            assert(cells.take(j + 1) =~= cells);
        }
    } else {
        assert(cells.take(j) =~= cells);
    }
}

/// Instantiated key-occurrence lemma for rows.
pub proof fn lemma_rows_contains(rows: Seq<Row>, k: Seq<char>)
    ensures
        rows_model(rows).contains_key(k) <==> exists|i: int|
            0 <= i < rows.len() && (#[trigger] rows[i]).name@ == k,
{
    crate::assoc::lemma_assoc_contains_one(rows, row_key(), row_val(), k);
    if exists|i: int| 0 <= i < rows.len() && row_key()(#[trigger] rows[i]) == k {
        let i = choose|i: int| 0 <= i < rows.len() && row_key()(#[trigger] rows[i]) == k;
        assert(rows[i].name@ == k);
    }
    if exists|i: int| 0 <= i < rows.len() && (#[trigger] rows[i]).name@ == k {
        let i = choose|i: int| 0 <= i < rows.len() && (#[trigger] rows[i]).name@ == k;
        assert(row_key()(rows[i]) == k);
    }
}

/// Instantiated key-occurrence lemma for cells.
pub proof fn lemma_cells_contains(cells: Seq<Cell>, k: Seq<char>)
    ensures
        cells_model(cells).contains_key(k) <==> exists|j: int|
            0 <= j < cells.len() && (#[trigger] cells[j]).col@ == k,
{
    crate::assoc::lemma_assoc_contains_one(cells, cell_key(), cell_val(), k);
    if exists|j: int| 0 <= j < cells.len() && cell_key()(#[trigger] cells[j]) == k {
        let j = choose|j: int| 0 <= j < cells.len() && cell_key()(#[trigger] cells[j]) == k;
        assert(cells[j].col@ == k);
    }
    if exists|j: int| 0 <= j < cells.len() && (#[trigger] cells[j]).col@ == k {
        let j = choose|j: int| 0 <= j < cells.len() && (#[trigger] cells[j]).col@ == k;
        assert(cell_key()(cells[j]) == k);
    }
}

/// Indexing wrapper: a row of a well-formed table is what the model holds
/// at its name.
pub proof fn lemma_assoc_index_rows(rows: Seq<Row>, i: int)
    requires
        keys_unique(rows, row_key()),
        0 <= i < rows.len(),
    ensures
        rows_model(rows).contains_key(rows[i].name@),
        rows_model(rows)[rows[i].name@] == rows[i]@,
{
    lemma_assoc_index(rows, row_key(), row_val(), i);
}

/// Indexing wrapper: a cell of a well-formed row is what the model holds
/// at its column.
pub proof fn lemma_assoc_index_cells(cells: Seq<Cell>, j: int)
    requires
        keys_unique(cells, cell_key()),
        0 <= j < cells.len(),
    ensures
        cells_model(cells).contains_key(cells[j].col@),
        cells_model(cells)[cells[j].col@] == cells[j]@,
{
    lemma_assoc_index(cells, cell_key(), cell_val(), j);
}

/// The LWW order is total.
pub proof fn lemma_opid_total(a: OpId, b: OpId)
    ensures
        a.spec_le(b) || b.spec_lt(a),
        !(a.spec_lt(b) && b.spec_le(a)),
{
}

/// Lexicographic order on byte sequences.
pub open spec fn bytes_le(a: Seq<u8>, b: Seq<u8>) -> bool
    decreases a.len(),
{
    if a.len() == 0 {
        true
    } else if b.len() == 0 {
        false
    } else if a.first() < b.first() {
        true
    } else if a.first() == b.first() {
        bytes_le(a.drop_first(), b.drop_first())
    } else {
        false
    }
}

/// The order on names: lexicographic on their encoded bytes.
pub open spec fn name_le(a: Seq<char>, b: Seq<char>) -> bool {
    bytes_le(vstd::utf8::encode_utf8(a), vstd::utf8::encode_utf8(b))
}

/// The order is total.
pub proof fn lemma_bytes_le_total(a: Seq<u8>, b: Seq<u8>)
    ensures
        bytes_le(a, b) || bytes_le(b, a),
    decreases a.len(),
{
    if a.len() > 0 && b.len() > 0 && a.first() == b.first() {
        lemma_bytes_le_total(a.drop_first(), b.drop_first());
    }
}

/// The order is transitive.
pub proof fn lemma_bytes_le_trans(a: Seq<u8>, b: Seq<u8>, c: Seq<u8>)
    requires
        bytes_le(a, b),
        bytes_le(b, c),
    ensures
        bytes_le(a, c),
    decreases a.len(),
{
    if a.len() > 0 && b.len() > 0 && c.len() > 0 {
        if a.first() == b.first() && b.first() == c.first() {
            lemma_bytes_le_trans(a.drop_first(), b.drop_first(), c.drop_first());
        }
    }
}

/// An equal prefix does not decide the order.
proof fn lemma_bytes_le_skip(a: Seq<u8>, b: Seq<u8>, i: int)
    requires
        0 <= i <= a.len(),
        i <= b.len(),
        forall|k: int| 0 <= k < i ==> a[k] == b[k],
    ensures
        bytes_le(a, b) == bytes_le(a.skip(i), b.skip(i)),
    decreases i,
{
    if i == 0 {
        assert(a.skip(0) =~= a);
        assert(b.skip(0) =~= b);
    } else {
        assert(a.first() == b.first());
        assert forall|k: int| 0 <= k < i - 1 implies a.drop_first()[k] == b.drop_first()[k] by {
            assert(a.drop_first()[k] == a[k + 1]);
            assert(b.drop_first()[k] == b[k + 1]);
        }
        lemma_bytes_le_skip(a.drop_first(), b.drop_first(), i - 1);
        assert(a.drop_first().skip(i - 1) =~= a.skip(i));
        assert(b.drop_first().skip(i - 1) =~= b.skip(i));
    }
}

/// Decide the byte-lexicographic order of two names.
pub fn str_le(a: &str, b: &str) -> (r: bool)
    ensures
        r == name_le(a@, b@),
{
    let ab = a.as_bytes();
    let bb = b.as_bytes();
    let mut i: usize = 0;
    while i < ab.len() && i < bb.len()
        invariant
            i <= ab@.len(),
            i <= bb@.len(),
            ab@ == a.spec_bytes(),
            bb@ == b.spec_bytes(),
            forall|k: int| 0 <= k < i ==> ab@[k] == bb@[k],
        decreases ab@.len() - i,
    {
        if ab[i] < bb[i] {
            proof {
                lemma_bytes_le_skip(ab@, bb@, i as int);
            }
            return true;
        }
        if ab[i] > bb[i] {
            proof {
                lemma_bytes_le_skip(ab@, bb@, i as int);
            }
            return false;
        }
        i += 1;
    }
    proof {
        lemma_bytes_le_skip(ab@, bb@, i as int);
        if i >= ab@.len() {
            assert(ab@.skip(i as int) =~= Seq::<u8>::empty());
        } else {
            assert(bb@.skip(i as int) =~= Seq::<u8>::empty());
            assert(ab@.skip(i as int).len() > 0);
        }
    }
    ab.len() <= bb.len()
}

/// A copy of a row, model-equal and under the same name.
fn dup_row(r: &Row) -> (d: Row)
    requires
        r.rep_wf(),
    ensures
        d@ == r@,
        d.name@ == r.name@,
        d.rep_wf(),
{
    let mut cells: Vec<Cell> = Vec::new();
    let mut j: usize = 0;
    while j < r.cells.len()
        invariant
            j <= r.cells@.len(),
            cells@.len() == j,
            forall|k: int|
                0 <= k < j ==> (#[trigger] cells@[k]).col@ == r.cells@[k].col@ && cells@[k]@
                    == r.cells@[k]@,
        decreases r.cells@.len() - j,
    {
        cells.push(clone_cell(&r.cells[j]));
        j += 1;
    }
    proof {
        assert forall|k: int| 0 <= k < cells@.len() implies cell_key()(#[trigger] cells@[k])
            == cell_key()(r.cells@[k]) && cell_val()(cells@[k]) == cell_val()(r.cells@[k]) by {}
        crate::assoc::lemma_assoc_pointwise(cells@, r.cells@, cell_key(), cell_val());
        assert forall|x: int, y: int| 0 <= x < y < cells@.len() implies cell_key()(cells@[x])
            != cell_key()(cells@[y]) by {
            assert(cell_key()(r.cells@[x]) != cell_key()(r.cells@[y]));
        }
    }
    Row { name: r.name.clone(), cells, cleared_at: r.cleared_at }
}

/// Rows in non-descending name order.
pub open spec fn sorted_by_name(rows: Seq<Row>) -> bool {
    forall|i: int, j: int| 0 <= i < j < rows.len() ==> name_le(rows[i].name@, rows[j].name@)
}

/// Whether two rows hold the same cells and tombstone by content.
fn row_eq(a: &Row, b: &Row) -> (r: bool)
    requires
        a.rep_wf(),
        b.rep_wf(),
    ensures
        r == (a@ == b@),
{
    let cl_eq: bool = match (a.cleared_at, b.cleared_at) {
        (None, None) => true,
        (Some(x), Some(y)) => x.lamport == y.lamport && x.peer == y.peer,
        _ => false,
    };
    if !cl_eq {
        return false;
    }
    proof {
        lemma_assoc_dom_len(a.cells@, cell_key(), cell_val());
        lemma_assoc_dom_len(b.cells@, cell_key(), cell_val());
    }
    if a.cells.len() != b.cells.len() {
        proof {
            assert(a@.cells.dom().len() != b@.cells.dom().len());
        }
        return false;
    }
    let mut j: usize = 0;
    while j < a.cells.len()
        invariant
            j <= a.cells@.len(),
            a.rep_wf(),
            b.rep_wf(),
            forall|k: int|
                0 <= k < j ==> a@.cells.contains_key((#[trigger] a.cells@[k]).col@)
                    && b@.cells.contains_key(a.cells@[k].col@) && a@.cells[a.cells@[k].col@]
                    == b@.cells[a.cells@[k].col@],
        decreases a.cells@.len() - j,
    {
        proof {
            lemma_assoc_index(a.cells@, cell_key(), cell_val(), j as int);
            lemma_cells_contains(b.cells@, a.cells@[j as int].col@);
        }
        match find_cell(&b.cells, &a.cells[j].col) {
            None => {
                proof {
                    assert(a@.cells.contains_key(a.cells@[j as int].col@));
                    assert(!b@.cells.contains_key(a.cells@[j as int].col@));
                }
                return false;
            },
            Some(k) => {
                proof {
                    lemma_assoc_index(b.cells@, cell_key(), cell_val(), k as int);
                }
                let ca = &a.cells[j];
                let cb = &b.cells[k];
                let ids_eq = ca.id.lamport == cb.id.lamport && ca.id.peer == cb.id.peer;
                if !(ids_eq && ca.value.value_eq(&cb.value)) {
                    proof {
                        assert(a@.cells[a.cells@[j as int].col@]
                            != b@.cells[a.cells@[j as int].col@]);
                    }
                    return false;
                }
            },
        }
        j += 1;
    }
    proof {
        assert forall|c: Seq<char>| #[trigger] a@.cells.contains_key(c) implies
        b@.cells.contains_key(c) && a@.cells[c] == b@.cells[c] by {
            lemma_cells_contains(a.cells@, c);
            let q = choose|q: int| 0 <= q < a.cells@.len() && (#[trigger] a.cells@[q]).col@ == c;
            assert(a@.cells.contains_key(a.cells@[q].col@));
        }
        crate::assoc::lemma_map_subset_eq(a@.cells, b@.cells);
        assert(a@ =~= b@);
    }
    true
}

/// A copy of a cell, model-equal and under the same column.
fn clone_cell(c: &Cell) -> (r: Cell)
    ensures
        r.col@ == c.col@,
        r@ == c@,
{
    Cell { col: c.col.clone(), value: c.value.dup(), id: c.id }
}

/// Copy the cells whose id lies strictly above `id`, in order.
fn filter_cells_above(cells: &Vec<Cell>, id: OpId) -> (r: Vec<Cell>)
    requires
        keys_unique(cells@, cell_key()),
    ensures
        keys_unique(r@, cell_key()),
        cells_model(r@) == Map::new(
            |c: Seq<char>|
                cells_model(cells@).contains_key(c) && id.spec_lt(cells_model(cells@)[c].id),
            |c: Seq<char>| cells_model(cells@)[c],
        ),
{
    let mut out: Vec<Cell> = Vec::new();
    let mut j: usize = 0;
    proof {
        assert(cells_model(out@) =~= Map::<Seq<char>, CellModel>::empty());
    }
    while j < cells.len()
        invariant
            j <= cells@.len(),
            keys_unique(cells@, cell_key()),
            keys_unique(out@, cell_key()),
            forall|p: int|
                0 <= p < out@.len() ==> exists|q: int|
                    0 <= q < j && (#[trigger] out@[p]).col@ == cells@[q].col@,
            cells_model(out@) =~= Map::new(
                |c: Seq<char>|
                    cells_model(cells@.take(j as int)).contains_key(c) && id.spec_lt(
                        cells_model(cells@.take(j as int))[c].id,
                    ),
                |c: Seq<char>| cells_model(cells@.take(j as int))[c],
            ),
        decreases cells@.len() - j,
    {
        let ghost prefix = cells@.take(j as int);
        proof {
            assert(cells@.take(j as int + 1).drop_last() =~= prefix);
            assert(cells@.take(j as int + 1).last() == cells@[j as int]);
            lemma_assoc_push(prefix, cell_key(), cell_val(), cells@[j as int]);
            lemma_cells_contains(prefix, cells@[j as int].col@);
            assert forall|q: int| 0 <= q < j implies (#[trigger] cells@[q]).col@
                != cells@[j as int].col@ by {
                assert(cell_key()(cells@[q]) != cell_key()(cells@[j as int]));
            }
            assert(!cells_model(prefix).contains_key(cells@[j as int].col@));
        }
        if id.lt(&cells[j].id) {
            let ghost out0 = out@;
            out.push(clone_cell(&cells[j]));
            proof {
                assert(out@.drop_last() =~= out0);
                lemma_assoc_push(out0, cell_key(), cell_val(), out@.last());
                assert(cells_model(out@) =~= Map::new(
                    |c: Seq<char>|
                        cells_model(cells@.take(j as int + 1)).contains_key(c) && id.spec_lt(
                            cells_model(cells@.take(j as int + 1))[c].id,
                        ),
                    |c: Seq<char>| cells_model(cells@.take(j as int + 1))[c],
                ));
            }
        } else {
            proof {
                assert(cells_model(out@) =~= Map::new(
                    |c: Seq<char>|
                        cells_model(cells@.take(j as int + 1)).contains_key(c) && id.spec_lt(
                            cells_model(cells@.take(j as int + 1))[c].id,
                        ),
                    |c: Seq<char>| cells_model(cells@.take(j as int + 1))[c],
                ));
            }
        }
        j += 1;
    }
    proof {
        assert(cells@.take(cells@.len() as int) =~= cells@);
    }
    out
}

/// `apply_delete_row` keeps the model invariant.
pub proof fn lemma_apply_delete_row_inv(t: TableModel, row: Seq<char>, id: OpId)
    requires
        model_inv(t),
        id.lamport >= 1,
    ensures
        model_inv(apply_delete_row(t, row, id)),
{
    if delete_row_allowed(t, row, id) {
        let t2 = apply_delete_row(t, row, id);
        if let Some(d) = t.removed {
            lemma_opid_total(id, d);
        }
        assert forall|r: Seq<char>| #[trigger] t2.rows.contains_key(r) implies row_model_inv(
            t2,
            t2.rows[r],
        ) by {
            if r == row {
                let rm0 = row_of(t, row);
                let rm2 = t2.rows[r];
                assert forall|c: Seq<char>| #[trigger] rm2.cells.contains_key(c) implies
                cell_model_inv(t2, rm2, rm2.cells[c]) by {
                    assert(rm0.cells.contains_key(c));
                }
            }
        }
    }
}

/// `apply_delete_table` keeps the model invariant.
pub proof fn lemma_apply_delete_table_inv(t: TableModel, id: OpId)
    requires
        model_inv(t),
        id.lamport >= 1,
    ensures
        model_inv(apply_delete_table(t, id)),
{
    if !guard_blocks(t.removed, id) {
        let t2 = apply_delete_table(t, id);
        assert forall|r: Seq<char>| #[trigger] t2.rows.contains_key(r) implies row_model_inv(
            t2,
            t2.rows[r],
        ) by {
            let rm0 = t.rows[r];
            let rm2 = t2.rows[r];
            assert(row_model_inv(t, rm0));
            assert forall|c: Seq<char>| #[trigger] rm2.cells.contains_key(c) implies
            cell_model_inv(t2, rm2, rm2.cells[c]) by {
                assert(rm0.cells.contains_key(c));
            }
        }
    }
}

/// `apply_set` keeps the model invariant.
pub proof fn lemma_apply_set_inv(
    t: TableModel,
    row: Seq<char>,
    col: Seq<char>,
    v: ValueModel,
    id: OpId,
)
    requires
        model_inv(t),
        id.lamport >= 1,
    ensures
        model_inv(apply_set(t, row, col, v, id)),
{
    if set_allowed(t, row, col, id) {
        let t2 = apply_set(t, row, col, v, id);
        lemma_opid_total(id, id);
        assert forall|r: Seq<char>| #[trigger] t2.rows.contains_key(r) implies row_model_inv(
            t2,
            t2.rows[r],
        ) by {
            if r == row {
                let rm0 = row_of(t, row);
                let rm2 = t2.rows[r];
                assert forall|c: Seq<char>| #[trigger] rm2.cells.contains_key(c) implies
                cell_model_inv(t2, rm2, rm2.cells[c]) by {
                    if c == col {
                        if let Some(d) = t.removed {
                            lemma_opid_total(id, d);
                        }
                        if let Some(cl) = rm0.cleared_at {
                            lemma_opid_total(id, cl);
                        }
                    } else {
                        assert(rm0.cells.contains_key(c));
                    }
                }
            }
        }
    }
}

impl LwwTable {
    /// Representation invariant: distinct row names, per-row distinct
    /// column names, and a correct column index.
    pub open spec fn rep_wf(self) -> bool {
        &&& keys_unique(self.rows@, row_key())
        &&& forall|i: int| 0 <= i < self.rows@.len() ==> (#[trigger] self.rows@[i]).rep_wf()
        &&& cols_ok(self.rows@, self.cols@)
    }

    /// Full well-formedness: representation plus model invariant.
    pub open spec fn wf(self) -> bool {
        self.rep_wf() && model_inv(self@)
    }

    /// An empty table.
    pub fn new() -> (r: Self)
        ensures
            r.wf(),
            r@.rows == Map::<Seq<char>, RowModel>::empty(),
            r@.removed is None,
    {
        let r = LwwTable { rows: Vec::new(), cols: Vec::new(), removed: None };
        proof {
            assert(r@.rows =~= Map::<Seq<char>, RowModel>::empty());
            assert(cols_map(r.cols@) =~= Map::<Seq<char>, nat>::empty());
        }
        r
    }

    /// Write `v` into (row, col) at `id`, under the LWW rule. Writing the
    /// `Deleted` tombstone is a cell deletion. Returns whether the table
    /// changed; a dominated write is a no-op.
    pub fn set(&mut self, row: &str, col: &str, v: Value, id: OpId) -> (r: bool)
        requires
            old(self).wf(),
            id.lamport >= 1,
        ensures
            final(self).wf(),
            r == set_allowed(old(self)@, row@, col@, id),
            final(self)@ == apply_set(old(self)@, row@, col@, v@, id),
    {
        let ghost t0 = self@;
        if let Some(d) = self.removed {
            if id.le(&d) {
                return false;
            }
        }
        let rowk: String = row.to_owned();
        let colk: String = col.to_owned();
        let ghost rows0 = self.rows@;
        match find_row(&self.rows, &rowk) {
            Some(i) => {
                proof {
                    lemma_rows_contains(rows0, row@);
                    lemma_assoc_index(rows0, row_key(), row_val(), i as int);
                    assert(row_of(t0, row@) == rows0[i as int]@);
                }
                if let Some(cl) = self.rows[i].cleared_at {
                    if id.le(&cl) {
                        return false;
                    }
                }
                let ghost cells0 = rows0[i as int].cells@;
                match find_cell(&self.rows[i].cells, &colk) {
                    Some(j) => {
                        proof {
                            lemma_cells_contains(cells0, col@);
                            lemma_assoc_index(cells0, cell_key(), cell_val(), j as int);
                            assert(row_of(t0, row@).cells[col@] == cells0[j as int]@);
                        }
                        let existing = self.rows[i].cells[j].id;
                        if id.le(&existing) {
                            return false;
                        }
                        let cellref = &mut self.rows[i].cells[j];
                        cellref.value = v;
                        cellref.id = id;
                        proof {
                            let newcell = Cell { col: cells0[j as int].col, value: v, id };
                            assert(self.rows@[i as int].cells@ =~= cells0.update(
                                j as int,
                                newcell,
                            ));
                            lemma_assoc_update(cells0, cell_key(), cell_val(), j as int, newcell);
                            assert(self.rows@ =~= rows0.update(
                                i as int,
                                Row {
                                    name: rows0[i as int].name,
                                    cells: self.rows@[i as int].cells,
                                    cleared_at: rows0[i as int].cleared_at,
                                },
                            ));
                            lemma_assoc_update(
                                rows0,
                                row_key(),
                                row_val(),
                                i as int,
                                self.rows@[i as int],
                            );
                            assert(rows_model(self.rows@) =~= apply_set(
                                t0,
                                row@,
                                col@,
                                v@,
                                id,
                            ).rows);
                        }
                    },
                    None => {
                        proof {
                            lemma_cells_contains(cells0, col@);
                        }
                        let newcell = Cell { col: colk, value: v, id };
                        let rowref = &mut self.rows[i];
                        rowref.cells.push(newcell);
                        proof {
                            assert(self.rows@[i as int].cells@ =~= cells0.push(
                                self.rows@[i as int].cells@.last(),
                            ));
                            lemma_assoc_push(
                                cells0,
                                cell_key(),
                                cell_val(),
                                self.rows@[i as int].cells@.last(),
                            );
                            assert(self.rows@ =~= rows0.update(
                                i as int,
                                self.rows@[i as int],
                            ));
                            lemma_assoc_update(
                                rows0,
                                row_key(),
                                row_val(),
                                i as int,
                                self.rows@[i as int],
                            );
                            assert(rows_model(self.rows@) =~= apply_set(
                                t0,
                                row@,
                                col@,
                                v@,
                                id,
                            ).rows);
                        }
                    },
                }
            },
            None => {
                proof {
                    lemma_rows_contains(rows0, row@);
                    assert(row_of(t0, row@) == empty_row_model());
                }
                let mut newcells: Vec<Cell> = Vec::new();
                newcells.push(Cell { col: colk, value: v, id });
                let newrow = Row { name: rowk, cells: newcells, cleared_at: None };
                self.rows.push(newrow);
                proof {
                    let nr = self.rows@.last();
                    assert(self.rows@ =~= rows0.push(nr));
                    lemma_assoc_push(rows0, row_key(), row_val(), nr);
                    assert(nr.cells@ =~= Seq::<Cell>::empty().push(nr.cells@.last()));
                    lemma_assoc_push(
                        Seq::<Cell>::empty(),
                        cell_key(),
                        cell_val(),
                        nr.cells@.last(),
                    );
                    assert(cells_model(nr.cells@) =~= Map::<Seq<char>, CellModel>::empty().insert(
                        col@,
                        CellModel { value: v@, id },
                    ));
                    assert(nr@.cells =~= row_of(t0, row@).cells.insert(
                        col@,
                        CellModel { value: v@, id },
                    ));
                    assert(rows_model(self.rows@) =~= apply_set(t0, row@, col@, v@, id).rows);
                }
            },
        }
        let cols2 = rebuild_cols(&self.rows);
        self.cols = cols2;
        proof {
            lemma_apply_set_inv(t0, row@, col@, v@, id);
            assert(self@ == apply_set(t0, row@, col@, v@, id));
        }
        true
    }

    /// Tombstone the whole row at `id`: drops every cell at or below `id`
    /// and records the row tombstone. A dominated deletion is a no-op.
    pub fn delete_row(&mut self, row: &str, id: OpId) -> (r: bool)
        requires
            old(self).wf(),
            id.lamport >= 1,
        ensures
            final(self).wf(),
            r == delete_row_allowed(old(self)@, row@, id),
            final(self)@ == apply_delete_row(old(self)@, row@, id),
    {
        let ghost t0 = self@;
        if let Some(d) = self.removed {
            if id.le(&d) {
                return false;
            }
        }
        let rowk: String = row.to_owned();
        let ghost rows0 = self.rows@;
        match find_row(&self.rows, &rowk) {
            Some(i) => {
                proof {
                    lemma_rows_contains(rows0, row@);
                    lemma_assoc_index(rows0, row_key(), row_val(), i as int);
                    assert(row_of(t0, row@) == rows0[i as int]@);
                }
                if let Some(cl) = self.rows[i].cleared_at {
                    if id.le(&cl) {
                        return false;
                    }
                }
                let kept = filter_cells_above(&self.rows[i].cells, id);
                let rowref = &mut self.rows[i];
                rowref.cells = kept;
                rowref.cleared_at = Some(id);
                proof {
                    assert(self.rows@[i as int]@ =~= clear_row_model(rows0[i as int]@, id));
                    assert(self.rows@ =~= rows0.update(i as int, self.rows@[i as int]));
                    lemma_assoc_update(
                        rows0,
                        row_key(),
                        row_val(),
                        i as int,
                        self.rows@[i as int],
                    );
                    assert(rows_model(self.rows@) =~= apply_delete_row(t0, row@, id).rows);
                }
            },
            None => {
                proof {
                    lemma_rows_contains(rows0, row@);
                    assert(row_of(t0, row@) == empty_row_model());
                }
                self.rows.push(Row { name: rowk, cells: Vec::new(), cleared_at: Some(id) });
                proof {
                    let nr = self.rows@.last();
                    assert(self.rows@ =~= rows0.push(nr));
                    lemma_assoc_push(rows0, row_key(), row_val(), nr);
                    assert(nr@.cells =~= clear_row_model(empty_row_model(), id).cells);
                    assert(rows_model(self.rows@) =~= apply_delete_row(t0, row@, id).rows);
                }
            },
        }
        let cols2 = rebuild_cols(&self.rows);
        self.cols = cols2;
        proof {
            lemma_apply_delete_row_inv(t0, row@, id);
            assert(self@ == apply_delete_row(t0, row@, id));
        }
        true
    }

    /// Tombstone the whole table at `id`: drops every cell at or below
    /// `id` across all rows, drops rows left with nothing, and records the
    /// table tombstone. A dominated deletion is a no-op.
    pub fn delete_table(&mut self, id: OpId) -> (r: bool)
        requires
            old(self).wf(),
            id.lamport >= 1,
        ensures
            final(self).wf(),
            r == !guard_blocks(old(self)@.removed, id),
            final(self)@ == apply_delete_table(old(self)@, id),
    {
        let ghost t0 = self@;
        if let Some(d) = self.removed {
            if id.le(&d) {
                return false;
            }
        }
        let ghost rows0 = self.rows@;
        let ghost target = apply_delete_table(t0, id).rows;
        let mut out: Vec<Row> = Vec::new();
        let mut i: usize = 0;
        proof {
            assert(rows_model(out@) =~= Map::<Seq<char>, RowModel>::empty());
        }
        while i < self.rows.len()
            invariant
                i <= self.rows@.len(),
                self.rows@ == rows0,
                t0 == old(self)@,
                old(self).wf(),
                t0.rows == rows_model(rows0),
                keys_unique(out@, row_key()),
                forall|p: int|
                    0 <= p < out@.len() ==> exists|q: int|
                        0 <= q < i && (#[trigger] out@[p]).name@ == rows0[q].name@,
                forall|p: int| 0 <= p < out@.len() ==> (#[trigger] out@[p]).rep_wf(),
                rows_model(out@) =~= Map::new(
                    |k: Seq<char>|
                        rows_model(rows0.take(i as int)).contains_key(k) && row_survives(
                            rows_model(rows0.take(i as int))[k],
                            id,
                        ),
                    |k: Seq<char>| strip_row_model(rows_model(rows0.take(i as int))[k], id),
                ),
            decreases self.rows@.len() - i,
        {
            let ghost prefix = rows0.take(i as int);
            proof {
                assert(rows0.take(i as int + 1).drop_last() =~= prefix);
                assert(rows0.take(i as int + 1).last() == rows0[i as int]);
                lemma_assoc_push(prefix, row_key(), row_val(), rows0[i as int]);
                assert(rows_model(rows0.take(i as int + 1)) == rows_model(prefix).insert(
                    rows0[i as int].name@,
                    rows0[i as int]@,
                ));
                lemma_rows_contains(prefix, rows0[i as int].name@);
                assert forall|q: int| 0 <= q < i implies (#[trigger] rows0[q]).name@
                    != rows0[i as int].name@ by {
                    assert(row_key()(rows0[q]) != row_key()(rows0[i as int]));
                }
                assert(!rows_model(prefix).contains_key(rows0[i as int].name@));
            }
            let kept = filter_cells_above(&self.rows[i].cells, id);
            let surviving_clear: Option<OpId> = match self.rows[i].cleared_at {
                Some(c) => if id.lt(&c) {
                    Some(c)
                } else {
                    None
                },
                None => None,
            };
            let ghost stripped = strip_row_model(rows0[i as int]@, id);
            let ghost out0 = out@;
            if kept.len() > 0 || surviving_clear.is_some() {
                proof {
                    assert(stripped.cells =~= cells_model(kept@));
                    if kept@.len() > 0 {
                        lemma_cells_contains(kept@, kept@[kept@.len() - 1].col@);
                        assert(cells_model(kept@).contains_key(kept@[kept@.len() - 1].col@));
                        assert(row_survives(rows0[i as int]@, id));
                    } else {
                        assert(stripped.cleared_at is Some);
                        assert(row_survives(rows0[i as int]@, id));
                    }
                }
                let name = self.rows[i].name.clone();
                out.push(Row { name, cells: kept, cleared_at: surviving_clear });
                proof {
                    let nr = out@.last();
                    assert(nr@.cells =~= stripped.cells);
                    assert(nr@ =~= stripped);
                    assert(nr@ == stripped);
                    assert(out@.drop_last() =~= out0);
                    assert(out@.drop_last().push(nr) =~= out@);
                    lemma_assoc_push(out@.drop_last(), row_key(), row_val(), nr);
                    assert(rows_model(out@) == rows_model(out0).insert(nr.name@, nr@));
                    assert(nr.name@ == rows0[i as int].name@);
                    assert(rows_model(rows0.take(i as int + 1))[nr.name@] == rows0[i as int]@);
                    assert(row_survives(rows0[i as int]@, id));
                    assert(rows_model(out@) =~~= Map::new(
                        |k: Seq<char>|
                            rows_model(rows0.take(i as int + 1)).contains_key(k) && row_survives(
                                rows_model(rows0.take(i as int + 1))[k],
                                id,
                            ),
                        |k: Seq<char>|
                            strip_row_model(rows_model(rows0.take(i as int + 1))[k], id),
                    ));
                }
            } else {
                proof {
                    assert(kept@.len() == 0);
                    assert forall|c: Seq<char>| !(#[trigger] stripped.cells.contains_key(c)) by {
                        lemma_cells_contains(kept@, c);
                        assert(stripped.cells =~= cells_model(kept@));
                    }
                    assert(!row_survives(rows0[i as int]@, id));
                    assert(rows_model(out@) =~= Map::new(
                        |k: Seq<char>|
                            rows_model(rows0.take(i as int + 1)).contains_key(k) && row_survives(
                                rows_model(rows0.take(i as int + 1))[k],
                                id,
                            ),
                        |k: Seq<char>|
                            strip_row_model(rows_model(rows0.take(i as int + 1))[k], id),
                    ));
                }
            }
            i += 1;
        }
        proof {
            assert(rows0.take(rows0.len() as int) =~= rows0);
        }
        self.rows = out;
        self.removed = Some(id);
        let cols2 = rebuild_cols(&self.rows);
        self.cols = cols2;
        proof {
            lemma_apply_delete_table_inv(t0, id);
            assert(self@.rows =~= apply_delete_table(t0, id).rows);
            assert(self@ == apply_delete_table(t0, id));
        }
        true
    }

    /// The live value at (row, col), if any. Tombstoned and absent cells
    /// read as `None`.
    pub fn get_cell(&self, row: &str, col: &str) -> (r: Option<&Value>)
        requires
            self.wf(),
        ensures
            match r {
                Some(v) => {
                    &&& row_of(self@, row@).cells.contains_key(col@)
                    &&& row_of(self@, row@).cells[col@].value == v@
                    &&& v@.is_live()
                },
                None => !(row_of(self@, row@).cells.contains_key(col@) && row_of(
                    self@,
                    row@,
                ).cells[col@].value.is_live()),
            },
    {
        let rowk: String = row.to_owned();
        let colk: String = col.to_owned();
        proof {
            lemma_rows_contains(self.rows@, row@);
        }
        match find_row(&self.rows, &rowk) {
            Some(i) => {
                proof {
                    lemma_assoc_index(self.rows@, row_key(), row_val(), i as int);
                    lemma_cells_contains(self.rows@[i as int].cells@, col@);
                }
                match find_cell(&self.rows[i].cells, &colk) {
                    Some(j) => {
                        proof {
                            lemma_assoc_index(
                                self.rows@[i as int].cells@,
                                cell_key(),
                                cell_val(),
                                j as int,
                            );
                        }
                        let v = &self.rows[i].cells[j].value;
                        if v.is_live() {
                            Some(v)
                        } else {
                            None
                        }
                    },
                    None => None,
                }
            },
            None => None,
        }
    }

    /// Every cell of the row, in storage order: column name, writing
    /// operation and value, tombstone cells included.
    pub fn iter_row(&self, row: &str) -> (r: Vec<RowValue>)
        requires
            self.wf(),
        ensures
            forall|k: int|
                0 <= k < r@.len() ==> row_of(self@, row@).cells.contains_key(
                    (#[trigger] r@[k]).col_name@,
                ) && row_of(self@, row@).cells[r@[k].col_name@] == (CellModel {
                    value: r@[k].value@,
                    id: r@[k].id,
                }),
            forall|c: Seq<char>|
                #[trigger] row_of(self@, row@).cells.contains_key(c) ==> (exists|k: int|
                    0 <= k < r@.len() && (#[trigger] r@[k]).col_name@ == c),
            forall|k: int, l: int|
                0 <= k < l < r@.len() ==> (#[trigger] r@[k]).col_name@ != (
                #[trigger] r@[l]).col_name@,
    {
        let mut r: Vec<RowValue> = Vec::new();
        proof {
            lemma_rows_contains(self.rows@, row@);
        }
        let rowk: String = row.to_owned();
        match find_row(&self.rows, &rowk) {
            Some(i) => {
                proof {
                    lemma_assoc_index(self.rows@, row_key(), row_val(), i as int);
                }
                let cells = &self.rows[i].cells;
                let mut j: usize = 0;
                while j < cells.len()
                    invariant
                        j <= cells@.len(),
                        self.wf(),
                        cells == &self.rows@[i as int].cells,
                        i < self.rows@.len(),
                        keys_unique(cells@, cell_key()),
                        r@.len() == j,
                        forall|k: int|
                            0 <= k < j ==> (#[trigger] r@[k]).col_name@ == cells@[k].col@
                                && r@[k].value@ == cells@[k].value@ && r@[k].id == cells@[k].id,
                    decreases cells@.len() - j,
                {
                    let c = &cells[j];
                    r.push(RowValue { col_name: c.col.clone(), id: c.id, value: c.value.dup() });
                    j += 1;
                }
                proof {
                    let rm = row_of(self@, row@);
                    assert(rm == self.rows@[i as int]@);
                    assert forall|k: int| 0 <= k < r@.len() implies rm.cells.contains_key(
                        (#[trigger] r@[k]).col_name@,
                    ) && rm.cells[r@[k].col_name@] == CellModel {
                        value: r@[k].value@,
                        id: r@[k].id,
                    } by {
                        lemma_assoc_index(cells@, cell_key(), cell_val(), k);
                    }
                    assert forall|c: Seq<char>| #[trigger] rm.cells.contains_key(c) implies exists|
                        k: int,
                    | 0 <= k < r@.len() && (#[trigger] r@[k]).col_name@ == c by {
                        lemma_cells_contains(cells@, c);
                        let q = choose|q: int|
                            0 <= q < cells@.len() && (#[trigger] cells@[q]).col@ == c;
                        assert(r@[q].col_name@ == c);
                    }
                    assert forall|k: int, l: int| 0 <= k < l < r@.len() implies (
                    #[trigger] r@[k]).col_name@ != (#[trigger] r@[l]).col_name@ by {
                        assert(cell_key()(cells@[k]) != cell_key()(cells@[l]));
                    }
                }
            },
            None => {
                proof {
                    assert(row_of(self@, row@) == empty_row_model());
                }
            },
        }
        r
    }

    /// Reorder the rows by name so that equal tables store equal rows in
    /// equal positions. The state is unchanged.
    #[verifier::rlimit(60)]
    pub fn sort(&mut self)
        requires
            old(self).wf(),
        ensures
            final(self).wf(),
            final(self)@ == old(self)@,
            sorted_by_name(final(self).rows@),
    {
        let ghost rows0 = self.rows@;
        let mut out: Vec<Row> = Vec::new();
        let mut i: usize = 0;
        proof {
            assert(rows_model(out@) =~= rows_model(rows0.take(0)));
        }
        while i < self.rows.len()
            invariant
                i <= self.rows@.len(),
                self.rows@ == rows0,
                old(self).wf(),
                self == old(self),
                keys_unique(out@, row_key()),
                forall|p: int| 0 <= p < out@.len() ==> (#[trigger] out@[p]).rep_wf(),
                rows_model(out@) == rows_model(rows0.take(i as int)),
                sorted_by_name(out@),
                out@.len() == i,
                forall|p: int|
                    0 <= p < out@.len() ==> (exists|q: int|
                        0 <= q < i && (#[trigger] out@[p]).name@ == rows0[q].name@),
            decreases self.rows@.len() - i,
        {
            proof {
                assert(rows0[i as int].rep_wf());
            }
            let r = dup_row(&self.rows[i]);
            let ghost out0 = out@;
            let mut p: usize = 0;
            while p < out.len() && str_le(out[p].name.as_str(), r.name.as_str())
                invariant
                    p <= out@.len(),
                    out@ == out0,
                    r.name@ == rows0[i as int].name@,
                    forall|k: int| 0 <= k < p ==> name_le((#[trigger] out@[k]).name@, r.name@),
                decreases out@.len() - p,
            {
                p += 1;
            }
            proof {
                assert forall|q: int| 0 <= q < out0.len() implies row_key()(#[trigger] out0[q])
                    != row_key()(r) by {
                    let w = choose|w: int|
                        0 <= w < i && (#[trigger] out0[q]).name@ == rows0[w].name@;
                    assert(row_key()(rows0[w]) != row_key()(rows0[i as int]));
                }
                crate::assoc::lemma_assoc_insert(out0, row_key(), row_val(), p as int, r);
                assert(rows0.take(i as int + 1).drop_last() =~= rows0.take(i as int));
                assert(rows0.take(i as int + 1).last() == rows0[i as int]);
                lemma_assoc_push(rows0.take(i as int), row_key(), row_val(), rows0[i as int]);
            }
            out.insert(p, r);
            proof {
                assert(rows_model(out@) =~= rows_model(rows0.take(i as int + 1)));
                assert forall|x: int, y: int| 0 <= x < y < out@.len() implies name_le(
                    (#[trigger] out@[x]).name@,
                    (#[trigger] out@[y]).name@,
                ) by {
                    let r0 = out0;
                    if y < p {
                    } else if x < p && y == p {
                    } else if x < p {
                        assert(out@[y] == r0[y - 1]);
                    } else if x == p {
                        assert(out@[y] == r0[y - 1]);
                        assert(p < r0.len());
                        assert(!name_le(r0[p as int].name@, out@[p as int].name@));
                        lemma_bytes_le_total(
                            vstd::utf8::encode_utf8(r0[p as int].name@),
                            vstd::utf8::encode_utf8(out@[p as int].name@),
                        );
                        assert(name_le(out@[p as int].name@, r0[p as int].name@));
                        if y - 1 > p {
                            assert(name_le(r0[p as int].name@, r0[y - 1].name@));
                            lemma_bytes_le_trans(
                                vstd::utf8::encode_utf8(out@[p as int].name@),
                                vstd::utf8::encode_utf8(r0[p as int].name@),
                                vstd::utf8::encode_utf8(r0[y - 1].name@),
                            );
                        }
                    } else {
                        assert(out@[x] == r0[x - 1]);
                        assert(out@[y] == r0[y - 1]);
                    }
                }
                assert forall|x: int, y: int| 0 <= x < y < out@.len() implies row_key()(
                    #[trigger] out@[x],
                ) != row_key()(#[trigger] out@[y]) by {
                    if y < p {
                    } else if x < p && y == p {
                    } else if x < p {
                        assert(out@[y] == out0[y - 1]);
                    } else if x == p {
                        assert(out@[y] == out0[y - 1]);
                    } else {
                        assert(out@[x] == out0[x - 1]);
                        assert(out@[y] == out0[y - 1]);
                    }
                }
                assert forall|q: int| 0 <= q < out@.len() implies (exists|w: int|
                    0 <= w < i + 1 && (#[trigger] out@[q]).name@ == rows0[w].name@) by {
                    if q < p {
                        let w = choose|w: int|
                            0 <= w < i && (#[trigger] out0[q]).name@ == rows0[w].name@;
                        assert(out@[q].name@ == rows0[w].name@);
                    } else if q == p {
                        assert(out@[q].name@ == rows0[i as int].name@);
                    } else {
                        let w = choose|w: int|
                            0 <= w < i && (#[trigger] out0[q - 1]).name@ == rows0[w].name@;
                        assert(out@[q].name@ == rows0[w].name@);
                    }
                }
            }
            i += 1;
        }
        proof {
            assert(rows0.take(rows0.len() as int) =~= rows0);
        }
        self.rows = out;
        let cols2 = rebuild_cols(&self.rows);
        self.cols = cols2;
        proof {
            assert(self@ =~= old(self)@);
        }
    }

    /// Whether two tables hold the same state: equal tombstones, rows and
    /// cells by content, whatever order they are stored in.
    pub fn check_eq(&mut self, other: &mut LwwTable) -> (r: bool)
        requires
            old(self).wf(),
            old(other).wf(),
        ensures
            *final(self) == *old(self),
            *final(other) == *old(other),
            r == (old(self)@ == old(other)@),
    {
        let rem_eq: bool = match (self.removed, other.removed) {
            (None, None) => true,
            (Some(a), Some(b)) => a.lamport == b.lamport && a.peer == b.peer,
            _ => false,
        };
        if !rem_eq {
            return false;
        }
        proof {
            lemma_assoc_dom_len(self.rows@, row_key(), row_val());
            lemma_assoc_dom_len(other.rows@, row_key(), row_val());
        }
        if self.rows.len() != other.rows.len() {
            proof {
                assert(self@.rows.dom().len() != other@.rows.dom().len());
            }
            return false;
        }
        let mut i: usize = 0;
        while i < self.rows.len()
            invariant
                i <= self.rows@.len(),
                old(self).wf(),
                old(other).wf(),
                self == old(self),
                other == old(other),
                forall|k: int|
                    0 <= k < i ==> self@.rows.contains_key((#[trigger] self.rows@[k]).name@)
                        && other@.rows.contains_key(self.rows@[k].name@)
                        && self@.rows[self.rows@[k].name@] == other@.rows[self.rows@[k].name@],
            decreases self.rows@.len() - i,
        {
            proof {
                lemma_assoc_index(self.rows@, row_key(), row_val(), i as int);
                lemma_rows_contains(other.rows@, self.rows@[i as int].name@);
            }
            let name = self.rows[i].name.clone();
            match find_row(&other.rows, &name) {
                None => {
                    proof {
                        assert(!other@.rows.contains_key(self.rows@[i as int].name@));
                        assert(self@.rows.contains_key(self.rows@[i as int].name@));
                    }
                    return false;
                },
                Some(j) => {
                    proof {
                        lemma_assoc_index(other.rows@, row_key(), row_val(), j as int);
                    }
                    let sref = &self.rows[i];
                    let oref = &other.rows[j];
                    if !row_eq(sref, oref) {
                        proof {
                            assert(self@.rows[self.rows@[i as int].name@]
                                != other@.rows[self.rows@[i as int].name@]);
                        }
                        return false;
                    }
                },
            }
            i += 1;
        }
        proof {
            assert forall|k: Seq<char>| #[trigger] self@.rows.contains_key(k) implies
            other@.rows.contains_key(k) && self@.rows[k] == other@.rows[k] by {
                lemma_rows_contains(self.rows@, k);
                let q = choose|q: int|
                    0 <= q < self.rows@.len() && (#[trigger] self.rows@[q]).name@ == k;
                assert(self@.rows.contains_key(self.rows@[q].name@));
            }
            crate::assoc::lemma_map_subset_eq(self@.rows, other@.rows);
            assert(self@ =~= other@);
        }
        true
    }

    /// Delete the cell at (row, col) at `id`: writes the tombstone value.
    pub fn delete(&mut self, row: &str, col: &str, id: OpId) -> (r: bool)
        requires
            old(self).wf(),
            id.lamport >= 1,
        ensures
            final(self).wf(),
            r == set_allowed(old(self)@, row@, col@, id),
            final(self)@ == apply_set(old(self)@, row@, col@, ValueModel::Deleted, id),
    {
        self.set(row, col, Value::Deleted, id)
    }
}

} // verus!
