//! The store's stated laws, as proved facts about the merge model.

use vstd::prelude::*;

use crate::clock::clock_of;
use crate::db::table_of;
use crate::encode::delta::{apply_record, apply_records, log_conflicts, record_changes,
    record_log_op, record_valid, step_log, step_tables, RecordModel};
use crate::oplog::OpModel;
use crate::table::{apply_delete_row, apply_delete_table, apply_set, cols_map, count_live,
    delete_row_allowed, guard_blocks, row_of, set_allowed, CellModel, LwwTable, RowModel,
    TableModel};
use crate::value::ValueModel;
use crate::OpId;

verus! {

/// Last write wins: two writes to one cell land in the same final state
/// whichever order they apply in, and whenever the later write is
/// admissible at all, the cell ends up holding it.
pub proof fn lemma_lww_precedence(
    t: TableModel,
    row: Seq<char>,
    col: Seq<char>,
    v1: ValueModel,
    id1: OpId,
    v2: ValueModel,
    id2: OpId,
)
    requires
        id1.spec_lt(id2),
    ensures
        apply_set(apply_set(t, row, col, v1, id1), row, col, v2, id2) == apply_set(
            apply_set(t, row, col, v2, id2),
            row,
            col,
            v1,
            id1,
        ),
        set_allowed(t, row, col, id2) ==> row_of(
            apply_set(apply_set(t, row, col, v1, id1), row, col, v2, id2),
            row,
        ).cells[col] == (CellModel { value: v2, id: id2 }),
        set_allowed(t, row, col, id2) ==> !set_allowed(
            apply_set(t, row, col, v2, id2),
            row,
            col,
            id1,
        ),
        set_allowed(t, row, col, id2) ==> set_allowed(
            apply_set(t, row, col, v1, id1),
            row,
            col,
            id2,
        ),
{
    let t12 = apply_set(apply_set(t, row, col, v1, id1), row, col, v2, id2);
    let t21 = apply_set(apply_set(t, row, col, v2, id2), row, col, v1, id1);
    if set_allowed(t, row, col, id1) {
        if set_allowed(t, row, col, id2) {
            // Both admissible: op2 overwrites op1 one way, blocks it the
            // other way.
            assert(!set_allowed(apply_set(t, row, col, v2, id2), row, col, id1));
            assert(set_allowed(apply_set(t, row, col, v1, id1), row, col, id2));
            let base = row_of(t, row).cells;
            assert(base.insert(col, CellModel { value: v1, id: id1 }).insert(
                col,
                CellModel { value: v2, id: id2 },
            ) =~= base.insert(col, CellModel { value: v2, id: id2 }));
            assert(row_of(apply_set(t, row, col, v1, id1), row).cells =~= base.insert(
                col,
                CellModel { value: v1, id: id1 },
            ));
            assert(t12.rows =~= t21.rows);
            assert(t12 =~= t21);
        } else {
            // Op2 blocked by a guard above id2, hence above id1's write
            // too? A guard blocks id2 but not id1 is impossible downward:
            // any guard at or above id2 is above id1 as well, yet op1 was
            // admissible, so the block must come from the cell itself,
            // which op1 just wrote below id2. That cannot block id2.
            assert(guard_blocks(t.removed, id2) || guard_blocks(row_of(t, row).cleared_at, id2)
                || (row_of(t, row).cells.contains_key(col) && id2.spec_le(
                row_of(t, row).cells[col].id,
            )));
            assert(!guard_blocks(t.removed, id1));
            assert(!guard_blocks(row_of(t, row).cleared_at, id1));
            if guard_blocks(t.removed, id2) || guard_blocks(row_of(t, row).cleared_at, id2) {
                assert(false);
            }
            assert(row_of(t, row).cells.contains_key(col) && id2.spec_le(
                row_of(t, row).cells[col].id,
            ));
            assert(id1.spec_lt(row_of(t, row).cells[col].id));
            assert(!set_allowed(t, row, col, id1));
        }
    } else {
        if set_allowed(t, row, col, id2) {
            // Op1 inadmissible on t; after op2 it is blocked by the new
            // cell at id2 as well.
            assert(!set_allowed(apply_set(t, row, col, v2, id2), row, col, id1));
            assert(set_allowed(apply_set(t, row, col, v1, id1), row, col, id2));
            assert(t12 =~= t21);
        } else {
            assert(t12 == t);
            assert(t21 == t);
        }
    }
    if set_allowed(t, row, col, id2) {
        assert(t12.rows.contains_key(row));
    }
}

/// Tombstone dominance: after a row deletion at `id`, a cell of that row
/// is present exactly when its id lies strictly above `id`, unchanged.
pub proof fn lemma_tombstone_dominance(t: TableModel, row: Seq<char>, id: OpId)
    requires
        delete_row_allowed(t, row, id),
    ensures
        forall|c: Seq<char>|
            row_of(apply_delete_row(t, row, id), row).cells.contains_key(c) <==> (#[trigger] row_of(
                t,
                row,
            ).cells.contains_key(c) && id.spec_lt(row_of(t, row).cells[c].id)),
        forall|c: Seq<char>|
            #[trigger] row_of(apply_delete_row(t, row, id), row).cells.contains_key(c)
                ==> row_of(apply_delete_row(t, row, id), row).cells[c] == row_of(t, row).cells[c],
        row_of(apply_delete_row(t, row, id), row).cleared_at == Some(id),
{
}

/// Column garbage collection: a well-formed table's column index holds a
/// column exactly when it has a live cell, and then records the exact
/// live count.
pub proof fn lemma_column_gc(t: LwwTable)
    requires
        t.wf(),
    ensures
        forall|c: Seq<char>| #[trigger] cols_map(t.cols@).contains_key(c) <==> count_live(t.rows@, c) > 0,
        forall|c: Seq<char>|
            #[trigger] cols_map(t.cols@).contains_key(c) ==> cols_map(t.cols@)[c] == count_live(
                t.rows@,
                c,
            ),
{
}

/// A record the state already dominates: either its id collides with a
/// different logged operation, or its table exists and the merge rule
/// rejects it. Replaying such a record changes nothing.
pub open spec fn record_absorbed(
    m: Map<Seq<char>, TableModel>,
    log: Map<u64, Map<u32, OpModel>>,
    r: RecordModel,
) -> bool {
    log_conflicts(log, r) || (m.contains_key(r.table) && !record_changes(m, r))
}

/// Replaying an absorbed record leaves tables and log untouched.
pub proof fn lemma_absorbed_noop(
    m: Map<Seq<char>, TableModel>,
    log: Map<u64, Map<u32, OpModel>>,
    r: RecordModel,
)
    requires
        record_absorbed(m, log, r),
    ensures
        step_tables(m, log, r) == m,
        step_log(m, log, r) == log,
{
    if !log_conflicts(log, r) {
        assert(apply_record(m, r) =~= m);
    }
}

/// Applying a record absorbs it: replaying is then a no-op.
pub proof fn lemma_apply_absorbs(
    m: Map<Seq<char>, TableModel>,
    log: Map<u64, Map<u32, OpModel>>,
    r: RecordModel,
)
    requires
        record_valid(r),
    ensures
        record_absorbed(step_tables(m, log, r), step_log(m, log, r), r),
{
}

/// Absorption is stable: later records never resurrect an absorbed one.
pub proof fn lemma_absorbed_mono(
    m: Map<Seq<char>, TableModel>,
    log: Map<u64, Map<u32, OpModel>>,
    r: RecordModel,
    r2: RecordModel,
)
    requires
        record_absorbed(m, log, r),
        record_valid(r),
        record_valid(r2),
    ensures
        record_absorbed(step_tables(m, log, r2), step_log(m, log, r2), r),
{
    let m2 = step_tables(m, log, r2);
    let log2 = step_log(m, log, r2);
    if log_conflicts(log, r) {
        // The conflicting slot never changes: a write at another id leaves
        // it alone, and a write at the same id can only restate its value.
        if !log_conflicts(log, r2) && record_changes(m, r2) {
            if r2.id == r.id {
                assert(log[r.id.peer][r.id.lamport] == record_log_op(r2));
                assert(log2[r.id.peer][r.id.lamport] == record_log_op(r2));
            } else if r2.id.peer == r.id.peer {
                assert(log2[r.id.peer][r.id.lamport] == log[r.id.peer][r.id.lamport]);
            } else {
                assert(log2[r.id.peer] == log[r.id.peer]);
            }
        }
        assert(log_conflicts(log2, r));
    } else if log_conflicts(log, r2) {
        assert(m2 == m && log2 == log);
    } else {
        let ma = apply_record(m, r2);
        if r2.table != r.table {
            assert(table_of(ma, r.table) == table_of(m, r.table));
        } else {
            let t0 = table_of(m, r.table);
            let t2 = table_of(ma, r.table);
            match (r.row, r.col) {
                (Some(row), Some(col)) => {
                    if guard_blocks(t0.removed, r.id) {
                        assert(guard_blocks(t2.removed, r.id));
                    } else if guard_blocks(row_of(t0, row).cleared_at, r.id) {
                        lemma_row_guard_grows(t0, t2, r2, row, r.id);
                    } else {
                        assert(row_of(t0, row).cells.contains_key(col) && r.id.spec_le(
                            row_of(t0, row).cells[col].id,
                        ));
                        lemma_cell_guard_grows(t0, t2, r2, row, col, r.id);
                    }
                },
                (Some(row), None) => {
                    if guard_blocks(t0.removed, r.id) {
                        assert(guard_blocks(t2.removed, r.id));
                    } else {
                        lemma_row_guard_grows(t0, t2, r2, row, r.id);
                    }
                },
                (None, _) => {
                    assert(guard_blocks(t2.removed, r.id));
                },
            }
        }
    }
}

/// If a row tombstone at or above `id` guards a row, it still does after
/// one more record, possibly through the table tombstone instead.
proof fn lemma_row_guard_grows(
    t0: TableModel,
    t2: TableModel,
    r2: RecordModel,
    row: Seq<char>,
    id: OpId,
)
    requires
        guard_blocks(row_of(t0, row).cleared_at, id),
        record_valid(r2),
        t2 == (match (r2.row, r2.col) {
            (Some(rw), Some(cl)) => apply_set(t0, rw, cl, r2.value, r2.id),
            (Some(rw), None) => apply_delete_row(t0, rw, r2.id),
            (None, _) => apply_delete_table(t0, r2.id),
        }),
    ensures
        guard_blocks(row_of(t2, row).cleared_at, id) || guard_blocks(t2.removed, id),
{
}

/// If a cell at or above `id` guards a write, something at or above `id`
/// still guards it after one more record.
proof fn lemma_cell_guard_grows(
    t0: TableModel,
    t2: TableModel,
    r2: RecordModel,
    row: Seq<char>,
    col: Seq<char>,
    id: OpId,
)
    requires
        row_of(t0, row).cells.contains_key(col),
        id.spec_le(row_of(t0, row).cells[col].id),
        record_valid(r2),
        t2 == (match (r2.row, r2.col) {
            (Some(rw), Some(cl)) => apply_set(t0, rw, cl, r2.value, r2.id),
            (Some(rw), None) => apply_delete_row(t0, rw, r2.id),
            (None, _) => apply_delete_table(t0, r2.id),
        }),
    ensures
        guard_blocks(t2.removed, id) || guard_blocks(row_of(t2, row).cleared_at, id) || (row_of(
            t2,
            row,
        ).cells.contains_key(col) && id.spec_le(row_of(t2, row).cells[col].id)),
{
    let cell = row_of(t0, row).cells[col];
    crate::table::lemma_opid_total(r2.id, cell.id);
    match (r2.row, r2.col) {
        (Some(rw), Some(cl)) => {
            if set_allowed(t0, rw, cl, r2.id) && rw == row && cl == col {
                assert(cell.id.spec_lt(r2.id));
                assert(id.spec_le(r2.id));
            }
        },
        (Some(rw), None) => {
            if delete_row_allowed(t0, rw, r2.id) && rw == row {
                if r2.id.spec_lt(cell.id) {
                    assert(row_of(t2, row).cells.contains_key(col));
                } else {
                    assert(cell.id.spec_le(r2.id));
                    assert(row_of(t2, row).cleared_at == Some(r2.id));
                    assert(id.spec_le(r2.id));
                }
            }
        },
        (None, _) => {
            if !guard_blocks(t0.removed, r2.id) {
                if r2.id.spec_lt(cell.id) {
                    assert(crate::table::strip_row_model(
                        row_of(t0, row),
                        r2.id,
                    ).cells.contains_key(col));
                    assert(crate::table::row_survives(row_of(t0, row), r2.id));
                    assert(t0.rows.contains_key(row));
                    assert(row_of(t2, row).cells.contains_key(col) && id.spec_le(
                        row_of(t2, row).cells[col].id,
                    ));
                } else {
                    assert(cell.id.spec_le(r2.id));
                    assert(id.spec_le(r2.id));
                    assert(guard_blocks(t2.removed, id));
                }
            }
        },
    }
}

/// Absorption survives any run of records.
pub proof fn lemma_absorbed_through(
    m: Map<Seq<char>, TableModel>,
    log: Map<u64, Map<u32, OpModel>>,
    rs: Seq<RecordModel>,
    r: RecordModel,
)
    requires
        record_absorbed(m, log, r),
        record_valid(r),
        forall|k: int| 0 <= k < rs.len() ==> record_valid(#[trigger] rs[k]),
    ensures
        record_absorbed(apply_records(m, log, rs).0, apply_records(m, log, rs).1, r),
    decreases rs.len(),
{
    if rs.len() > 0 {
        lemma_absorbed_mono(m, log, r, rs.first());
        let m2 = step_tables(m, log, rs.first());
        let log2 = step_log(m, log, rs.first());
        assert forall|k: int| 0 <= k < rs.drop_first().len() implies record_valid(
            #[trigger] rs.drop_first()[k],
        ) by {
            assert(rs.drop_first()[k] == rs[k + 1]);
        }
        lemma_absorbed_through(m2, log2, rs.drop_first(), r);
    }
}

/// After one pass, every record of the run is absorbed.
pub proof fn lemma_pass_absorbs(
    m: Map<Seq<char>, TableModel>,
    log: Map<u64, Map<u32, OpModel>>,
    rs: Seq<RecordModel>,
)
    requires
        forall|k: int| 0 <= k < rs.len() ==> record_valid(#[trigger] rs[k]),
    ensures
        forall|k: int|
            0 <= k < rs.len() ==> record_absorbed(
                apply_records(m, log, rs).0,
                apply_records(m, log, rs).1,
                #[trigger] rs[k],
            ),
    decreases rs.len(),
{
    if rs.len() > 0 {
        let m2 = step_tables(m, log, rs.first());
        let log2 = step_log(m, log, rs.first());
        assert forall|k: int| 0 <= k < rs.drop_first().len() implies record_valid(
            #[trigger] rs.drop_first()[k],
        ) by {
            assert(rs.drop_first()[k] == rs[k + 1]);
        }
        lemma_pass_absorbs(m2, log2, rs.drop_first());
        lemma_apply_absorbs(m, log, rs.first());
        lemma_absorbed_through(m2, log2, rs.drop_first(), rs.first());
        assert forall|k: int| 0 <= k < rs.len() implies record_absorbed(
            apply_records(m, log, rs).0,
            apply_records(m, log, rs).1,
            #[trigger] rs[k],
        ) by {
            if k > 0 {
                assert(rs[k] == rs.drop_first()[k - 1]);
            }
        }
    }
}

/// Replaying a fully absorbed run changes nothing, log included.
pub proof fn lemma_absorbed_run_noop(
    m: Map<Seq<char>, TableModel>,
    log: Map<u64, Map<u32, OpModel>>,
    rs: Seq<RecordModel>,
)
    requires
        forall|k: int| 0 <= k < rs.len() ==> record_absorbed(m, log, #[trigger] rs[k]),
    ensures
        apply_records(m, log, rs) == (m, log),
    decreases rs.len(),
{
    if rs.len() > 0 {
        lemma_absorbed_noop(m, log, rs.first());
        assert forall|k: int| 0 <= k < rs.drop_first().len() implies record_absorbed(
            m,
            log,
            #[trigger] rs.drop_first()[k],
        ) by {
            assert(rs.drop_first()[k] == rs[k + 1]);
        }
        lemma_absorbed_run_noop(m, log, rs.drop_first());
    }
}

/// Idempotence: importing the same records twice ends exactly where
/// importing them once does, tables and log alike.
pub proof fn lemma_import_idempotent(
    m: Map<Seq<char>, TableModel>,
    log: Map<u64, Map<u32, OpModel>>,
    rs: Seq<RecordModel>,
)
    requires
        forall|k: int| 0 <= k < rs.len() ==> record_valid(#[trigger] rs[k]),
    ensures
        apply_records(apply_records(m, log, rs).0, apply_records(m, log, rs).1, rs)
            == apply_records(m, log, rs),
{
    lemma_pass_absorbs(m, log, rs);
    lemma_absorbed_run_noop(apply_records(m, log, rs).0, apply_records(m, log, rs).1, rs);
}

/// Two records on different tables with different ids commute, state and
/// log alike, conflict checks included.
pub proof fn lemma_disjoint_records_commute(
    m: Map<Seq<char>, TableModel>,
    log: Map<u64, Map<u32, OpModel>>,
    r1: RecordModel,
    r2: RecordModel,
)
    requires
        r1.table != r2.table,
        r1.id != r2.id,
    ensures
        step_tables(step_tables(m, log, r1), step_log(m, log, r1), r2) == step_tables(
            step_tables(m, log, r2),
            step_log(m, log, r2),
            r1,
        ),
        step_log(step_tables(m, log, r1), step_log(m, log, r1), r2) == step_log(
            step_tables(m, log, r2),
            step_log(m, log, r2),
            r1,
        ),
        log_conflicts(step_log(m, log, r1), r2) == log_conflicts(log, r2),
        log_conflicts(step_log(m, log, r2), r1) == log_conflicts(log, r1),
        record_changes(step_tables(m, log, r1), r2) == record_changes(m, r2),
        record_changes(step_tables(m, log, r2), r1) == record_changes(m, r1),
{
    lemma_slot_stable(log, r1, r2);
    lemma_slot_stable(log, r2, r1);
    assert(table_of(step_tables(m, log, r1), r2.table) == table_of(m, r2.table));
    assert(table_of(step_tables(m, log, r2), r1.table) == table_of(m, r1.table));
    let m12 = step_tables(step_tables(m, log, r1), step_log(m, log, r1), r2);
    let m21 = step_tables(step_tables(m, log, r2), step_log(m, log, r2), r1);
    assert(m12 =~= m21);
    let l12 = step_log(step_tables(m, log, r1), step_log(m, log, r1), r2);
    let l21 = step_log(step_tables(m, log, r2), step_log(m, log, r2), r1);
    if !log_conflicts(log, r1) && record_changes(m, r1) && !log_conflicts(log, r2)
        && record_changes(m, r2) {
        lemma_log_record_commutes(log, r1, r2);
    }
    assert(l12 == l21);
}

/// A step at one id leaves the conflict status of a record at another id
/// alone.
proof fn lemma_slot_stable(
    log: Map<u64, Map<u32, OpModel>>,
    r2: RecordModel,
    r1: RecordModel,
)
    requires
        r1.id != r2.id,
    ensures
        log_conflicts(step_log_any(log, r2), r1) == log_conflicts(log, r1),
{
    let log2 = step_log_any(log, r2);
    if log2 != log {
        if r1.id.peer == r2.id.peer {
            assert(log2[r1.id.peer].contains_key(r1.id.lamport) == log[r1.id.peer].contains_key(
                r1.id.lamport,
            ) || !log.contains_key(r1.id.peer));
        } else {
            assert(log2.contains_key(r1.id.peer) == log.contains_key(r1.id.peer));
        }
    }
}

/// The log half of a step, whatever the tables said: either unchanged or
/// one insertion at the record's id.
pub open spec fn step_log_any(
    log: Map<u64, Map<u32, OpModel>>,
    r: RecordModel,
) -> Map<u64, Map<u32, OpModel>> {
    crate::oplog::log_record(log, r.id, record_log_op(r))
}

/// Whether a run of records touches none of the tables another run does.
pub open spec fn tables_disjoint(rs1: Seq<RecordModel>, rs2: Seq<RecordModel>) -> bool {
    forall|i: int, j: int|
        0 <= i < rs1.len() && 0 <= j < rs2.len() ==> (#[trigger] rs1[i]).table != (
        #[trigger] rs2[j]).table
}

/// One record commutes past a whole run it shares no table with and no
/// id with.
proof fn lemma_record_commutes_run(
    m: Map<Seq<char>, TableModel>,
    log: Map<u64, Map<u32, OpModel>>,
    r: RecordModel,
    rs: Seq<RecordModel>,
)
    requires
        forall|j: int|
            0 <= j < rs.len() ==> r.table != (#[trigger] rs[j]).table && r.id != rs[j].id,
    ensures
        ({
            let one = apply_records(step_tables(m, log, r), step_log(m, log, r), rs);
            let other = apply_records(m, log, rs);
            one.0 == step_tables(other.0, other.1, r) && one.1 == step_log(other.0, other.1, r)
        }),
    decreases rs.len(),
{
    if rs.len() == 0 {
    } else {
        let h = rs.first();
        lemma_disjoint_records_commute(m, log, r, h);
        let m2 = step_tables(m, log, h);
        let log2 = step_log(m, log, h);
        assert forall|j: int| 0 <= j < rs.drop_first().len() implies r.table != (
        #[trigger] rs.drop_first()[j]).table && r.id != rs.drop_first()[j].id by {
            assert(rs.drop_first()[j] == rs[j + 1]);
        }
        lemma_record_commutes_run(m2, log2, r, rs.drop_first());
    }
}

/// Disjoint runs commute: importing two delta record runs that touch
/// different tables and carry different ids lands in the same state and
/// log in either order.
pub proof fn lemma_disjoint_imports_commute(
    m: Map<Seq<char>, TableModel>,
    log: Map<u64, Map<u32, OpModel>>,
    rs1: Seq<RecordModel>,
    rs2: Seq<RecordModel>,
)
    requires
        tables_disjoint(rs1, rs2),
        forall|i: int, j: int|
            0 <= i < rs1.len() && 0 <= j < rs2.len() ==> (#[trigger] rs1[i]).id != (
            #[trigger] rs2[j]).id,
    ensures
        ({
            let a = apply_records(m, log, rs1);
            let b = apply_records(m, log, rs2);
            apply_records(a.0, a.1, rs2) == apply_records(b.0, b.1, rs1)
        }),
    decreases rs1.len(),
{
    if rs1.len() > 0 {
        let r = rs1.first();
        assert forall|j: int| 0 <= j < rs2.len() implies r.table != (#[trigger] rs2[j]).table
            && r.id != rs2[j].id by {
            assert(rs1[0].table != rs2[j].table && rs1[0].id != rs2[j].id);
        }
        lemma_record_commutes_run(m, log, r, rs2);
        let m1 = step_tables(m, log, r);
        let log1 = step_log(m, log, r);
        assert forall|i: int, j: int|
            0 <= i < rs1.drop_first().len() && 0 <= j < rs2.len() implies (
        #[trigger] rs1.drop_first()[i]).table != (#[trigger] rs2[j]).table
            && rs1.drop_first()[i].id != rs2[j].id by {
            assert(rs1.drop_first()[i] == rs1[i + 1]);
        }
        lemma_disjoint_imports_commute(m1, log1, rs1.drop_first(), rs2);
        let b = apply_records(m, log, rs2);
        assert(apply_records(b.0, b.1, rs1) == apply_records(
            step_tables(b.0, b.1, r),
            step_log(b.0, b.1, r),
            rs1.drop_first(),
        ));
    }
}

/// Two log insertions at different or equal keys reorder freely when
/// both happen; the log map ends the same.
proof fn lemma_log_record_commutes(
    log: Map<u64, Map<u32, OpModel>>,
    r1: RecordModel,
    r2: RecordModel,
)
    requires
        r1.id != r2.id || crate::encode::delta::record_log_op(r1)
            == crate::encode::delta::record_log_op(r2),
    ensures
        crate::oplog::log_record(
            crate::oplog::log_record(log, r1.id, crate::encode::delta::record_log_op(r1)),
            r2.id,
            crate::encode::delta::record_log_op(r2),
        ) == crate::oplog::log_record(
            crate::oplog::log_record(log, r2.id, crate::encode::delta::record_log_op(r2)),
            r1.id,
            crate::encode::delta::record_log_op(r1),
        ),
{
    let a = crate::oplog::log_record(
        crate::oplog::log_record(log, r1.id, crate::encode::delta::record_log_op(r1)),
        r2.id,
        crate::encode::delta::record_log_op(r2),
    );
    let b = crate::oplog::log_record(
        crate::oplog::log_record(log, r2.id, crate::encode::delta::record_log_op(r2)),
        r1.id,
        crate::encode::delta::record_log_op(r1),
    );
    if r1.id.peer == r2.id.peer {
        assert(a[r1.id.peer] =~= b[r1.id.peer]);
    }
    assert(a =~= b);
}

/// The operation-log coverage invariant: every cell's id is logged as an
/// update marker for its table and row.
pub open spec fn oplog_covers(
    m: Map<Seq<char>, TableModel>,
    log: Map<u64, Map<u32, OpModel>>,
) -> bool {
    forall|t: Seq<char>, r: Seq<char>, c: Seq<char>|
        m.contains_key(t) && m[t].rows.contains_key(r) && #[trigger] m[t].rows[r].cells.contains_key(
            c,
        ) ==> crate::encode::delta::log_has(
            log,
            m[t].rows[r].cells[c].id,
            OpModel::Update { table: t, row: r },
        )
}

/// A replica has nothing to send itself: a sound export taken against
/// the database's own version holds no records, since every cell and
/// every logged deletion is already included in that clock.
pub proof fn lemma_export_at_own_version_empty(db: crate::db::LwwDb, rs: Seq<RecordModel>)
    requires
        db.wf(),
        crate::encode::delta::export_sound(rs, db.model(), db.oplog@, db.oplog.vv@),
    ensures
        rs.len() == 0,
{
    crate::oplog::lemma_log_within_version(db.oplog);
    if rs.len() > 0 {
        let r = rs[0];
        let m = db.model();
        let log = db.oplog@;
        assert(crate::encode::delta::record_sound(r, m, log, db.oplog.vv@));
        match (r.row, r.col) {
            (Some(row), Some(col)) => {
                assert(row_of(table_of(m, r.table), row).cells.contains_key(col));
                assert(m.contains_key(r.table));
                assert(m[r.table].rows.contains_key(row));
                assert(m[r.table].rows[row].cells[col].id == r.id);
                assert(crate::encode::delta::log_has(log, r.id, OpModel::Update {
                    table: r.table,
                    row,
                }));
            },
            (Some(row), None) => {
                assert(crate::encode::delta::log_has(log, r.id, OpModel::DeleteRow {
                    table: r.table,
                    row,
                }));
            },
            (None, _) => {
                assert(crate::encode::delta::log_has(log, r.id, OpModel::DeleteTable {
                    table: r.table,
                }));
            },
        }
        assert(crate::clock::clock_includes(db.oplog.vv@, r.id));
        assert(false);
    }
}

/// Log coverage survives one guarded application step: a conflicting
/// record is dropped, and a clean one logs exactly its own marker, in a
/// slot that was vacant or already held it.
pub proof fn lemma_step_keeps_cover(
    m: Map<Seq<char>, TableModel>,
    log: Map<u64, Map<u32, OpModel>>,
    r: RecordModel,
)
    requires
        oplog_covers(m, log),
        record_valid(r),
    ensures
        oplog_covers(step_tables(m, log, r), step_log(m, log, r)),
{
    if log_conflicts(log, r) {
    } else {
        let m2 = step_tables(m, log, r);
        let log2 = step_log(m, log, r);
        assert forall|t2: Seq<char>, r2: Seq<char>, c2: Seq<char>|
            m2.contains_key(t2) && m2[t2].rows.contains_key(r2)
                && #[trigger] m2[t2].rows[r2].cells.contains_key(c2) implies crate::encode::delta::log_has(
            log2,
            m2[t2].rows[r2].cells[c2].id,
            OpModel::Update { table: t2, row: r2 },
        ) by {
            let id2 = m2[t2].rows[r2].cells[c2].id;
            let fresh_cell = t2 == r.table && r.row == Some(r2) && r.col == Some(c2)
                && record_changes(m, r) && id2 == r.id;
            if fresh_cell {
                assert(record_log_op(r) == OpModel::Update { table: t2, row: r2 });
            } else {
                // The cell predates this step; its marker is in the log,
                // and the one slot this step may write already held an
                // equal marker if that cell's id names it.
                assert(m.contains_key(t2) && m[t2].rows.contains_key(r2)
                    && m[t2].rows[r2].cells.contains_key(c2) && m2[t2].rows[r2].cells[c2]
                    == m[t2].rows[r2].cells[c2]);
                assert(crate::encode::delta::log_has(
                    log,
                    id2,
                    OpModel::Update { table: t2, row: r2 },
                ));
                if record_changes(m, r) && id2 == r.id {
                    assert(log[r.id.peer][r.id.lamport] == OpModel::Update {
                        table: t2,
                        row: r2,
                    });
                    assert(record_log_op(r) == OpModel::Update { table: t2, row: r2 });
                }
            }
        }
    }
}

/// A fresh id lies above every logged lamport.
pub open spec fn log_fresh(log: Map<u64, Map<u32, OpModel>>, id: OpId) -> bool {
    forall|p: u64, l: u32| log.contains_key(p) && #[trigger] log[p].contains_key(l) ==> l
        < id.lamport
}

/// Log coverage survives a local write: the new cell's marker is logged
/// fresh, and every older marker stays.
pub proof fn lemma_set_keeps_cover(
    m: Map<Seq<char>, TableModel>,
    log: Map<u64, Map<u32, OpModel>>,
    t: Seq<char>,
    r: Seq<char>,
    c: Seq<char>,
    v: ValueModel,
    id: OpId,
)
    requires
        oplog_covers(m, log),
        log_fresh(log, id),
    ensures
        oplog_covers(
            m.insert(t, apply_set(crate::db::table_of(m, t), r, c, v, id)),
            crate::oplog::log_record(log, id, OpModel::Update { table: t, row: r }),
        ),
{
    let m2 = m.insert(t, apply_set(crate::db::table_of(m, t), r, c, v, id));
    let log2 = crate::oplog::log_record(log, id, OpModel::Update { table: t, row: r });
    assert forall|t2: Seq<char>, r2: Seq<char>, c2: Seq<char>|
        m2.contains_key(t2) && m2[t2].rows.contains_key(r2)
            && #[trigger] m2[t2].rows[r2].cells.contains_key(c2) implies crate::encode::delta::log_has(
        log2,
        m2[t2].rows[r2].cells[c2].id,
        OpModel::Update { table: t2, row: r2 },
    ) by {
        if t2 == t && r2 == r && c2 == c && set_allowed(crate::db::table_of(m, t), r, c, id) {
        } else {
            let old_cell = if t2 == t {
                row_of(crate::db::table_of(m, t), r2).cells[c2]
            } else {
                m[t2].rows[r2].cells[c2]
            };
            if t2 == t {
                assert(m.contains_key(t) ==> m[t].rows[r2].cells.contains_key(c2)
                    || (r2 == r && c2 == c));
            }
            assert(m.contains_key(t2) && m[t2].rows.contains_key(r2)
                && m[t2].rows[r2].cells.contains_key(c2));
            assert(crate::encode::delta::log_has(
                log,
                m[t2].rows[r2].cells[c2].id,
                OpModel::Update { table: t2, row: r2 },
            ));
            assert(m[t2].rows[r2].cells[c2].id.lamport < id.lamport);
        }
    }
}

/// Log coverage survives a local row deletion: cells only disappear and
/// the fresh tombstone entry overwrites nothing.
pub proof fn lemma_delete_row_keeps_cover(
    m: Map<Seq<char>, TableModel>,
    log: Map<u64, Map<u32, OpModel>>,
    t: Seq<char>,
    r: Seq<char>,
    id: OpId,
)
    requires
        oplog_covers(m, log),
        log_fresh(log, id),
    ensures
        oplog_covers(
            m.insert(t, apply_delete_row(crate::db::table_of(m, t), r, id)),
            crate::oplog::log_record(log, id, OpModel::DeleteRow { table: t, row: r }),
        ),
{
    let m2 = m.insert(t, apply_delete_row(crate::db::table_of(m, t), r, id));
    let log2 = crate::oplog::log_record(log, id, OpModel::DeleteRow { table: t, row: r });
    assert forall|t2: Seq<char>, r2: Seq<char>, c2: Seq<char>|
        m2.contains_key(t2) && m2[t2].rows.contains_key(r2)
            && #[trigger] m2[t2].rows[r2].cells.contains_key(c2) implies crate::encode::delta::log_has(
        log2,
        m2[t2].rows[r2].cells[c2].id,
        OpModel::Update { table: t2, row: r2 },
    ) by {
        assert(m.contains_key(t2) && m[t2].rows.contains_key(r2)
            && m[t2].rows[r2].cells.contains_key(c2) && m2[t2].rows[r2].cells[c2]
            == m[t2].rows[r2].cells[c2]);
        assert(m[t2].rows[r2].cells[c2].id.lamport < id.lamport);
    }
}

/// Log coverage survives a local table deletion, for the same reasons.
pub proof fn lemma_delete_table_keeps_cover(
    m: Map<Seq<char>, TableModel>,
    log: Map<u64, Map<u32, OpModel>>,
    t: Seq<char>,
    id: OpId,
)
    requires
        oplog_covers(m, log),
        log_fresh(log, id),
    ensures
        oplog_covers(
            m.insert(t, apply_delete_table(crate::db::table_of(m, t), id)),
            crate::oplog::log_record(log, id, OpModel::DeleteTable { table: t }),
        ),
{
    let m2 = m.insert(t, apply_delete_table(crate::db::table_of(m, t), id));
    let log2 = crate::oplog::log_record(log, id, OpModel::DeleteTable { table: t });
    assert forall|t2: Seq<char>, r2: Seq<char>, c2: Seq<char>|
        m2.contains_key(t2) && m2[t2].rows.contains_key(r2)
            && #[trigger] m2[t2].rows[r2].cells.contains_key(c2) implies crate::encode::delta::log_has(
        log2,
        m2[t2].rows[r2].cells[c2].id,
        OpModel::Update { table: t2, row: r2 },
    ) by {
        assert(m.contains_key(t2) && m[t2].rows.contains_key(r2)
            && m[t2].rows[r2].cells.contains_key(c2) && m2[t2].rows[r2].cells[c2]
            == m[t2].rows[r2].cells[c2]);
        assert(m[t2].rows[r2].cells[c2].id.lamport < id.lamport);
    }
}

} // verus!
