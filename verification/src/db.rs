//! The database: named tables, a local peer id, and the operation log.
//!
//! Local mutations mint a fresh `OpId` (one past the highest lamport ever
//! recorded), apply it to the table, and log it. Remote operations arrive
//! through the same table path with their original ids, so local and
//! imported edits obey one merge rule.

use vstd::prelude::*;

use crate::assoc::{assoc_map, keys_unique, lemma_assoc_contains_one, lemma_assoc_index,
    lemma_assoc_push, lemma_assoc_update};
use crate::clock::VectorClock;
use crate::oplog::{log_record, Op, OpLog, OpModel};
use crate::table::{apply_delete_row, apply_delete_table, apply_set, delete_row_allowed,
    guard_blocks, row_of, set_allowed, LwwTable, RowValue, TableModel};
use crate::value::{Value, ValueModel};
use crate::OpId;

verus! {

/// One named table.
pub struct TableEntry {
    pub name: String,
    pub table: LwwTable,
}

/// One replica's database.
pub struct LwwDb {
    pub peer: u64,
    pub tables: Vec<TableEntry>,
    pub oplog: OpLog,
}

pub open spec fn table_key() -> spec_fn(TableEntry) -> Seq<char> {
    |e: TableEntry| e.name@
}

pub open spec fn table_val() -> spec_fn(TableEntry) -> TableModel {
    |e: TableEntry| e.table@
}

/// The tables a database holds, by name.
pub open spec fn tables_model(tables: Seq<TableEntry>) -> Map<Seq<char>, TableModel> {
    assoc_map(tables, table_key(), table_val())
}

/// A table that was never written.
pub open spec fn empty_table_model() -> TableModel {
    TableModel { rows: Map::empty(), removed: None }
}

/// The table a name denotes, or the empty table when absent.
pub open spec fn table_of(m: Map<Seq<char>, TableModel>, name: Seq<char>) -> TableModel {
    if m.contains_key(name) {
        m[name]
    } else {
        empty_table_model()
    }
}

/// Every operation id a row holds, tombstone included, has a lamport at
/// or below `max`.
pub open spec fn row_ids_bounded(rm: crate::table::RowModel, max: u32) -> bool {
    &&& (rm.cleared_at matches Some(c) ==> c.lamport <= max)
    &&& forall|c: Seq<char>| #[trigger] rm.cells.contains_key(c) ==> rm.cells[c].id.lamport <= max
}

/// Every operation id a table holds, tombstones included, has a lamport
/// at or below `max`.
pub open spec fn table_ids_bounded(t: TableModel, max: u32) -> bool {
    &&& (t.removed matches Some(d) ==> d.lamport <= max)
    &&& forall|r: Seq<char>| #[trigger] t.rows.contains_key(r) ==> row_ids_bounded(t.rows[r], max)
}

/// An id fresher than everything a table holds always wins: every guard
/// and cell in the table lies strictly below it.
pub proof fn lemma_fresh_id_wins(t: TableModel, row: Seq<char>, col: Seq<char>, id: OpId, max: u32)
    requires
        table_ids_bounded(t, max),
        id.lamport > max,
    ensures
        set_allowed(t, row, col, id),
        delete_row_allowed(t, row, id),
        !guard_blocks(t.removed, id),
{
    if t.rows.contains_key(row) {
        assert(t.rows.contains_key(row));
    }
}

/// Applying an operation at `id` keeps every table id at or below any
/// bound that covers both the old table and `id`.
pub proof fn lemma_set_bounded(
    t: TableModel,
    row: Seq<char>,
    col: Seq<char>,
    v: ValueModel,
    id: OpId,
    max: u32,
)
    requires
        table_ids_bounded(t, max),
        id.lamport <= max,
    ensures
        table_ids_bounded(apply_set(t, row, col, v, id), max),
{
    let t2 = apply_set(t, row, col, v, id);
    if set_allowed(t, row, col, id) {
        assert forall|r: Seq<char>| #[trigger] t2.rows.contains_key(r) implies row_ids_bounded(
            t2.rows[r],
            max,
        ) by {
            if r == row {
                let rm = t2.rows[r];
                assert forall|c: Seq<char>| #[trigger] rm.cells.contains_key(c) implies
                rm.cells[c].id.lamport <= max by {
                    if c != col {
                        assert(row_of(t, row).cells.contains_key(c));
                    }
                }
            }
        }
    }
}

/// As [`lemma_set_bounded`], for row deletion.
pub proof fn lemma_delete_row_bounded(t: TableModel, row: Seq<char>, id: OpId, max: u32)
    requires
        table_ids_bounded(t, max),
        id.lamport <= max,
    ensures
        table_ids_bounded(apply_delete_row(t, row, id), max),
{
    let t2 = apply_delete_row(t, row, id);
    if delete_row_allowed(t, row, id) {
        assert forall|r: Seq<char>| #[trigger] t2.rows.contains_key(r) implies row_ids_bounded(
            t2.rows[r],
            max,
        ) by {
            if r == row {
                let rm = t2.rows[r];
                assert forall|c: Seq<char>| #[trigger] rm.cells.contains_key(c) implies
                rm.cells[c].id.lamport <= max by {
                    assert(row_of(t, row).cells.contains_key(c));
                }
            }
        }
    }
}

/// As [`lemma_set_bounded`], for table deletion.
pub proof fn lemma_delete_table_bounded(t: TableModel, id: OpId, max: u32)
    requires
        table_ids_bounded(t, max),
        id.lamport <= max,
    ensures
        table_ids_bounded(apply_delete_table(t, id), max),
{
    let t2 = apply_delete_table(t, id);
    if !guard_blocks(t.removed, id) {
        assert forall|r: Seq<char>| #[trigger] t2.rows.contains_key(r) implies row_ids_bounded(
            t2.rows[r],
            max,
        ) by {
            assert(t.rows.contains_key(r));
            let rm = t2.rows[r];
            assert forall|c: Seq<char>| #[trigger] rm.cells.contains_key(c) implies
            rm.cells[c].id.lamport <= max by {
                assert(t.rows[r].cells.contains_key(c));
            }
        }
    }
}

/// A bound on a table's ids stays a bound when raised.
pub proof fn lemma_bounded_mono(t: TableModel, m1: u32, m2: u32)
    requires
        table_ids_bounded(t, m1),
        m1 <= m2,
    ensures
        table_ids_bounded(t, m2),
{
    assert forall|r: Seq<char>| #[trigger] t.rows.contains_key(r) implies row_ids_bounded(
        t.rows[r],
        m2,
    ) by {
        assert(row_ids_bounded(t.rows[r], m1));
    }
}

/// Instantiated key-occurrence lemma for table entries.
pub proof fn lemma_tables_contains(tables: Seq<TableEntry>, k: Seq<char>)
    ensures
        tables_model(tables).contains_key(k) <==> exists|i: int|
            0 <= i < tables.len() && (#[trigger] tables[i]).name@ == k,
{
    lemma_assoc_contains_one(tables, table_key(), table_val(), k);
    if exists|i: int| 0 <= i < tables.len() && table_key()(#[trigger] tables[i]) == k {
        let i = choose|i: int| 0 <= i < tables.len() && table_key()(#[trigger] tables[i]) == k;
        assert(tables[i].name@ == k);
    }
    if exists|i: int| 0 <= i < tables.len() && (#[trigger] tables[i]).name@ == k {
        let i = choose|i: int| 0 <= i < tables.len() && (#[trigger] tables[i]).name@ == k;
        assert(table_key()(tables[i]) == k);
    }
}

/// Index of the table with the given name, if any.
fn find_table(tables: &Vec<TableEntry>, name: &String) -> (r: Option<usize>)
    ensures
        match r {
            Some(i) => i < tables@.len() && tables@[i as int].name@ == name@,
            None => forall|i: int| 0 <= i < tables@.len() ==> (#[trigger] tables@[i]).name@
                != name@,
        },
{
    let mut i: usize = 0;
    while i < tables.len()
        invariant
            i <= tables@.len(),
            forall|k: int| 0 <= k < i ==> (#[trigger] tables@[k]).name@ != name@,
        decreases tables@.len() - i,
    {
        if tables[i].name == *name {
            return Some(i);
        }
        i += 1;
    }
    None
}

/// Relies on getrandom::u64: eight bytes from the platform's random
/// source. Nothing is assumed about the value; an unavailable random
/// source comes back as `None`.
#[verifier::external_body]
pub(crate) fn random_peer() -> Option<u64> {
    getrandom::u64().ok()
}

impl LwwDb {
    /// Everything holds together: distinct table names, well-formed
    /// tables whose ids the log's maximum covers, a well-formed log, and
    /// every cell's id logged as an update marker for its table and row.
    pub open spec fn wf(self) -> bool {
        &&& keys_unique(self.tables@, table_key())
        &&& forall|i: int| 0 <= i < self.tables@.len() ==> (#[trigger] self.tables@[i]).table.wf()
        &&& forall|i: int|
            0 <= i < self.tables@.len() ==> table_ids_bounded(
                (#[trigger] self.tables@[i]).table@,
                self.oplog.max_lamport,
            )
        &&& self.oplog.wf()
        &&& crate::laws::oplog_covers(self.model(), self.oplog@)
    }

    /// The tables this replica holds, by name.
    pub open spec fn model(self) -> Map<Seq<char>, TableModel> {
        tables_model(self.tables@)
    }

    /// An empty database under a random peer id. `None` when the platform
    /// random source is unavailable: a failed draw is a construction
    /// failure, never a panic.
    pub fn new() -> (r: Option<Self>)
        ensures
            r matches Some(db) ==> {
                &&& db.wf()
                &&& db.model() == Map::<Seq<char>, TableModel>::empty()
                &&& db.oplog@ == Map::<u64, Map<u32, OpModel>>::empty()
                &&& db.oplog.max_lamport == 0
            },
    {
        match random_peer() {
            None => None,
            Some(peer) => Some(Self::new_with_peer(peer)),
        }
    }

    /// An empty database under the given peer id.
    pub fn new_with_peer(peer: u64) -> (r: Self)
        ensures
            r.wf(),
            r.peer == peer,
            r.model() == Map::<Seq<char>, TableModel>::empty(),
            r.oplog@ == Map::<u64, Map<u32, OpModel>>::empty(),
            r.oplog.max_lamport == 0,
    {
        let r = LwwDb { peer, tables: Vec::new(), oplog: OpLog::new() };
        proof {
            assert(r.model() =~= Map::<Seq<char>, TableModel>::empty());
        }
        r
    }

    /// Override the peer id; the caller answers for uniqueness.
    pub fn set_peer(&mut self, peer: u64)
        requires
            old(self).wf(),
        ensures
            final(self).wf(),
            final(self).peer == peer,
            final(self).model() == old(self).model(),
            final(self).oplog == old(self).oplog,
    {
        self.peer = peer;
    }

    /// The current vector clock.
    pub fn version(&self) -> (r: &VectorClock)
        ensures
            r == &self.oplog.vv,
    {
        self.oplog.version()
    }

    /// Install a fresh, empty table under `name`, replacing any existing
    /// one outright, tombstones included.
    pub fn create_table(&mut self, name: &str)
        requires
            old(self).wf(),
        ensures
            final(self).wf(),
            final(self).model() == old(self).model().insert(name@, empty_table_model()),
            final(self).oplog == old(self).oplog,
            final(self).peer == old(self).peer,
    {
        let key: String = name.to_owned();
        let ghost tables0 = self.tables@;
        let fresh = LwwTable::new();
        proof {
            assert(fresh@ =~= empty_table_model());
        }
        match find_table(&self.tables, &key) {
            Some(i) => {
                let entry = &mut self.tables[i];
                entry.table = fresh;
                proof {
                    assert(self.tables@ =~= tables0.update(i as int, self.tables@[i as int]));
                    lemma_assoc_update(
                        tables0,
                        table_key(),
                        table_val(),
                        i as int,
                        self.tables@[i as int],
                    );
                    assert(self.model() =~= old(self).model().insert(
                        name@,
                        empty_table_model(),
                    ));
                }
            },
            None => {
                self.tables.push(TableEntry { name: key, table: fresh });
                proof {
                    lemma_assoc_push(tables0, table_key(), table_val(), self.tables@.last());
                    assert(self.model() =~= old(self).model().insert(
                        name@,
                        empty_table_model(),
                    ));
                }
            },
        }
    }

    /// The index of the table `name`, creating an empty one when absent.
    pub(crate) fn ensure_table(&mut self, name: &String) -> (r: usize)
        requires
            old(self).wf(),
        ensures
            final(self).wf(),
            r < final(self).tables@.len(),
            final(self).tables@[r as int].name@ == name@,
            final(self).tables@[r as int].table@ == table_of(old(self).model(), name@),
            final(self).model() == old(self).model().insert(
                name@,
                table_of(old(self).model(), name@),
            ),
            final(self).oplog == old(self).oplog,
            final(self).peer == old(self).peer,
    {
        let ghost tables0 = self.tables@;
        proof {
            lemma_tables_contains(tables0, name@);
        }
        match find_table(&self.tables, name) {
            Some(i) => {
                proof {
                    lemma_assoc_index(tables0, table_key(), table_val(), i as int);
                    assert(self.model() =~= self.model().insert(
                        name@,
                        table_of(old(self).model(), name@),
                    ));
                }
                i
            },
            None => {
                let r = self.tables.len();
                let fresh = LwwTable::new();
                proof {
                    assert(fresh@ =~= empty_table_model());
                }
                self.tables.push(TableEntry { name: name.clone(), table: fresh });
                proof {
                    lemma_assoc_push(tables0, table_key(), table_val(), self.tables@.last());
                }
                r
            },
        }
    }

    /// Write `value` into (table, row, col) as a fresh local operation,
    /// creating the table on demand. Fresh local operations always win.
    pub fn set(&mut self, table_str: &str, row: &str, col: &str, value: Value)
        requires
            old(self).wf(),
            old(self).oplog.max_lamport < u32::MAX,
        ensures
            final(self).wf(),
            ({
                let id = OpId { lamport: (old(self).oplog.max_lamport + 1) as u32, peer: old(self).peer };
                let t0 = table_of(old(self).model(), table_str@);
                &&& final(self).model() == old(self).model().insert(
                    table_str@,
                    apply_set(t0, row@, col@, value@, id),
                )
                &&& set_allowed(t0, row@, col@, id)
                &&& final(self).oplog@ == log_record(
                    old(self).oplog@,
                    id,
                    OpModel::Update { table: table_str@, row: row@ },
                )
                &&& final(self).oplog.max_lamport == old(self).oplog.max_lamport + 1
                &&& final(self).peer == old(self).peer
            }),
    {
        let lamport = self.oplog.next_lamport();
        let id = OpId { lamport, peer: self.peer };
        let tkey: String = table_str.to_owned();
        let rkey: String = row.to_owned();
        let i = self.ensure_table(&tkey);
        let ghost mid = *self;
        proof {
            lemma_fresh_id_wins(self.tables@[i as int].table@, row@, col@, id, old(self).oplog.max_lamport);
        }
        let entry = &mut self.tables[i];
        let changed = entry.table.set(row, col, value, id);
        proof {
            assert(changed);
            assert(self.tables@ =~= mid.tables@.update(i as int, self.tables@[i as int]));
            lemma_assoc_update(
                mid.tables@,
                table_key(),
                table_val(),
                i as int,
                self.tables@[i as int],
            );
            assert(self.model() =~= old(self).model().insert(
                table_str@,
                apply_set(table_of(old(self).model(), table_str@), row@, col@, value@, id),
            ));
        }
        self.oplog.record_update(id, tkey, rkey);
        proof {
            let newmax = self.oplog.max_lamport;
            assert forall|k: int| 0 <= k < self.tables@.len() implies table_ids_bounded(
                (#[trigger] self.tables@[k]).table@,
                newmax,
            ) by {
                lemma_bounded_mono(mid.tables@[k].table@, mid.oplog.max_lamport, newmax);
                if k == i as int {
                    lemma_set_bounded(mid.tables@[k].table@, row@, col@, value@, id, newmax);
                }
            }
        }
    
        proof {
            crate::oplog::lemma_log_keys_bounded(old(self).oplog);
            assert forall|p: u64, l: u32|
                old(self).oplog@.contains_key(p) && #[trigger] old(self).oplog@[p].contains_key(
                    l,
                ) implies l < id.lamport by {}
            crate::laws::lemma_set_keeps_cover(
                old(self).model(),
                old(self).oplog@,
                table_str@,
                row@,
                col@,
                value@,
                id,
            );
            assert(crate::laws::oplog_covers(self.model(), self.oplog@));
        }
    }

    /// Tombstone the cell at (table, row, col) as a fresh local operation.
    pub fn delete(&mut self, table_str: &str, row: &str, col: &str)
        requires
            old(self).wf(),
            old(self).oplog.max_lamport < u32::MAX,
        ensures
            final(self).wf(),
            ({
                let id = OpId { lamport: (old(self).oplog.max_lamport + 1) as u32, peer: old(self).peer };
                let t0 = table_of(old(self).model(), table_str@);
                &&& final(self).model() == old(self).model().insert(
                    table_str@,
                    apply_set(t0, row@, col@, ValueModel::Deleted, id),
                )
                &&& set_allowed(t0, row@, col@, id)
                &&& final(self).oplog@ == log_record(
                    old(self).oplog@,
                    id,
                    OpModel::Update { table: table_str@, row: row@ },
                )
                &&& final(self).oplog.max_lamport == old(self).oplog.max_lamport + 1
                &&& final(self).peer == old(self).peer
            }),
    {
        self.set(table_str, row, col, Value::Deleted)
    }

    /// Tombstone the row (table, row) as a fresh local operation.
    pub fn delete_row(&mut self, table_str: &str, row: &str)
        requires
            old(self).wf(),
            old(self).oplog.max_lamport < u32::MAX,
        ensures
            final(self).wf(),
            ({
                let id = OpId { lamport: (old(self).oplog.max_lamport + 1) as u32, peer: old(self).peer };
                let t0 = table_of(old(self).model(), table_str@);
                &&& final(self).model() == old(self).model().insert(
                    table_str@,
                    apply_delete_row(t0, row@, id),
                )
                &&& delete_row_allowed(t0, row@, id)
                &&& final(self).oplog@ == log_record(
                    old(self).oplog@,
                    id,
                    OpModel::DeleteRow { table: table_str@, row: row@ },
                )
                &&& final(self).oplog.max_lamport == old(self).oplog.max_lamport + 1
                &&& final(self).peer == old(self).peer
            }),
    {
        let lamport = self.oplog.next_lamport();
        let id = OpId { lamport, peer: self.peer };
        let tkey: String = table_str.to_owned();
        let rkey: String = row.to_owned();
        let i = self.ensure_table(&tkey);
        let ghost mid = *self;
        proof {
            lemma_fresh_id_wins(self.tables@[i as int].table@, row@, row@, id, old(self).oplog.max_lamport);
        }
        let entry = &mut self.tables[i];
        let changed = entry.table.delete_row(row, id);
        proof {
            assert(changed);
            assert(self.tables@ =~= mid.tables@.update(i as int, self.tables@[i as int]));
            lemma_assoc_update(
                mid.tables@,
                table_key(),
                table_val(),
                i as int,
                self.tables@[i as int],
            );
            assert(self.model() =~= old(self).model().insert(
                table_str@,
                apply_delete_row(table_of(old(self).model(), table_str@), row@, id),
            ));
        }
        self.oplog.record_delete_row(id, tkey, rkey);
        proof {
            let newmax = self.oplog.max_lamport;
            assert forall|k: int| 0 <= k < self.tables@.len() implies table_ids_bounded(
                (#[trigger] self.tables@[k]).table@,
                newmax,
            ) by {
                lemma_bounded_mono(mid.tables@[k].table@, mid.oplog.max_lamport, newmax);
                if k == i as int {
                    lemma_delete_row_bounded(mid.tables@[k].table@, row@, id, newmax);
                }
            }
        }
    
        proof {
            crate::oplog::lemma_log_keys_bounded(old(self).oplog);
            assert forall|p: u64, l: u32|
                old(self).oplog@.contains_key(p) && #[trigger] old(self).oplog@[p].contains_key(
                    l,
                ) implies l < id.lamport by {}
            crate::laws::lemma_delete_row_keeps_cover(
                old(self).model(),
                old(self).oplog@,
                table_str@,
                row@,
                id,
            );
            assert(crate::laws::oplog_covers(self.model(), self.oplog@));
        }
    }

    /// Tombstone the whole table as a fresh local operation.
    pub fn delete_table(&mut self, table_str: &str)
        requires
            old(self).wf(),
            old(self).oplog.max_lamport < u32::MAX,
        ensures
            final(self).wf(),
            ({
                let id = OpId { lamport: (old(self).oplog.max_lamport + 1) as u32, peer: old(self).peer };
                let t0 = table_of(old(self).model(), table_str@);
                &&& final(self).model() == old(self).model().insert(
                    table_str@,
                    apply_delete_table(t0, id),
                )
                &&& !guard_blocks(t0.removed, id)
                &&& final(self).oplog@ == log_record(
                    old(self).oplog@,
                    id,
                    OpModel::DeleteTable { table: table_str@ },
                )
                &&& final(self).oplog.max_lamport == old(self).oplog.max_lamport + 1
                &&& final(self).peer == old(self).peer
            }),
    {
        let lamport = self.oplog.next_lamport();
        let id = OpId { lamport, peer: self.peer };
        let tkey: String = table_str.to_owned();
        let i = self.ensure_table(&tkey);
        let ghost mid = *self;
        proof {
            lemma_fresh_id_wins(self.tables@[i as int].table@, tkey@, tkey@, id, old(self).oplog.max_lamport);
        }
        let entry = &mut self.tables[i];
        let changed = entry.table.delete_table(id);
        proof {
            assert(changed);
            assert(self.tables@ =~= mid.tables@.update(i as int, self.tables@[i as int]));
            lemma_assoc_update(
                mid.tables@,
                table_key(),
                table_val(),
                i as int,
                self.tables@[i as int],
            );
            assert(self.model() =~= old(self).model().insert(
                table_str@,
                apply_delete_table(table_of(old(self).model(), table_str@), id),
            ));
        }
        self.oplog.record_delete_table(id, tkey);
        proof {
            let newmax = self.oplog.max_lamport;
            assert forall|k: int| 0 <= k < self.tables@.len() implies table_ids_bounded(
                (#[trigger] self.tables@[k]).table@,
                newmax,
            ) by {
                lemma_bounded_mono(mid.tables@[k].table@, mid.oplog.max_lamport, newmax);
                if k == i as int {
                    lemma_delete_table_bounded(mid.tables@[k].table@, id, newmax);
                }
            }
        }
    
        proof {
            crate::oplog::lemma_log_keys_bounded(old(self).oplog);
            assert forall|p: u64, l: u32|
                old(self).oplog@.contains_key(p) && #[trigger] old(self).oplog@[p].contains_key(
                    l,
                ) implies l < id.lamport by {}
            crate::laws::lemma_delete_table_keeps_cover(
                old(self).model(),
                old(self).oplog@,
                table_str@,
                id,
            );
            assert(crate::laws::oplog_covers(self.model(), self.oplog@));
        }
    }

    /// Every table the model holds, named or not, satisfies the model
    /// invariant.
    pub proof fn lemma_table_model_inv(self, t: Seq<char>)
        requires
            self.wf(),
        ensures
            crate::table::model_inv(table_of(self.model(), t)),
    {
        lemma_tables_contains(self.tables@, t);
        if self.model().contains_key(t) {
            let i = choose|i: int|
                0 <= i < self.tables@.len() && (#[trigger] self.tables@[i]).name@ == t;
            lemma_assoc_index(self.tables@, table_key(), table_val(), i);
            assert(self.tables@[i].table.wf());
        } else {
            assert forall|r: Seq<char>|
                #[trigger] empty_table_model().rows.contains_key(r) implies crate::table::row_model_inv(
                empty_table_model(),
                empty_table_model().rows[r],
            ) by {}
        }
    }

    /// Whether two replicas hold the same table state, by content; the
    /// peer ids and logs may differ.
    pub fn check_eq(&mut self, other: &mut LwwDb) -> (r: bool)
        requires
            old(self).wf(),
            old(other).wf(),
        ensures
            final(self).tables@ == old(self).tables@,
            final(self).oplog == old(self).oplog,
            final(self).peer == old(self).peer,
            final(other).tables@ == old(other).tables@,
            final(other).oplog == old(other).oplog,
            final(other).peer == old(other).peer,
            r == (old(self).model() == old(other).model()),
    {
        proof {
            crate::assoc::lemma_assoc_dom_len(self.tables@, table_key(), table_val());
            crate::assoc::lemma_assoc_dom_len(other.tables@, table_key(), table_val());
        }
        if self.tables.len() != other.tables.len() {
            proof {
                assert(self.model().dom().len() != other.model().dom().len());
            }
            return false;
        }
        let mut i: usize = 0;
        while i < self.tables.len()
            invariant
                i <= self.tables@.len(),
                old(self).wf(),
                old(other).wf(),
                self.tables@ == old(self).tables@,
                self.oplog == old(self).oplog,
                self.peer == old(self).peer,
                other.tables@ == old(other).tables@,
                other.oplog == old(other).oplog,
                other.peer == old(other).peer,
                forall|k: int|
                    0 <= k < i ==> self.model().contains_key(
                        (#[trigger] self.tables@[k]).name@,
                    ) && other.model().contains_key(self.tables@[k].name@) && self.model()[
                        self.tables@[k].name@
                    ] == other.model()[self.tables@[k].name@],
            decreases self.tables@.len() - i,
        {
            proof {
                lemma_assoc_index(self.tables@, table_key(), table_val(), i as int);
                lemma_tables_contains(other.tables@, self.tables@[i as int].name@);
            }
            let name = self.tables[i].name.clone();
            match find_table(&other.tables, &name) {
                None => {
                    proof {
                        assert(self.model().contains_key(self.tables@[i as int].name@));
                        assert(!other.model().contains_key(self.tables@[i as int].name@));
                    }
                    return false;
                },
                Some(j) => {
                    proof {
                        lemma_assoc_index(other.tables@, table_key(), table_val(), j as int);
                    }
                    let ghost st0 = self.tables@;
                    let ghost ot0 = other.tables@;
                    let sref = &mut self.tables[i];
                    let oref = &mut other.tables[j];
                    let eq = sref.table.check_eq(&mut oref.table);
                    proof {
                        assert(self.tables@ =~= st0);
                        assert(other.tables@ =~= ot0);
                    }
                    if !eq {
                        proof {
                            assert(self.model()[self.tables@[i as int].name@] != other.model()[
                                self.tables@[i as int].name@
                            ]);
                        }
                        return false;
                    }
                },
            }
            i += 1;
        }
        proof {
            assert forall|k: Seq<char>| #[trigger] self.model().contains_key(k) implies
            other.model().contains_key(k) && self.model()[k] == other.model()[k] by {
                lemma_tables_contains(self.tables@, k);
                let q = choose|q: int|
                    0 <= q < self.tables@.len() && (#[trigger] self.tables@[q]).name@ == k;
                assert(self.model().contains_key(self.tables@[q].name@));
            }
            crate::assoc::lemma_map_subset_eq(self.model(), other.model());
        }
        true
    }

    /// The named tables, in creation order.
    pub fn iter_tables(&self) -> (r: &Vec<TableEntry>)
        ensures
            r == &self.tables,
    {
        &self.tables
    }

    /// The named tables, in creation order, for mutation in place.
    pub fn iter_tables_mut(&mut self) -> (r: &mut Vec<TableEntry>)
        ensures
            *r == old(self).tables,
            final(self).tables == *final(r),
            final(self).peer == old(self).peer,
            final(self).oplog == old(self).oplog,
    {
        &mut self.tables
    }

    /// The live value at (table, row, col), if any.
    pub fn get_cell(&self, table_str: &str, row: &str, col: &str) -> (r: Option<&Value>)
        requires
            self.wf(),
        ensures
            ({
                let cells = row_of(table_of(self.model(), table_str@), row@).cells;
                match r {
                    Some(v) => cells.contains_key(col@) && cells[col@].value == v@
                        && v@.is_live(),
                    None => !(cells.contains_key(col@) && cells[col@].value.is_live()),
                }
            }),
    {
        let tkey: String = table_str.to_owned();
        proof {
            lemma_tables_contains(self.tables@, table_str@);
        }
        match find_table(&self.tables, &tkey) {
            Some(i) => {
                proof {
                    lemma_assoc_index(self.tables@, table_key(), table_val(), i as int);
                }
                self.tables[i].table.get_cell(row, col)
            },
            None => None,
        }
    }

    /// Every cell of (table, row), tombstones included: the raw walk the
    /// exporter reads values from.
    pub(crate) fn raw_row(&self, table_str: &String, row: &String) -> (r: Vec<RowValue>)
        requires
            self.wf(),
        ensures
            ({
                let cells = row_of(table_of(self.model(), table_str@), row@).cells;
                &&& forall|k: int|
                    0 <= k < r@.len() ==> cells.contains_key((#[trigger] r@[k]).col_name@)
                        && cells[r@[k].col_name@] == (crate::table::CellModel {
                        value: r@[k].value@,
                        id: r@[k].id,
                    })
                &&& forall|c: Seq<char>|
                    #[trigger] cells.contains_key(c) ==> (exists|k: int|
                        0 <= k < r@.len() && (#[trigger] r@[k]).col_name@ == c)
                &&& forall|k: int, l: int|
                    0 <= k < l < r@.len() ==> (#[trigger] r@[k]).col_name@ != (
                    #[trigger] r@[l]).col_name@
            }),
    {
        proof {
            lemma_tables_contains(self.tables@, table_str@);
        }
        match find_table(&self.tables, table_str) {
            Some(i) => {
                proof {
                    lemma_assoc_index(self.tables@, table_key(), table_val(), i as int);
                }
                self.tables[i].table.iter_row(row.as_str())
            },
            None => Vec::new(),
        }
    }

    /// The live cells of (table, row), in storage order. Tombstoned
    /// cells read as absent; exporters walk the table itself.
    pub fn iter_row(&self, table_str: &str, row: &str) -> (r: Vec<RowValue>)
        requires
            self.wf(),
        ensures
            ({
                let cells = row_of(table_of(self.model(), table_str@), row@).cells;
                &&& forall|k: int|
                    0 <= k < r@.len() ==> cells.contains_key((#[trigger] r@[k]).col_name@)
                        && cells[r@[k].col_name@] == (crate::table::CellModel {
                        value: r@[k].value@,
                        id: r@[k].id,
                    }) && r@[k].value@.is_live()
                &&& forall|c: Seq<char>|
                    #[trigger] cells.contains_key(c) && cells[c].value.is_live() ==> (exists|
                        k: int,
                    | 0 <= k < r@.len() && (#[trigger] r@[k]).col_name@ == c)
            }),
    {
        let tkey: String = table_str.to_owned();
        proof {
            lemma_tables_contains(self.tables@, table_str@);
        }
        let all: Vec<RowValue> = match find_table(&self.tables, &tkey) {
            Some(i) => {
                proof {
                    lemma_assoc_index(self.tables@, table_key(), table_val(), i as int);
                }
                self.tables[i].table.iter_row(row)
            },
            None => Vec::new(),
        };
        let ghost cells = row_of(table_of(self.model(), table_str@), row@).cells;
        let mut out: Vec<RowValue> = Vec::new();
        let mut j: usize = 0;
        while j < all.len()
            invariant
                j <= all@.len(),
                forall|k: int|
                    0 <= k < all@.len() ==> cells.contains_key((#[trigger] all@[k]).col_name@)
                        && cells[all@[k].col_name@] == (crate::table::CellModel {
                        value: all@[k].value@,
                        id: all@[k].id,
                    }),
                forall|c: Seq<char>|
                    #[trigger] cells.contains_key(c) ==> (exists|k: int|
                        0 <= k < all@.len() && (#[trigger] all@[k]).col_name@ == c),
                forall|k: int|
                    0 <= k < out@.len() ==> cells.contains_key((#[trigger] out@[k]).col_name@)
                        && cells[out@[k].col_name@] == (crate::table::CellModel {
                        value: out@[k].value@,
                        id: out@[k].id,
                    }) && out@[k].value@.is_live(),
                forall|q: int|
                    0 <= q < j && (#[trigger] all@[q]).value@.is_live() ==> (exists|k: int|
                        0 <= k < out@.len() && (#[trigger] out@[k]).col_name@
                            == all@[q].col_name@),
            decreases all@.len() - j,
        {
            let ghost out0 = out@;
            if all[j].value.is_live() {
                let c = &all[j];
                out.push(RowValue { col_name: c.col_name.clone(), id: c.id, value: c.value.dup() });
                proof {
                    assert(out@[out0.len() as int].col_name@ == all@[j as int].col_name@);
                }
            }
            proof {
                assert forall|q: int|
                    0 <= q < j + 1 && (#[trigger] all@[q]).value@.is_live() implies (exists|
                        k: int,
                    | 0 <= k < out@.len() && (#[trigger] out@[k]).col_name@ == all@[q].col_name@) by {
                    if q < j {
                        let k = choose|k: int|
                            0 <= k < out0.len() && (#[trigger] out0[k]).col_name@
                                == all@[q].col_name@;
                        assert(out@[k].col_name@ == all@[q].col_name@);
                    }
                }
            }
            j += 1;
        }
        proof {
            assert forall|c: Seq<char>|
                #[trigger] cells.contains_key(c) && cells[c].value.is_live() implies (exists|
                    k: int,
                | 0 <= k < out@.len() && (#[trigger] out@[k]).col_name@ == c) by {
                let q = choose|q: int|
                    0 <= q < all@.len() && (#[trigger] all@[q]).col_name@ == c;
                assert(all@[q].value@.is_live());
            }
        }
        out
    }
}

} // verus!
