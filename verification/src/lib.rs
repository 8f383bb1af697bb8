//! An in-memory, last-write-wins, conflict-free replicated table store.
//!
//! Each replica holds named tables; a table is a sparse two-dimensional map
//! from (row name, column name) to scalar cells. Replicas mutate
//! independently and exchange deltas or snapshots; replicas that have seen
//! the same operations converge to equal state.

use vstd::prelude::*;

verus! {

/// A hybrid logical clock identifier: lamport counter plus peer id.
/// Total order: lamport first, peer as tiebreaker.
#[derive(Clone, Copy, PartialEq, Eq, Structural, Hash, Debug)]
pub struct OpId {
    pub lamport: u32,
    pub peer: u64,
}

impl OpId {
    pub open spec fn spec_lt(self, other: OpId) -> bool {
        self.lamport < other.lamport || (self.lamport == other.lamport && self.peer < other.peer)
    }

    pub open spec fn spec_le(self, other: OpId) -> bool {
        self.spec_lt(other) || self == other
    }

    pub fn new(lamport: u32, peer: u64) -> (r: Self)
        ensures
            r.lamport == lamport,
            r.peer == peer,
    {
        OpId { lamport, peer }
    }

    /// Strict comparison in the LWW precedence order.
    pub fn lt(&self, other: &OpId) -> (r: bool)
        ensures
            r == self.spec_lt(*other),
    {
        self.lamport < other.lamport || (self.lamport == other.lamport && self.peer < other.peer)
    }

    /// Non-strict comparison in the LWW precedence order.
    pub fn le(&self, other: &OpId) -> (r: bool)
        ensures
            r == self.spec_le(*other),
    {
        self.lamport < other.lamport || (self.lamport == other.lamport && self.peer <= other.peer)
    }
}

} // verus!

mod assoc;
mod clock;
mod db;
mod encode;
mod laws;
mod oplog;
mod peer_pool;
mod pool;
mod table;
mod value;
mod varint;
pub use value::{Value, ValueModel};
pub use assoc::{assoc_map, keys_unique};
pub use clock::{clock_flat, clock_includes, clock_of, clock_of_flat, lemma_clock_flat_round_trip,
    ClockEntry, VectorClock};
pub use oplog::{lemma_log_keys_bounded, log_record, LogEntry, LogOp, Op, OpLog, OpModel,
    PeerLog};
pub use varint::{parse_varint, unzigzag, varint, zigzag};
pub use encode::bool_rle::{bool_rle_bytes, bool_runs, parse_bools, BoolRleDecoder,
    BoolRleEncoder};
pub use encode::delta_rle::{delta_rle_bytes, delta_runs, deltas_of, parse_deltas,
    DeltaRleDecoder, DeltaRleEncoder};
pub use peer_pool::{peer_of, PeerIdx, PeerPool};
pub use pool::{first_index, Register, StrPool};
pub use table::{Cell, CellModel, Column, LwwTable, Row, RowModel, RowValue, TableModel};
pub use db::{empty_table_model, table_of, tables_model, LwwDb, TableEntry};
pub use laws::{lemma_column_gc, lemma_disjoint_imports_commute, lemma_import_idempotent,
    lemma_lww_precedence, lemma_tombstone_dominance, oplog_covers, record_absorbed,
    tables_disjoint};
pub use encode::delta::{apply_record, apply_records, parse_delta_blob, record_valid,
    records_distinct, DecodeError, Record, RecordModel};
pub use encode::table_snapshot::parse_snapshot;
pub use encode::compress::{zstd_decode, zstd_frame};
