//! The delta blob: the columnar wire form of "operations a peer has not
//! seen", and its import and export on the database.
//!
//! A blob holds a string pool, a peer pool, five run-length integer
//! streams (table, row, column, peer index, lamport) and a value list,
//! one entry of each per record; the whole is compressed. Row and column
//! indices are shifted by one so that zero means "none": a record with no
//! row and no column is a table deletion, one with a row only is a row
//! deletion, and one with both is a cell write.

use vstd::prelude::*;

use crate::assoc::lemma_assoc_update;
use crate::db::{lemma_bounded_mono, table_ids_bounded, table_key, table_of, table_val, LwwDb};
use crate::encode::compress::{zstd_decode, zstd_frame};
use crate::encode::delta_rle::{parse_deltas, run_end, run_values, DeltaRleEncoder};
use crate::clock::{clock_includes, clock_of, VectorClock};
use crate::oplog::{log_record, Op, OpModel};
use crate::table::{row_of, CellModel};
use crate::table::{apply_delete_row, apply_delete_table, apply_set, delete_row_allowed,
    guard_blocks, set_allowed, TableModel};
use crate::encode::wire::{block_bytes, parse_block, parse_str_list, parse_u64_list,
    parse_value_list, push_block, push_str_list, push_u64_list, push_value_list, read_block,
    read_str_list, read_u64_list, read_value_list, strs_bytes, u64s_bytes, val_views_of,
    vals_bytes, views_of};
use crate::pool::{Register, StrPool};
use crate::varint::{lemma_varint_round_trip, varint};
use vstd::utf8::encode_utf8;
use crate::value::{Value, ValueModel};
use crate::varint::{from_zigzag, lemma_parse_varint_bounds, read_varint};
use crate::OpId;

verus! {

/// One decoded delta record.
pub struct Record {
    pub table: String,
    pub row: Option<String>,
    pub col: Option<String>,
    pub value: Value,
    pub id: OpId,
}

/// Model of a record.
pub struct RecordModel {
    pub table: Seq<char>,
    pub row: Option<Seq<char>>,
    pub col: Option<Seq<char>>,
    pub value: ValueModel,
    pub id: OpId,
}

impl View for Record {
    type V = RecordModel;

    open spec fn view(&self) -> RecordModel {
        RecordModel {
            table: self.table@,
            row: match self.row {
                Some(ref r) => Some(r@),
                None => None,
            },
            col: match self.col {
                Some(ref c) => Some(c@),
                None => None,
            },
            value: self.value@,
            id: self.id,
        }
    }
}

/// The two 64-bit casts invert each other, so any unsigned index rides
/// the signed integer streams unchanged.
pub proof fn lemma_wrap_u64_i64(x: u64)
    ensures
        ((x as i64) as u64) == x,
{
    assert(((x as i64) as u64) == x) by (bit_vector);
}

/// A signed stream value is zero exactly when its unsigned view is.
pub proof fn lemma_wrap_zero(y: i64)
    ensures
        ((y as u64) == 0) <==> (y == 0),
{
    assert(((y as u64) == 0) <==> (y == 0)) by (bit_vector);
}

/// The shapes a record may take: a cell write, a row deletion, or a
/// table deletion; deletions carry the tombstone value.
pub open spec fn record_valid(r: RecordModel) -> bool {
    &&& r.id.lamport >= 1
    &&& match (r.row, r.col) {
        (Some(_), Some(_)) => true,
        (Some(_), None) => r.value == ValueModel::Deleted,
        (None, None) => r.value == ValueModel::Deleted,
        (None, Some(_)) => false,
    }
}

/// Read one whole run-length integer stream.
pub(crate) fn delta_decode_all(bytes: &[u8]) -> (r: Option<Vec<i64>>)
    ensures
        match parse_deltas(bytes@, 0, 0) {
            Some(v) => r matches Some(x) && x@ == v,
            None => r is None,
        },
{
    let mut out: Vec<i64> = Vec::new();
    let mut pos: usize = 0;
    let mut prev: i64 = 0;
    proof {
        match parse_deltas(bytes@, 0, 0) {
            Some(rest) => {
                assert(out@ + rest =~= rest);
            },
            None => {},
        }
    }
    while pos < bytes.len()
        invariant
            pos <= bytes@.len(),
            match parse_deltas(bytes@, pos as int, prev) {
                Some(rest) => parse_deltas(bytes@, 0, 0) == Some(out@ + rest),
                None => parse_deltas(bytes@, 0, 0) is None,
            },
        decreases bytes@.len() - pos,
    {
        let ghost pre_pos = pos as int;
        proof {
            lemma_parse_varint_bounds(bytes@, pre_pos);
        }
        let cnt = match read_varint(bytes, &mut pos) {
            None => {
                return None;
            },
            Some(c) => c,
        };
        proof {
            lemma_parse_varint_bounds(bytes@, pos as int);
        }
        let dz = match read_varint(bytes, &mut pos) {
            None => {
                return None;
            },
            Some(d) => d,
        };
        let delta = from_zigzag(dz);
        let ghost run_start = prev;
        let ghost out_base = out@;
        let mut k: u64 = 0;
        while k < cnt
            invariant
                k <= cnt,
                out@ == out_base + run_values(run_start, delta, k as nat),
                prev == run_end(run_start, delta, k as nat),
            decreases cnt - k,
        {
            proof {
                crate::encode::delta_rle::lemma_run_snoc(run_start, delta, k as nat);
            }
            prev = prev.wrapping_add(delta);
            out.push(prev);
            k = k + 1;
        }
        proof {
            match parse_deltas(bytes@, pos as int, prev) {
                Some(rest) => {
                    assert(out_base + (run_values(run_start, delta, cnt as nat) + rest) =~= out@
                        + rest);
                },
                None => {},
            }
        }
    }
    proof {
        assert(parse_deltas(bytes@, pos as int, prev) == Some(Seq::<i64>::empty()));
        assert(out@ + Seq::<i64>::empty() =~= out@);
    }
    Some(out)
}

/// Whether one blob entry is well formed: indices in range, lamport in
/// range and positive, and the shape one of the three record forms.
pub open spec fn entry_ok(
    strs: Seq<Seq<char>>,
    peers: Seq<u64>,
    t: i64,
    r: i64,
    c: i64,
    v: ValueModel,
    p: i64,
    l: i64,
) -> bool {
    &&& (t as u64) < strs.len()
    &&& (r as u64) <= strs.len()
    &&& (c as u64) <= strs.len()
    &&& (p as u64) < peers.len()
    &&& 1 <= (l as u64) <= u32::MAX
    &&& (r == 0 ==> c == 0)
    &&& ((r == 0 || c == 0) ==> v == ValueModel::Deleted)
}

/// The record one blob entry stands for.
pub open spec fn entry_record(
    strs: Seq<Seq<char>>,
    peers: Seq<u64>,
    t: i64,
    r: i64,
    c: i64,
    v: ValueModel,
    p: i64,
    l: i64,
) -> RecordModel {
    RecordModel {
        table: strs[(t as u64) as int],
        row: if r == 0 {
            None
        } else {
            Some(strs[(r as u64) - 1])
        },
        col: if c == 0 {
            None
        } else {
            Some(strs[(c as u64) - 1])
        },
        value: v,
        id: OpId { lamport: (l as u64) as u32, peer: peers[(p as u64) as int] },
    }
}

/// Put the pools and streams together into records.
pub open spec fn combine(
    strs: Seq<Seq<char>>,
    peers: Seq<u64>,
    ts: Seq<i64>,
    rs: Seq<i64>,
    cs: Seq<i64>,
    vs: Seq<ValueModel>,
    ps: Seq<i64>,
    ls: Seq<i64>,
) -> Option<Seq<RecordModel>> {
    if rs.len() == ts.len() && cs.len() == ts.len() && vs.len() == ts.len() && ps.len() == ts.len()
        && ls.len() == ts.len() && (forall|k: int|
        0 <= k < ts.len() ==> entry_ok(strs, peers, ts[k], rs[k], cs[k], #[trigger] vs[k], ps[k], ls[k])) {
        Some(
            Seq::new(
                ts.len(),
                |k: int| entry_record(strs, peers, ts[k], rs[k], cs[k], vs[k], ps[k], ls[k]),
            ),
        )
    } else {
        None
    }
}

/// Parse a decompressed delta blob into its records.
pub open spec fn parse_delta_blob(b: Seq<u8>) -> Option<Seq<RecordModel>> {
    match parse_str_list(b, 0) {
        None => None,
        Some((strs, i1)) => match parse_u64_list(b, i1) {
            None => None,
            Some((peers, i2)) => match parse_block(b, i2) {
                None => None,
                Some((tb, i3)) => match parse_block(b, i3) {
                    None => None,
                    Some((rb, i4)) => match parse_block(b, i4) {
                        None => None,
                        Some((cb, i5)) => match parse_value_list(b, i5) {
                            None => None,
                            Some((vs, i6)) => match parse_block(b, i6) {
                                None => None,
                                Some((pb, i7)) => match parse_block(b, i7) {
                                    None => None,
                                    Some((lb, i8)) => if i8 != b.len() {
                                        None
                                    } else {
                                        match parse_deltas(tb, 0, 0) {
                                            None => None,
                                            Some(ts) => match parse_deltas(rb, 0, 0) {
                                                None => None,
                                                Some(rs) => match parse_deltas(cb, 0, 0) {
                                                    None => None,
                                                    Some(cs) => match parse_deltas(pb, 0, 0) {
                                                        None => None,
                                                        Some(ps) => match parse_deltas(lb, 0, 0) {
                                                            None => None,
                                                            Some(ls) => combine(
                                                                strs,
                                                                peers,
                                                                ts,
                                                                rs,
                                                                cs,
                                                                vs,
                                                                ps,
                                                                ls,
                                                            ),
                                                        },
                                                    },
                                                },
                                            },
                                        }
                                    },
                                },
                            },
                        },
                    },
                },
            },
        },
    }
}

/// The record models a record vector holds.
pub open spec fn rec_views_of(l: Seq<Record>) -> Seq<RecordModel> {
    l.map_values(|r: Record| r@)
}

/// Decode a decompressed delta blob.
pub(crate) fn read_delta_blob(b: &[u8]) -> (r: Option<Vec<Record>>)
    ensures
        match parse_delta_blob(b@) {
            Some(rs) => r matches Some(v) && rec_views_of(v@) == rs,
            None => r is None,
        },
{
    let mut pos: usize = 0;
    let strs = match read_str_list(b, &mut pos) {
        None => {
            return None;
        },
        Some(v) => v,
    };
    let peers = match read_u64_list(b, &mut pos) {
        None => {
            return None;
        },
        Some(v) => v,
    };
    let tb = match read_block(b, &mut pos) {
        None => {
            return None;
        },
        Some(v) => v,
    };
    let rb = match read_block(b, &mut pos) {
        None => {
            return None;
        },
        Some(v) => v,
    };
    let cb = match read_block(b, &mut pos) {
        None => {
            return None;
        },
        Some(v) => v,
    };
    let vals = match read_value_list(b, &mut pos) {
        None => {
            return None;
        },
        Some(v) => v,
    };
    let pb = match read_block(b, &mut pos) {
        None => {
            return None;
        },
        Some(v) => v,
    };
    let lb = match read_block(b, &mut pos) {
        None => {
            return None;
        },
        Some(v) => v,
    };
    if pos != b.len() {
        return None;
    }
    let ts = match delta_decode_all(tb.as_slice()) {
        None => {
            return None;
        },
        Some(v) => v,
    };
    let rs = match delta_decode_all(rb.as_slice()) {
        None => {
            return None;
        },
        Some(v) => v,
    };
    let cs = match delta_decode_all(cb.as_slice()) {
        None => {
            return None;
        },
        Some(v) => v,
    };
    let ps = match delta_decode_all(pb.as_slice()) {
        None => {
            return None;
        },
        Some(v) => v,
    };
    let ls = match delta_decode_all(lb.as_slice()) {
        None => {
            return None;
        },
        Some(v) => v,
    };
    let out = match combine_records(&strs, &peers, &ts, &rs, &cs, &vals, &ps, &ls) {
        None => {
            return None;
        },
        Some(v) => v,
    };
    Some(out)
}

/// Check and assemble the decoded pools and streams into records.
#[verifier::rlimit(30)]
fn combine_records(
    strs: &Vec<String>,
    peers: &Vec<u64>,
    ts: &Vec<i64>,
    rs: &Vec<i64>,
    cs: &Vec<i64>,
    vals: &Vec<Value>,
    ps: &Vec<i64>,
    ls: &Vec<i64>,
) -> (r: Option<Vec<Record>>)
    ensures
        match combine(views_of(strs@), peers@, ts@, rs@, cs@, val_views_of(vals@), ps@, ls@) {
            Some(sr) => r matches Some(v) && rec_views_of(v@) == sr,
            None => r is None,
        },
{
    let count = ts.len();
    if rs.len() != count || cs.len() != count || vals.len() != count || ps.len() != count
        || ls.len() != count {
        return None;
    }
    let mut out: Vec<Record> = Vec::new();
    let mut k: usize = 0;
    while k < count
        invariant
            k <= count,
            count == ts@.len(),
            rs@.len() == count && cs@.len() == count && vals@.len() == count && ps@.len() == count
                && ls@.len() == count,
            out@.len() == k,
            forall|q: int|
                0 <= q < k ==> entry_ok(
                    views_of(strs@),
                    peers@,
                    ts@[q],
                    rs@[q],
                    cs@[q],
                    #[trigger] val_views_of(vals@)[q],
                    ps@[q],
                    ls@[q],
                ),
            forall|q: int|
                0 <= q < k ==> (#[trigger] out@[q])@ == entry_record(
                    views_of(strs@),
                    peers@,
                    ts@[q],
                    rs@[q],
                    cs@[q],
                    val_views_of(vals@)[q],
                    ps@[q],
                    ls@[q],
                ),
        decreases count - k,
    {
        let t = ts[k];
        let rr = rs[k];
        let c = cs[k];
        let p = ps[k];
        let l = ls[k];
        if (t as u64) >= strs.len() as u64 {
            return None;
        }
        if (rr as u64) > strs.len() as u64 {
            return None;
        }
        if (c as u64) > strs.len() as u64 {
            return None;
        }
        if (p as u64) >= peers.len() as u64 {
            return None;
        }
        if (l as u64) < 1 || (l as u64) > u32::MAX as u64 {
            return None;
        }
        if rr == 0 && c != 0 {
            return None;
        }
        let value = vals[k].dup();
        if (rr == 0 || c == 0) && value.is_live() {
            return None;
        }
        proof {
            lemma_wrap_zero(rr);
            lemma_wrap_zero(c);
        }
        let rec = Record {
            table: strs[(t as u64) as usize].clone(),
            row: if rr == 0 {
                None
            } else {
                Some(strs[((rr as u64) - 1) as usize].clone())
            },
            col: if c == 0 {
                None
            } else {
                Some(strs[((c as u64) - 1) as usize].clone())
            },
            value,
            id: OpId { lamport: (l as u64) as u32, peer: peers[(p as u64) as usize] },
        };
        proof {
            assert(entry_ok(
                views_of(strs@),
                peers@,
                ts@[k as int],
                rs@[k as int],
                cs@[k as int],
                val_views_of(vals@)[k as int],
                ps@[k as int],
                ls@[k as int],
            ));
            assert(rec@ == entry_record(
                views_of(strs@),
                peers@,
                ts@[k as int],
                rs@[k as int],
                cs@[k as int],
                val_views_of(vals@)[k as int],
                ps@[k as int],
                ls@[k as int],
            ));
        }
        out.push(rec);
        k += 1;
    }
    proof {
        assert(combine(
            views_of(strs@),
            peers@,
            ts@,
            rs@,
            cs@,
            val_views_of(vals@),
            ps@,
            ls@,
        ) matches Some(sr) && rec_views_of(out@) =~= sr);
    }
    Some(out)
}

/// Whether a record changes the database it is applied to.
pub open spec fn record_changes(m: Map<Seq<char>, TableModel>, r: RecordModel) -> bool {
    match (r.row, r.col) {
        (Some(row), Some(col)) => set_allowed(table_of(m, r.table), row, col, r.id),
        (Some(row), None) => delete_row_allowed(table_of(m, r.table), row, r.id),
        (None, _) => !guard_blocks(table_of(m, r.table).removed, r.id),
    }
}

/// The tables after applying one record; the touched table exists after,
/// even when the record was dominated.
pub open spec fn apply_record(m: Map<Seq<char>, TableModel>, r: RecordModel) -> Map<
    Seq<char>,
    TableModel,
> {
    match (r.row, r.col) {
        (Some(row), Some(col)) => m.insert(
            r.table,
            apply_set(table_of(m, r.table), row, col, r.value, r.id),
        ),
        (Some(row), None) => m.insert(r.table, apply_delete_row(table_of(m, r.table), row, r.id)),
        (None, _) => m.insert(r.table, apply_delete_table(table_of(m, r.table), r.id)),
    }
}

/// The log entry a record leaves when it changes the database.
pub open spec fn record_log_op(r: RecordModel) -> OpModel {
    match (r.row, r.col) {
        (Some(row), Some(_)) => OpModel::Update { table: r.table, row },
        (Some(row), None) => OpModel::DeleteRow { table: r.table, row },
        (None, _) => OpModel::DeleteTable { table: r.table },
    }
}

/// A record collides with the log: its id already names a different
/// operation. One id names one operation, so a colliding record is
/// corrupt and is dropped whole.
pub open spec fn log_conflicts(log: Map<u64, Map<u32, OpModel>>, r: RecordModel) -> bool {
    log.contains_key(r.id.peer) && log[r.id.peer].contains_key(r.id.lamport)
        && log[r.id.peer][r.id.lamport] != record_log_op(r)
}

/// The tables after one guarded application step.
pub open spec fn step_tables(
    m: Map<Seq<char>, TableModel>,
    log: Map<u64, Map<u32, OpModel>>,
    r: RecordModel,
) -> Map<Seq<char>, TableModel> {
    if log_conflicts(log, r) {
        m
    } else {
        apply_record(m, r)
    }
}

/// The log after one guarded application step.
pub open spec fn step_log(
    m: Map<Seq<char>, TableModel>,
    log: Map<u64, Map<u32, OpModel>>,
    r: RecordModel,
) -> Map<u64, Map<u32, OpModel>> {
    if !log_conflicts(log, r) && record_changes(m, r) {
        log_record(log, r.id, record_log_op(r))
    } else {
        log
    }
}

/// Tables and log after applying records in order.
pub open spec fn apply_records(
    m: Map<Seq<char>, TableModel>,
    log: Map<u64, Map<u32, OpModel>>,
    rs: Seq<RecordModel>,
) -> (Map<Seq<char>, TableModel>, Map<u64, Map<u32, OpModel>>)
    decreases rs.len(),
{
    if rs.len() == 0 {
        (m, log)
    } else {
        let r = rs.first();
        apply_records(step_tables(m, log, r), step_log(m, log, r), rs.drop_first())
    }
}

/// Whether a logged operation equals the one a record would log.
fn op_eq_record_op(op: &Op, rec: &Record) -> (r: bool)
    ensures
        r == (op@ == record_log_op(rec@)),
{
    match op {
        Op::Update { table, row } => match (&rec.row, &rec.col) {
            (Some(rr), Some(_)) => *table == rec.table && *row == *rr,
            _ => false,
        },
        Op::DeleteRow { table, row } => match (&rec.row, &rec.col) {
            (Some(rr), None) => *table == rec.table && *row == *rr,
            _ => false,
        },
        Op::DeleteTable { table } => match (&rec.row, &rec.col) {
            (None, _) => *table == rec.table,
            _ => false,
        },
    }
}

/// Every record a blob parses to is well shaped.
pub proof fn lemma_parsed_records_valid(b: Seq<u8>)
    ensures
        parse_delta_blob(b) matches Some(rs) ==> forall|k: int|
            0 <= k < rs.len() ==> record_valid(#[trigger] rs[k]),
{
}

/// Why an import or a rebuild failed.
#[derive(Clone, Copy, PartialEq, Eq, Structural, Debug)]
pub enum DecodeError {
    /// The bytes are no well-formed compressor frame.
    Compression,
    /// The decompressed payload is no well-formed record blob.
    Malformed,
    /// The platform random source failed while drawing the fresh
    /// replica's peer id.
    Entropy,
}

/// Decompress and decode a delta blob into records, touching nothing.
/// Total in the bytes: the result is fixed by what they decompress and
/// parse to.
fn decode_updates(bytes: &[u8]) -> (r: Result<Vec<Record>, DecodeError>)
    ensures
        match zstd_decode(bytes@) {
            None => r matches Err(e) && e == DecodeError::Compression,
            Some(bv) => match parse_delta_blob(bv) {
                None => r matches Err(e) && e == DecodeError::Malformed,
                Some(rs) => r matches Ok(v) && rec_views_of(v@) == rs,
            },
        },
        r matches Ok(v) ==> forall|k: int|
            0 <= k < v@.len() ==> record_valid((#[trigger] v@[k])@),
{
    let decompressed = match crate::encode::compress::zstd_decompress(bytes) {
        None => {
            return Err(DecodeError::Compression);
        },
        Some(v) => v,
    };
    let records = match read_delta_blob(decompressed.as_slice()) {
        None => {
            return Err(DecodeError::Malformed);
        },
        Some(v) => v,
    };
    proof {
        lemma_parsed_records_valid(decompressed@);
        if parse_delta_blob(decompressed@) matches Some(rs) {
            assert forall|k: int| 0 <= k < records@.len() implies record_valid(
                (#[trigger] records@[k])@,
            ) by {
                assert(rec_views_of(records@)[k] == records@[k]@);
            }
        }
    }
    Ok(records)
}

impl LwwDb {
    /// Apply one remote record through the regular table path, logging it
    /// when it changed something. Equal or dominated ids are no-ops, and a
    /// record whose id already names a different logged operation is
    /// corrupt and dropped, so replaying a record never changes the
    /// outcome and one id always names one operation.
    pub fn apply_op(&mut self, rec: Record)
        requires
            old(self).wf(),
            record_valid(rec@),
        ensures
            final(self).wf(),
            final(self).model() == step_tables(old(self).model(), old(self).oplog@, rec@),
            final(self).oplog@ == step_log(old(self).model(), old(self).oplog@, rec@),
            final(self).peer == old(self).peer,
    {
        let conflict = match self.oplog.op_at(rec.id) {
            None => false,
            Some(op) => !op_eq_record_op(op, &rec),
        };
        if conflict {
            return ;
        }
        let Record { table, row, col, value, id } = rec;
        let i = self.ensure_table(&table);
        let ghost mid = *self;
        let ghost m0 = old(self).model();
        match row {
            Some(rowk) => {
                match col {
                    Some(colk) => {
                        let entry = &mut self.tables[i];
                        let changed = entry.table.set(key_str(&rowk), key_str(&colk), value, id);
                        proof {
                            assert(self.tables@ =~= mid.tables@.update(
                                i as int,
                                self.tables@[i as int],
                            ));
                            lemma_assoc_update(
                                mid.tables@,
                                table_key(),
                                table_val(),
                                i as int,
                                self.tables@[i as int],
                            );
                            assert(self.model() =~= apply_record(m0, rec@));
                        }
                        if changed {
                            self.oplog.record_update(id, table, rowk);
                            proof {
                                self.bound_after(mid, i, id);
                            }
                        } else {
                            proof {
                                self.bound_same(mid, i);
                            }
                        }
                    },
                    None => {
                        let entry = &mut self.tables[i];
                        let changed = entry.table.delete_row(key_str(&rowk), id);
                        proof {
                            assert(self.tables@ =~= mid.tables@.update(
                                i as int,
                                self.tables@[i as int],
                            ));
                            lemma_assoc_update(
                                mid.tables@,
                                table_key(),
                                table_val(),
                                i as int,
                                self.tables@[i as int],
                            );
                            assert(self.model() =~= apply_record(m0, rec@));
                        }
                        if changed {
                            self.oplog.record_delete_row(id, table, rowk);
                            proof {
                                self.bound_after(mid, i, id);
                            }
                        } else {
                            proof {
                                self.bound_same(mid, i);
                            }
                        }
                    },
                }
            },
            None => {
                let entry = &mut self.tables[i];
                let changed = entry.table.delete_table(id);
                proof {
                    assert(self.tables@ =~= mid.tables@.update(i as int, self.tables@[i as int]));
                    lemma_assoc_update(
                        mid.tables@,
                        table_key(),
                        table_val(),
                        i as int,
                        self.tables@[i as int],
                    );
                    assert(self.model() =~= apply_record(m0, rec@));
                }
                if changed {
                    self.oplog.record_delete_table(id, table);
                    proof {
                        self.bound_after(mid, i, id);
                    }
                } else {
                    proof {
                        self.bound_same(mid, i);
                    }
                }
            },
        }
    }

    /// After recording `id`, every table id is still covered.
    proof fn bound_after(self, mid: LwwDb, i: usize, id: OpId)
        requires
            0 <= i < mid.tables@.len(),
            self.tables@ == mid.tables@.update(i as int, self.tables@[i as int]),
            self.tables@.len() == mid.tables@.len(),
            forall|k: int|
                0 <= k < mid.tables@.len() ==> table_ids_bounded(
                    (#[trigger] mid.tables@[k]).table@,
                    mid.oplog.max_lamport,
                ),
            table_ids_bounded(self.tables@[i as int].table@, if mid.oplog.max_lamport >= id.lamport {
                mid.oplog.max_lamport
            } else {
                id.lamport
            }),
            self.oplog.max_lamport == (if mid.oplog.max_lamport >= id.lamport {
                mid.oplog.max_lamport
            } else {
                id.lamport
            }),
        ensures
            forall|k: int|
                0 <= k < self.tables@.len() ==> table_ids_bounded(
                    (#[trigger] self.tables@[k]).table@,
                    self.oplog.max_lamport,
                ),
    {
        assert forall|k: int| 0 <= k < self.tables@.len() implies table_ids_bounded(
            (#[trigger] self.tables@[k]).table@,
            self.oplog.max_lamport,
        ) by {
            if k != i as int {
                assert(self.tables@[k] == mid.tables@[k]);
                lemma_bounded_mono(
                    mid.tables@[k].table@,
                    mid.oplog.max_lamport,
                    self.oplog.max_lamport,
                );
            }
        }
    }

    /// With the log untouched, the old bound still covers everything.
    proof fn bound_same(self, mid: LwwDb, i: usize)
        requires
            0 <= i < mid.tables@.len(),
            self.tables@ == mid.tables@.update(i as int, self.tables@[i as int]),
            self.tables@.len() == mid.tables@.len(),
            forall|k: int|
                0 <= k < mid.tables@.len() ==> table_ids_bounded(
                    (#[trigger] mid.tables@[k]).table@,
                    mid.oplog.max_lamport,
                ),
            table_ids_bounded(self.tables@[i as int].table@, mid.oplog.max_lamport),
            self.oplog.max_lamport == mid.oplog.max_lamport,
        ensures
            forall|k: int|
                0 <= k < self.tables@.len() ==> table_ids_bounded(
                    (#[trigger] self.tables@[k]).table@,
                    self.oplog.max_lamport,
                ),
    {
        assert forall|k: int| 0 <= k < self.tables@.len() implies table_ids_bounded(
            (#[trigger] self.tables@[k]).table@,
            self.oplog.max_lamport,
        ) by {
            if k != i as int {
                assert(self.tables@[k] == mid.tables@[k]);
            }
        }
    }

    /// Merge a delta blob. Bytes that are no compressor frame, or whose
    /// payload is no well-formed record blob, fail with the matching error
    /// and change nothing; otherwise every decoded record is applied in
    /// order under the LWW rule, so importing a blob is replay-safe.
    #[verifier::rlimit(60)]
    pub fn import_updates(&mut self, bytes: &[u8]) -> (r: Result<(), DecodeError>)
        requires
            old(self).wf(),
        ensures
            final(self).wf(),
            final(self).peer == old(self).peer,
            match zstd_decode(bytes@) {
                None => r matches Err(e) && e == DecodeError::Compression,
                Some(bv) => match parse_delta_blob(bv) {
                    None => r matches Err(e) && e == DecodeError::Malformed,
                    Some(rs) => r is Ok && final(self).model() == apply_records(
                        old(self).model(),
                        old(self).oplog@,
                        rs,
                    ).0 && final(self).oplog@ == apply_records(
                        old(self).model(),
                        old(self).oplog@,
                        rs,
                    ).1,
                },
            },
            r is Err ==> final(self).model() == old(self).model() && final(self).oplog@ == old(
                self,
            ).oplog@,
    {
        let mut records = match decode_updates(bytes) {
            Err(e) => {
                return Err(e);
            },
            Ok(v) => v,
        };
        let ghost m0 = self.model();
        let ghost log0 = self.oplog@;
        let ghost rs0 = rec_views_of(records@);
        while records.len() > 0
            invariant
                self.wf(),
                self.peer == old(self).peer,
                forall|k: int|
                    0 <= k < records@.len() ==> record_valid((#[trigger] records@[k])@),
                apply_records(m0, log0, rs0) == apply_records(
                    self.model(),
                    self.oplog@,
                    rec_views_of(records@),
                ),
            decreases records@.len(),
        {
            let ghost pre_records = records@;
            let rec = records.remove(0);
            proof {
                assert(rec_views_of(pre_records).first() == rec@);
                assert(rec_views_of(records@) =~= rec_views_of(pre_records).drop_first());
            }
            self.apply_op(rec);
        }
        proof {
            assert(rec_views_of(records@) =~= Seq::<RecordModel>::empty());
        }
        Ok(())
    }

    /// Export every operation `from` has not seen, as a compressed delta
    /// blob. Each exported record is read off the current state or the
    /// log, no record is emitted twice, and every unseen operation is
    /// covered.
    pub fn export_updates(&self, from: &VectorClock) -> (out: Vec<u8>)
        requires
            self.wf(),
            from.wf(),
        ensures
            exists|rs: Seq<RecordModel>|
                {
                    &&& #[trigger] export_bundle(out@, rs)
                    &&& export_sound(rs, self.model(), self.oplog@, from@)
                    &&& export_complete(rs, self.model(), self.oplog@, from@)
                    &&& records_distinct(rs)
                },
    {
        let recs = self.collect_updates(from);
        proof {
            assert forall|k: int| 0 <= k < recs@.len() implies record_valid(
                (#[trigger] recs@[k])@,
            ) by {
                assert(rec_views_of(recs@)[k] == recs@[k]@);
            }
        }
        let out = encode_records(&recs);
        proof {
            let rs = rec_views_of(recs@);
            assert(export_bundle(out@, rs));
        }
        out
    }

    /// Walk the log from `from` and read off one record per deletion and
    /// per unseen cell of each touched row, rows deduplicated.
    fn collect_updates(&self, from: &VectorClock) -> (recs: Vec<Record>)
        requires
            self.wf(),
            from.wf(),
        ensures
            export_sound(rec_views_of(recs@), self.model(), self.oplog@, from@),
            export_complete(rec_views_of(recs@), self.model(), self.oplog@, from@),
            records_distinct(rec_views_of(recs@)),
    {
        let ops = self.oplog.iter_from(from);
        let ghost entries = crate::oplog::log_entries_from(self.oplog.logs@, from@);
        proof {
            crate::oplog::lemma_log_entries_from_sound(self.oplog.logs@, from@);
            crate::oplog::lemma_log_entries_from_distinct(self.oplog.logs@, from@);
        }
        let mut recs: Vec<Record> = Vec::new();
        let mut seen: Vec<DirtyRow> = Vec::new();
        let mut o: usize = 0;
        while o < ops.len()
            invariant
                o <= ops@.len(),
                self.wf(),
                from.wf(),
                ops@.len() == entries.len(),
                forall|k: int|
                    0 <= k < ops@.len() ==> (#[trigger] ops@[k]).id == entries[k].0
                        && ops@[k].op@ == entries[k].1,
                forall|k: int|
                    0 <= k < entries.len() ==> (#[trigger] entries[k]).0.lamport > clock_of(
                        from@,
                        entries[k].0.peer,
                    ) && log_has(self.oplog@, entries[k].0, entries[k].1),
                forall|k: int|
                    0 <= k < recs@.len() ==> record_sound(
                        (#[trigger] recs@[k])@,
                        self.model(),
                        self.oplog@,
                        from@,
                    ),
                forall|k: int|
                    0 <= k < seen@.len() ==> update_covered(
                        rec_views_of(recs@),
                        self.model(),
                        (#[trigger] seen@[k]).table@,
                        seen@[k].row@,
                        from@,
                    ),
                forall|k: int|
                    0 <= k < o ==> op_covered(
                        rec_views_of(recs@),
                        self.model(),
                        entries[k].1,
                        (#[trigger] entries[k]).0,
                        from@,
                    ),
                forall|i2: int, j2: int|
                    0 <= i2 < j2 < entries.len() ==> (#[trigger] entries[i2]).0 != (
                    #[trigger] entries[j2]).0,
                forall|i2: int, j2: int|
                    0 <= i2 < j2 < recs@.len() ==> (#[trigger] recs@[i2])@ != (
                    #[trigger] recs@[j2])@,
                forall|k: int|
                    0 <= k < recs@.len() && (#[trigger] recs@[k])@.col is None ==> exists|q: int|
                        0 <= q < o && recs@[k]@.id == (#[trigger] entries[q]).0,
                forall|k: int|
                    0 <= k < recs@.len() && (#[trigger] recs@[k])@.col is Some ==> exists|q: int|
                        0 <= q < seen@.len() && recs@[k]@.table == (#[trigger] seen@[q]).table@
                            && recs@[k]@.row == Some(seen@[q].row@),
            decreases ops@.len() - o,
        {
            let ghost pre_views = rec_views_of(recs@);
            let id = ops[o].id;
            match &ops[o].op {
                Op::DeleteTable { table } => {
                    recs.push(
                        Record {
                            table: table.clone(),
                            row: None,
                            col: None,
                            value: Value::Deleted,
                            id,
                        },
                    );
                    proof {
                        assert(rec_views_of(recs@) =~= pre_views.push(recs@.last()@));
                        assert(rec_views_of(recs@)[pre_views.len() as int]
                            == entry_of_delete_table(table@, id));
                        assert(rec_views_of(recs@).contains(entry_of_delete_table(table@, id)));
                        self.recheck_coverage(pre_views, rec_views_of(recs@), seen@, entries, o as int, from@);
                        assert(id == entries[o as int].0);
                        assert(rec_views_of(recs@).last() == entry_of_delete_table(table@, id));
                        lemma_delete_record_distinct(rec_views_of(recs@), entries, o as int);
                        reindex_records(recs@, pre_views, seen@, entries, o as int + 1);
                    }
                },
                Op::DeleteRow { table, row } => {
                    recs.push(
                        Record {
                            table: table.clone(),
                            row: Some(row.clone()),
                            col: None,
                            value: Value::Deleted,
                            id,
                        },
                    );
                    proof {
                        assert(rec_views_of(recs@) =~= pre_views.push(recs@.last()@));
                        assert(rec_views_of(recs@)[pre_views.len() as int] == entry_of_delete_row(
                            table@,
                            row@,
                            id,
                        ));
                        assert(rec_views_of(recs@).contains(
                            entry_of_delete_row(table@, row@, id),
                        ));
                        self.recheck_coverage(pre_views, rec_views_of(recs@), seen@, entries, o as int, from@);
                        assert(id == entries[o as int].0);
                        assert(rec_views_of(recs@).last() == entry_of_delete_row(table@, row@, id));
                        lemma_delete_record_distinct(rec_views_of(recs@), entries, o as int);
                        reindex_records(recs@, pre_views, seen@, entries, o as int + 1);
                    }
                },
                Op::Update { table, row } => {
                    if !seen_contains(&seen, table, row) {
                        let cells = self.raw_row(table, row);
                        let ghost rowcells = row_of(
                            table_of(self.model(), table@),
                            row@,
                        ).cells;
                        let mut j: usize = 0;
                        while j < cells.len()
                            invariant
                                j <= cells@.len(),
                                self.wf(),
                                from.wf(),
                                rowcells == row_of(table_of(self.model(), table@), row@).cells,
                                forall|k: int|
                                    0 <= k < cells@.len() ==> rowcells.contains_key(
                                        (#[trigger] cells@[k]).col_name@,
                                    ) && rowcells[cells@[k].col_name@] == (CellModel {
                                        value: cells@[k].value@,
                                        id: cells@[k].id,
                                    }),
                                forall|c: Seq<char>|
                                    #[trigger] rowcells.contains_key(c) ==> (exists|k: int|
                                        0 <= k < cells@.len() && (#[trigger] cells@[k]).col_name@
                                            == c),
                                forall|k: int|
                                    0 <= k < recs@.len() ==> record_sound(
                                        (#[trigger] recs@[k])@,
                                        self.model(),
                                        self.oplog@,
                                        from@,
                                    ),
                                forall|k: int|
                                    0 <= k < seen@.len() ==> update_covered(
                                        rec_views_of(recs@),
                                        self.model(),
                                        (#[trigger] seen@[k]).table@,
                                        seen@[k].row@,
                                        from@,
                                    ),
                                forall|k: int|
                                    0 <= k < o ==> op_covered(
                                        rec_views_of(recs@),
                                        self.model(),
                                        entries[k].1,
                                        (#[trigger] entries[k]).0,
                                        from@,
                                    ),
                                forall|k: int|
                                    0 <= k < j && !clock_includes(
                                        from@,
                                        (#[trigger] cells@[k]).id,
                                    ) ==> rec_views_of(recs@).contains(
                                        cell_record(
                                            table@,
                                            row@,
                                            cells@[k].col_name@,
                                            rowcells[cells@[k].col_name@],
                                        ),
                                    ),
                                forall|i2: int, j2: int|
                                    0 <= i2 < j2 < entries.len() ==> (#[trigger] entries[i2]).0
                                        != (#[trigger] entries[j2]).0,
                                forall|i2: int, j2: int|
                                    0 <= i2 < j2 < recs@.len() ==> (#[trigger] recs@[i2])@ != (
                                    #[trigger] recs@[j2])@,
                                forall|k: int|
                                    0 <= k < recs@.len() && (#[trigger] recs@[k])@.col is None
                                        ==> exists|q: int|
                                        0 <= q < o && recs@[k]@.id == (#[trigger] entries[q]).0,
                                forall|k: int|
                                    0 <= k < recs@.len() && (#[trigger] recs@[k])@.col is Some
                                        ==> (exists|q: int|
                                        0 <= q < seen@.len() && recs@[k]@.table == (
                                        #[trigger] seen@[q]).table@ && recs@[k]@.row == Some(
                                            seen@[q].row@,
                                        )) || (recs@[k]@.table == table@ && recs@[k]@.row == Some(
                                        row@,
                                    ) && exists|q: int|
                                        0 <= q < j && recs@[k]@.col == Some(
                                            (#[trigger] cells@[q]).col_name@,
                                        )),
                                !(exists|q: int|
                                    0 <= q < seen@.len() && (#[trigger] seen@[q]).table@ == table@
                                        && seen@[q].row@ == row@),
                                forall|k2: int, l2: int|
                                    0 <= k2 < l2 < cells@.len() ==> (
                                    #[trigger] cells@[k2]).col_name@ != (
                                    #[trigger] cells@[l2]).col_name@,
                            decreases cells@.len() - j,
                        {
                            let ghost pre2 = rec_views_of(recs@);
                            if !from.includes(cells[j].id) {
                                let cv = &cells[j];
                                recs.push(
                                    Record {
                                        table: table.clone(),
                                        row: Some(row.clone()),
                                        col: Some(cv.col_name.clone()),
                                        value: cv.value.dup(),
                                        id: cv.id,
                                    },
                                );
                                proof {
                                    self.lemma_table_model_inv(table@);
                                    assert(rec_views_of(recs@) =~= pre2.push(recs@.last()@));
                                    assert(recs@.last()@ == cell_record(
                                        table@,
                                        row@,
                                        cells@[j as int].col_name@,
                                        rowcells[cells@[j as int].col_name@],
                                    ));
                                    self.recheck_coverage(pre2, rec_views_of(recs@), seen@, entries, o as int, from@);
                                    assert forall|k: int|
                                        0 <= k < j + 1 && !clock_includes(
                                            from@,
                                            (#[trigger] cells@[k]).id,
                                        ) implies rec_views_of(recs@).contains(
                                        cell_record(
                                            table@,
                                            row@,
                                            cells@[k].col_name@,
                                            rowcells[cells@[k].col_name@],
                                        ),
                                    ) by {
                                        if k < j {
                                            lemma_contains_prefix(
                                                pre2,
                                                rec_views_of(recs@),
                                                cell_record(
                                                    table@,
                                                    row@,
                                                    cells@[k].col_name@,
                                                    rowcells[cells@[k].col_name@],
                                                ),
                                            );
                                        } else {
                                            assert(rec_views_of(recs@)[pre2.len() as int]
                                                == recs@.last()@);
                                        }
                                    }
                                    assert forall|i2: int, j2: int|
                                        0 <= i2 < j2 < recs@.len() implies (
                                    #[trigger] recs@[i2])@ != (#[trigger] recs@[j2])@ by {
                                        assert(rec_views_of(recs@)[i2] == recs@[i2]@
                                            && rec_views_of(recs@)[j2] == recs@[j2]@);
                                        if j2 == recs@.len() - 1 {
                                            assert(recs@[i2]@ == pre2[i2]);
                                            let ov = recs@[i2]@;
                                            let nv = recs@[j2]@;
                                            assert(nv.col == Some(cells@[j as int].col_name@)
                                                && nv.table == table@ && nv.row == Some(row@));
                                            if ov.col is Some {
                                                if exists|q: int|
                                                    0 <= q < seen@.len() && ov.table == (
                                                    #[trigger] seen@[q]).table@ && ov.row == Some(
                                                        seen@[q].row@,
                                                    ) {
                                                    let q = choose|q: int|
                                                        0 <= q < seen@.len() && ov.table == (
                                                        #[trigger] seen@[q]).table@ && ov.row
                                                            == Some(seen@[q].row@);
                                                    if ov == nv {
                                                        assert(seen@[q].table@ == table@
                                                            && seen@[q].row@ == row@);
                                                        assert(false);
                                                    }
                                                } else {
                                                    let q = choose|q: int|
                                                        0 <= q < j && ov.col == Some(
                                                            (#[trigger] cells@[q]).col_name@,
                                                        );
                                                    assert(cells@[q].col_name@ != cells@[j as int].col_name@);
                                                }
                                            }
                                        }
                                    }
                                    assert forall|k: int|
                                        0 <= k < recs@.len() && (#[trigger] recs@[k])@.col is None
                                        implies exists|q: int|
                                        0 <= q < o && recs@[k]@.id == (#[trigger] entries[q]).0 by {
                                        assert(recs@[k]@ == pre2[k]);
                                        let q = choose|q: int|
                                            0 <= q < o && pre2[k].id == (#[trigger] entries[q]).0;
                                        assert(0 <= q < o && recs@[k]@.id == entries[q].0);
                                    }
                                    assert forall|k: int|
                                        0 <= k < recs@.len() && (#[trigger] recs@[k])@.col is Some
                                        implies (exists|q: int|
                                        0 <= q < seen@.len() && recs@[k]@.table == (
                                        #[trigger] seen@[q]).table@ && recs@[k]@.row == Some(
                                            seen@[q].row@,
                                        )) || (recs@[k]@.table == table@ && recs@[k]@.row == Some(
                                        row@,
                                    ) && exists|q: int|
                                        0 <= q < j + 1 && recs@[k]@.col == Some(
                                            (#[trigger] cells@[q]).col_name@,
                                        )) by {
                                        assert(rec_views_of(recs@)[k] == recs@[k]@);
                                        if k == recs@.len() - 1 {
                                            assert(recs@[k]@.col == Some(
                                                cells@[j as int].col_name@,
                                            ) && recs@[k]@.table == table@ && recs@[k]@.row
                                                == Some(row@));
                                            assert(0 <= j < j + 1);
                                        } else {
                                            assert(recs@[k]@ == pre2[k]);
                                            if !(exists|q: int|
                                                0 <= q < seen@.len() && recs@[k]@.table == (
                                                #[trigger] seen@[q]).table@ && recs@[k]@.row
                                                    == Some(seen@[q].row@)) {
                                                let q = choose|q: int|
                                                    0 <= q < j && recs@[k]@.col == Some(
                                                        (#[trigger] cells@[q]).col_name@,
                                                    );
                                                assert(0 <= q < j + 1 && recs@[k]@.col == Some(
                                                    cells@[q].col_name@,
                                                ));
                                            }
                                        }
                                    }
                                }
                            }
                            j += 1;
                        }
                        let ghost pre_seen = seen@;
                        seen.push(DirtyRow { table: table.clone(), row: row.clone() });
                        proof {
                            assert forall|k: int|
                                0 <= k < recs@.len() && (#[trigger] recs@[k])@.col is Some
                                implies exists|q: int|
                                0 <= q < seen@.len() && recs@[k]@.table == (
                                #[trigger] seen@[q]).table@ && recs@[k]@.row == Some(
                                    seen@[q].row@,
                                ) by {
                                if exists|q: int|
                                    0 <= q < pre_seen.len() && recs@[k]@.table == (
                                    #[trigger] pre_seen[q]).table@ && recs@[k]@.row == Some(
                                        pre_seen[q].row@,
                                    ) {
                                    let q = choose|q: int|
                                        0 <= q < pre_seen.len() && recs@[k]@.table == (
                                        #[trigger] pre_seen[q]).table@ && recs@[k]@.row == Some(
                                            pre_seen[q].row@,
                                        );
                                    assert(seen@[q] == pre_seen[q]);
                                } else {
                                    assert(recs@[k]@.table == table@ && recs@[k]@.row == Some(
                                        row@,
                                    ));
                                    assert((#[trigger] seen@[pre_seen.len() as int]).table@
                                        == table@ && seen@[pre_seen.len() as int].row@ == row@);
                                }
                            }
                            assert forall|k: int|
                                0 <= k < recs@.len() && (#[trigger] recs@[k])@.col is None
                                implies exists|q: int|
                                0 <= q < o + 1 && recs@[k]@.id == (#[trigger] entries[q]).0 by {
                                let q = choose|q: int|
                                    0 <= q < o && recs@[k]@.id == (#[trigger] entries[q]).0;
                                assert(0 <= q < o + 1 && recs@[k]@.id == entries[q].0);
                            }
                            assert forall|c: Seq<char>|
                                #[trigger] rowcells.contains_key(c) && !clock_includes(
                                    from@,
                                    rowcells[c].id,
                                ) implies rec_views_of(recs@).contains(
                                cell_record(table@, row@, c, rowcells[c]),
                            ) by {
                                let k = choose|k: int|
                                    0 <= k < cells@.len() && (#[trigger] cells@[k]).col_name@ == c;
                                assert(rowcells[cells@[k].col_name@] == (CellModel {
                                    value: cells@[k].value@,
                                    id: cells@[k].id,
                                }));
                                assert(!clock_includes(from@, cells@[k].id));
                            }
                            assert(update_covered(
                                rec_views_of(recs@),
                                self.model(),
                                table@,
                                row@,
                                from@,
                            ));
                        }
                    } else {
                        proof {
                            let k = choose|k: int|
                                0 <= k < seen@.len() && (#[trigger] seen@[k]).table@ == table@
                                    && seen@[k].row@ == row@;
                            assert(update_covered(
                                rec_views_of(recs@),
                                self.model(),
                                table@,
                                row@,
                                from@,
                            ));
                            assert forall|k2: int|
                                0 <= k2 < recs@.len() && (#[trigger] recs@[k2])@.col is None
                                implies exists|q: int|
                                0 <= q < o + 1 && recs@[k2]@.id == (#[trigger] entries[q]).0 by {
                                let q = choose|q: int|
                                    0 <= q < o && recs@[k2]@.id == (#[trigger] entries[q]).0;
                                assert(0 <= q < o + 1 && recs@[k2]@.id == entries[q].0);
                            }
                        }
                    }
                },
            }
            o += 1;
        }
        proof {
            assert forall|p: u64, l: u32|
                self.oplog@.contains_key(p) && #[trigger] self.oplog@[p].contains_key(l) && l
                    > clock_of(from@, p) implies op_covered(
                rec_views_of(recs@),
                self.model(),
                self.oplog@[p][l],
                OpId { lamport: l, peer: p },
                from@,
            ) by {
                crate::oplog::lemma_log_entries_from_complete(self.oplog.logs@, from@, p, l);
                let k = choose|k: int|
                    0 <= k < entries.len() && #[trigger] entries[k] == (
                        OpId { lamport: l, peer: p },
                        self.oplog@[p][l],
                    );
                assert(op_covered(
                    rec_views_of(recs@),
                    self.model(),
                    entries[k].1,
                    entries[k].0,
                    from@,
                ));
            }
            assert forall|i2: int, j2: int|
                0 <= i2 < j2 < rec_views_of(recs@).len() implies (
            #[trigger] rec_views_of(recs@)[i2]) != (#[trigger] rec_views_of(recs@)[j2]) by {
                assert(rec_views_of(recs@)[i2] == recs@[i2]@ && rec_views_of(recs@)[j2]
                    == recs@[j2]@);
            }
            assert(records_distinct(rec_views_of(recs@)));
        }
        recs
    }

    /// Pushing a record keeps every earlier coverage fact.
    proof fn recheck_coverage(
        self,
        pre: Seq<RecordModel>,
        post: Seq<RecordModel>,
        seen: Seq<DirtyRow>,
        entries: Seq<(OpId, OpModel)>,
        o: int,
        from: Map<u64, u32>,
    )
        requires
            pre.len() <= post.len(),
            forall|k: int| 0 <= k < pre.len() ==> post[k] == pre[k],
            forall|k: int|
                0 <= k < seen.len() ==> update_covered(
                    pre,
                    self.model(),
                    (#[trigger] seen[k]).table@,
                    seen[k].row@,
                    from,
                ),
            forall|k: int|
                0 <= k < o ==> op_covered(
                    pre,
                    self.model(),
                    entries[k].1,
                    (#[trigger] entries[k]).0,
                    from,
                ),
        ensures
            forall|k: int|
                0 <= k < seen.len() ==> update_covered(
                    post,
                    self.model(),
                    (#[trigger] seen[k]).table@,
                    seen[k].row@,
                    from,
                ),
            forall|k: int|
                0 <= k < o ==> op_covered(
                    post,
                    self.model(),
                    entries[k].1,
                    (#[trigger] entries[k]).0,
                    from,
                ),
    {
        assert forall|k: int| 0 <= k < seen.len() implies update_covered(
            post,
            self.model(),
            (#[trigger] seen[k]).table@,
            seen[k].row@,
            from,
        ) by {
            lemma_update_covered_mono(pre, post, self.model(), seen[k].table@, seen[k].row@, from);
        }
        assert forall|k: int| 0 <= k < o implies op_covered(
            post,
            self.model(),
            entries[k].1,
            (#[trigger] entries[k]).0,
            from,
        ) by {
            lemma_op_covered_mono(pre, post, self.model(), entries[k].1, entries[k].0, from);
        }
    }
}

/// Encode records into a compressed delta blob that parses back to them.
#[verifier::rlimit(100)]
fn encode_records(recs: &Vec<Record>) -> (out: Vec<u8>)
    requires
        forall|k: int| 0 <= k < recs@.len() ==> record_valid((#[trigger] recs@[k])@),
    ensures
        export_bundle(out@, rec_views_of(recs@)),
{
    let mut strs = StrPool::new();
    let mut peers = Register::new();
    let mut tenc = DeltaRleEncoder::new();
    let mut renc = DeltaRleEncoder::new();
    let mut cenc = DeltaRleEncoder::new();
    let mut penc = DeltaRleEncoder::new();
    let mut lenc = DeltaRleEncoder::new();
    let mut values: Vec<Value> = Vec::new();
    let mut k: usize = 0;
    while k < recs.len()
        invariant
            k <= recs@.len(),
            forall|q: int| 0 <= q < recs@.len() ==> record_valid((#[trigger] recs@[q])@),
            strs.wf(),
            peers.wf(),
            tenc.wf() && renc.wf() && cenc.wf() && penc.wf() && lenc.wf(),
            tenc.view().len() == k && renc.view().len() == k && cenc.view().len() == k
                && penc.view().len() == k && lenc.view().len() == k && values@.len() == k,
            forall|q: int|
                0 <= q < k ==> entry_ok(
                    crate::pool::str_views(strs.pool@),
                    peers.pool@,
                    tenc.view()[q],
                    renc.view()[q],
                    cenc.view()[q],
                    #[trigger] val_views_of(values@)[q],
                    penc.view()[q],
                    lenc.view()[q],
                ),
            forall|q: int|
                0 <= q < k ==> entry_record(
                    crate::pool::str_views(strs.pool@),
                    peers.pool@,
                    tenc.view()[q],
                    renc.view()[q],
                    cenc.view()[q],
                    #[trigger] val_views_of(values@)[q],
                    penc.view()[q],
                    lenc.view()[q],
                ) == rec_views_of(recs@)[q],
        decreases recs@.len() - k,
    {
        let ghost strs0 = strs.pool@;
        let ghost peers0 = peers.pool@;
        let ghost tv0 = tenc.view();
        let ghost rv0 = renc.view();
        let ghost cv0 = cenc.view();
        let ghost pv0 = penc.view();
        let ghost lv0 = lenc.view();
        let ghost values0 = values@;
        let r = &recs[k];
        let t_idx = strs.intern(r.table.as_str());
        let row_idx: usize = match &r.row {
            Some(x) => {
                let ri = strs.intern(x.as_str());
                proof {
                    assert(strs.pool@.len() == strs.pool.len());
                }
                ri + 1
            },
            None => 0,
        };
        let col_idx: usize = match &r.col {
            Some(x) => {
                let ci = strs.intern(x.as_str());
                proof {
                    assert(strs.pool@.len() == strs.pool.len());
                }
                ci + 1
            },
            None => 0,
        };
        let p_idx = peers.register(r.id.peer);
        tenc.push(t_idx as u64 as i64);
        renc.push(row_idx as u64 as i64);
        cenc.push(col_idx as u64 as i64);
        penc.push(p_idx as u64 as i64);
        lenc.push(r.id.lamport as u64 as i64);
        values.push(r.value.dup());
        proof {
            let sv = crate::pool::str_views(strs.pool@);
            let sv0 = crate::pool::str_views(strs0);
            assert forall|i: int| 0 <= i < sv0.len() implies sv[i] == sv0[i] by {
                assert(strs.pool@[i] == strs0[i] || strs.pool@[i]@ == strs0[i]@);
            }
            assert forall|i: int| 0 <= i < peers0.len() implies peers.pool@[i] == peers0[i] by {}
            assert(values@.drop_last() =~= values0);
            assert(val_views_of(values@) =~= val_views_of(values0).push(values@.last()@));
            assert(record_valid(recs@[k as int]@));
            assert(t_idx < strs.pool@.len());
            lemma_wrap_u64_i64(t_idx as u64);
            lemma_wrap_u64_i64(row_idx as u64);
            lemma_wrap_u64_i64(col_idx as u64);
            lemma_wrap_u64_i64(p_idx as u64);
            lemma_wrap_u64_i64(r.id.lamport as u64);
            assert(entry_ok(
                sv,
                peers.pool@,
                tenc.view()[k as int],
                renc.view()[k as int],
                cenc.view()[k as int],
                val_views_of(values@)[k as int],
                penc.view()[k as int],
                lenc.view()[k as int],
            ));
            assert(entry_record(
                sv,
                peers.pool@,
                tenc.view()[k as int],
                renc.view()[k as int],
                cenc.view()[k as int],
                val_views_of(values@)[k as int],
                penc.view()[k as int],
                lenc.view()[k as int],
            ) == rec_views_of(recs@)[k as int]);
            assert forall|q: int| 0 <= q < k + 1 implies entry_ok(
                sv,
                peers.pool@,
                tenc.view()[q],
                renc.view()[q],
                cenc.view()[q],
                #[trigger] val_views_of(values@)[q],
                penc.view()[q],
                lenc.view()[q],
            ) by {
                if q < k {
                    assert(val_views_of(values@)[q] == val_views_of(values0)[q]);
                    assert(tenc.view()[q] == tv0[q] && renc.view()[q] == rv0[q] && cenc.view()[q]
                        == cv0[q] && penc.view()[q] == pv0[q] && lenc.view()[q] == lv0[q]);
                    assert(entry_ok(
                        sv0,
                        peers0,
                        tv0[q],
                        rv0[q],
                        cv0[q],
                        val_views_of(values0)[q],
                        pv0[q],
                        lv0[q],
                    ));
                }
            }
            assert forall|q: int| 0 <= q < k + 1 implies entry_record(
                sv,
                peers.pool@,
                tenc.view()[q],
                renc.view()[q],
                cenc.view()[q],
                #[trigger] val_views_of(values@)[q],
                penc.view()[q],
                lenc.view()[q],
            ) == rec_views_of(recs@)[q] by {
                if q < k {
                    assert(val_views_of(values@)[q] == val_views_of(values0)[q]);
                    assert(tenc.view()[q] == tv0[q] && renc.view()[q] == rv0[q] && cenc.view()[q]
                        == cv0[q] && penc.view()[q] == pv0[q] && lenc.view()[q] == lv0[q]);
                    assert(entry_ok(
                        sv0,
                        peers0,
                        tv0[q],
                        rv0[q],
                        cv0[q],
                        val_views_of(values0)[q],
                        pv0[q],
                        lv0[q],
                    ));
                    assert(entry_record(
                        sv0,
                        peers0,
                        tv0[q],
                        rv0[q],
                        cv0[q],
                        val_views_of(values0)[q],
                        pv0[q],
                        lv0[q],
                    ) == rec_views_of(recs@)[q]);
                    assert(sv[(tv0[q] as u64) as int] == sv0[(tv0[q] as u64) as int]);
                    lemma_wrap_zero(rv0[q]);
                    lemma_wrap_zero(cv0[q]);
                    if rv0[q] != 0 {
                        assert(sv[(rv0[q] as u64) - 1] == sv0[(rv0[q] as u64) - 1]);
                    }
                    if cv0[q] != 0 {
                        assert(sv[(cv0[q] as u64) - 1] == sv0[(cv0[q] as u64) - 1]);
                    }
                }
            }
        }
        k += 1;
    }
    let ghost g_strs = crate::pool::str_views(strs.pool@);
    let ghost g_peers = peers.pool@;
    let ghost g_ts = tenc.view();
    let ghost g_rs = renc.view();
    let ghost g_cs = cenc.view();
    let ghost g_vs = val_views_of(values@);
    let ghost g_ps = penc.view();
    let ghost g_ls = lenc.view();
    let strs_vec = strs.finish();
    let peers_vec = peers.finish();
    let tb = tenc.finish();
    let rb = renc.finish();
    let cb = cenc.finish();
    let pb = penc.finish();
    let lb = lenc.finish();
    let mut blob: Vec<u8> = Vec::new();
    push_str_list(&mut blob, &strs_vec);
    let ghost b1 = blob@;
    push_u64_list(&mut blob, &peers_vec);
    let ghost b2 = blob@;
    push_block(&mut blob, &tb);
    let ghost b3 = blob@;
    push_block(&mut blob, &rb);
    let ghost b4 = blob@;
    push_block(&mut blob, &cb);
    let ghost b5 = blob@;
    push_value_list(&mut blob, &values);
    let ghost b6 = blob@;
    push_block(&mut blob, &pb);
    let ghost b7 = blob@;
    push_block(&mut blob, &lb);
    proof {
        assert(blob@ =~= varint(strs_vec@.len() as u64) + strs_bytes(views_of(strs_vec@)) + (
        varint(peers_vec@.len() as u64) + u64s_bytes(peers_vec@)) + block_bytes(tb@) + block_bytes(
            rb@,
        ) + block_bytes(cb@) + (varint(values@.len() as u64) + vals_bytes(val_views_of(values@)))
            + block_bytes(pb@) + block_bytes(lb@));
        assert(strs_vec@.len() == strs_vec.len());
        assert(peers_vec@.len() == peers_vec.len());
        assert(values@.len() == values.len());
        assert(tb@.len() == tb.len());
        assert(rb@.len() == rb.len());
        assert(cb@.len() == cb.len());
        assert(pb@.len() == pb.len());
        assert(lb@.len() == lb.len());
        lemma_blob_parses(
            blob@,
            views_of(strs_vec@),
            peers_vec@,
            tb@,
            rb@,
            cb@,
            val_views_of(values@),
            pb@,
            lb@,
        );
        assert(views_of(strs_vec@) == g_strs);
        assert(parse_deltas(tb@, 0, 0) == Some(g_ts));
        assert(combine(g_strs, g_peers, g_ts, g_rs, g_cs, g_vs, g_ps, g_ls) matches Some(sr)
            && sr =~= rec_views_of(recs@));
        assert(parse_delta_blob(blob@) == Some(rec_views_of(recs@)));
    }
    let out = crate::encode::compress::zstd_compress(&blob);
    proof {
        let bv = blob@;
        assert(out@ == zstd_frame(bv) && zstd_decode(out@) == Some(bv) && parse_delta_blob(bv)
            == Some(rec_views_of(recs@)));
    }
    out
}

/// A blob assembled from its eight sections parses back to them.
#[verifier::rlimit(100)]
proof fn lemma_blob_parses(
    b: Seq<u8>,
    strs: Seq<Seq<char>>,
    peers: Seq<u64>,
    tb: Seq<u8>,
    rb: Seq<u8>,
    cb: Seq<u8>,
    vs: Seq<ValueModel>,
    pb: Seq<u8>,
    lb: Seq<u8>,
)
    requires
        b == varint(strs.len() as u64) + strs_bytes(strs) + (varint(peers.len() as u64)
            + u64s_bytes(peers)) + block_bytes(tb) + block_bytes(rb) + block_bytes(cb) + (varint(
            vs.len() as u64,
        ) + vals_bytes(vs)) + block_bytes(pb) + block_bytes(lb),
        strs.len() <= u64::MAX,
        peers.len() <= u64::MAX,
        vs.len() <= u64::MAX,
        tb.len() <= u64::MAX,
        rb.len() <= u64::MAX,
        cb.len() <= u64::MAX,
        pb.len() <= u64::MAX,
        lb.len() <= u64::MAX,
        forall|k: int| 0 <= k < strs.len() ==> encode_utf8(#[trigger] strs[k]).len() <= u64::MAX,
        forall|k: int|
            0 <= k < vs.len() ==> (#[trigger] vs[k] matches ValueModel::Str(sv) ==> encode_utf8(
                sv,
            ).len() <= u64::MAX),
    ensures
        parse_str_list(b, 0) matches Some(s1) && s1.0 == strs && (parse_u64_list(b, s1.1) matches
        Some(s2) && s2.0 == peers && (parse_block(b, s2.1) matches Some(s3) && s3.0 == tb && (
        parse_block(b, s3.1) matches Some(s4) && s4.0 == rb && (parse_block(b, s4.1) matches Some(
            s5,
        ) && s5.0 == cb && (parse_value_list(b, s5.1) matches Some(s6) && s6.0 == vs && (
        parse_block(b, s6.1) matches Some(s7) && s7.0 == pb && (parse_block(b, s7.1) matches Some(
            s8,
        ) && s8.0 == lb && s8.1 == b.len()))))))),
{
    let v1 = varint(strs.len() as u64);
    let s1b = strs_bytes(strs);
    let v2 = varint(peers.len() as u64);
    let s2b = u64s_bytes(peers);
    let s3b = block_bytes(tb);
    let s4b = block_bytes(rb);
    let s5b = block_bytes(cb);
    let v6 = varint(vs.len() as u64);
    let s6b = vals_bytes(vs);
    let s7b = block_bytes(pb);
    let s8b = block_bytes(lb);
    let o0: int = 0;
    let o1 = o0 + v1.len();
    let o2 = o1 + s1b.len();
    let o3 = o2 + v2.len();
    let o4 = o3 + s2b.len();
    let o5 = o4 + s3b.len();
    let o6 = o5 + s4b.len();
    let o7 = o6 + s5b.len();
    let o8 = o7 + v6.len();
    let o9 = o8 + s6b.len();
    let o10 = o9 + s7b.len();
    let o11 = o10 + s8b.len();
    assert(b =~= v1 + s1b + v2 + s2b + s3b + s4b + s5b + v6 + s6b + s7b + s8b);
    assert(b.len() == o11);
    assert forall|k: int| 0 <= k < v1.len() implies b[o0 + k] == v1[k] by {}
    lemma_varint_round_trip(b, o0, strs.len() as u64);
    assert forall|k: int| 0 <= k < s1b.len() implies b[o1 + k] == s1b[k] by {}
    crate::encode::wire::lemma_strs_round_trip(b, o1, strs);
    assert forall|k: int| 0 <= k < v2.len() implies b[o2 + k] == v2[k] by {}
    lemma_varint_round_trip(b, o2, peers.len() as u64);
    assert forall|k: int| 0 <= k < s2b.len() implies b[o3 + k] == s2b[k] by {}
    crate::encode::wire::lemma_u64s_round_trip(b, o3, peers);
    assert forall|k: int| 0 <= k < s3b.len() implies b[o4 + k] == s3b[k] by {}
    crate::encode::wire::lemma_block_round_trip(b, o4, tb);
    assert forall|k: int| 0 <= k < s4b.len() implies b[o5 + k] == s4b[k] by {}
    crate::encode::wire::lemma_block_round_trip(b, o5, rb);
    assert forall|k: int| 0 <= k < s5b.len() implies b[o6 + k] == s5b[k] by {}
    crate::encode::wire::lemma_block_round_trip(b, o6, cb);
    assert forall|k: int| 0 <= k < v6.len() implies b[o7 + k] == v6[k] by {}
    lemma_varint_round_trip(b, o7, vs.len() as u64);
    assert forall|k: int| 0 <= k < s6b.len() implies b[o8 + k] == s6b[k] by {}
    crate::encode::wire::lemma_vals_round_trip(b, o8, vs);
    assert forall|k: int| 0 <= k < s7b.len() implies b[o9 + k] == s7b[k] by {}
    crate::encode::wire::lemma_block_round_trip(b, o9, pb);
    assert forall|k: int| 0 <= k < s8b.len() implies b[o10 + k] == s8b[k] by {}
    crate::encode::wire::lemma_block_round_trip(b, o10, lb);
}

/// The record a table deletion exports as.
pub open spec fn entry_of_delete_table(t: Seq<char>, id: OpId) -> RecordModel {
    RecordModel { table: t, row: None, col: None, value: ValueModel::Deleted, id }
}

/// The record a row deletion exports as.
pub open spec fn entry_of_delete_row(t: Seq<char>, r: Seq<char>, id: OpId) -> RecordModel {
    RecordModel { table: t, row: Some(r), col: None, value: ValueModel::Deleted, id }
}

/// The record a live or tombstone cell exports as.
pub open spec fn cell_record(t: Seq<char>, r: Seq<char>, c: Seq<char>, cm: CellModel) -> RecordModel {
    RecordModel { table: t, row: Some(r), col: Some(c), value: cm.value, id: cm.id }
}

/// A log map holds `op` at `id`.
pub open spec fn log_has(log: Map<u64, Map<u32, OpModel>>, id: OpId, op: OpModel) -> bool {
    log.contains_key(id.peer) && log[id.peer].contains_key(id.lamport) && log[id.peer][id.lamport]
        == op
}

/// A record is justified by the database: not yet seen by the peer, and
/// read off a current cell or a logged deletion.
pub open spec fn record_sound(
    r: RecordModel,
    m: Map<Seq<char>, TableModel>,
    log: Map<u64, Map<u32, OpModel>>,
    from: Map<u64, u32>,
) -> bool {
    &&& record_valid(r)
    &&& !clock_includes(from, r.id)
    &&& match (r.row, r.col) {
        (Some(row), Some(col)) => row_of(table_of(m, r.table), row).cells.contains_key(col)
            && row_of(table_of(m, r.table), row).cells[col] == (CellModel {
            value: r.value,
            id: r.id,
        }),
        (Some(row), None) => log_has(log, r.id, OpModel::DeleteRow { table: r.table, row }),
        (None, _) => log_has(log, r.id, OpModel::DeleteTable { table: r.table }),
    }
}

/// No record appears twice: an export names each deletion and each cell
/// once.
pub open spec fn records_distinct(rs: Seq<RecordModel>) -> bool {
    forall|i: int, j: int| 0 <= i < j < rs.len() ==> (#[trigger] rs[i]) != (#[trigger] rs[j])
}

/// Every record is justified.
pub open spec fn export_sound(
    rs: Seq<RecordModel>,
    m: Map<Seq<char>, TableModel>,
    log: Map<u64, Map<u32, OpModel>>,
    from: Map<u64, u32>,
) -> bool {
    forall|k: int| 0 <= k < rs.len() ==> record_sound(#[trigger] rs[k], m, log, from)
}

/// Every unseen cell of (table, row) has its record.
pub open spec fn update_covered(
    rs: Seq<RecordModel>,
    m: Map<Seq<char>, TableModel>,
    t: Seq<char>,
    r: Seq<char>,
    from: Map<u64, u32>,
) -> bool {
    forall|c: Seq<char>|
        #[trigger] row_of(table_of(m, t), r).cells.contains_key(c) && !clock_includes(
            from,
            row_of(table_of(m, t), r).cells[c].id,
        ) ==> rs.contains(cell_record(t, r, c, row_of(table_of(m, t), r).cells[c]))
}

/// What a logged operation demands of an export.
pub open spec fn op_covered(
    rs: Seq<RecordModel>,
    m: Map<Seq<char>, TableModel>,
    op: OpModel,
    id: OpId,
    from: Map<u64, u32>,
) -> bool {
    match op {
        OpModel::DeleteTable { table } => rs.contains(
            RecordModel { table, row: None, col: None, value: ValueModel::Deleted, id },
        ),
        OpModel::DeleteRow { table, row } => rs.contains(
            RecordModel { table, row: Some(row), col: None, value: ValueModel::Deleted, id },
        ),
        OpModel::Update { table, row } => update_covered(rs, m, table, row, from),
    }
}

/// Every logged operation the peer has not seen is covered.
pub open spec fn export_complete(
    rs: Seq<RecordModel>,
    m: Map<Seq<char>, TableModel>,
    log: Map<u64, Map<u32, OpModel>>,
    from: Map<u64, u32>,
) -> bool {
    forall|p: u64, l: u32|
        log.contains_key(p) && #[trigger] log[p].contains_key(l) && l > clock_of(from, p)
            ==> op_covered(rs, m, log[p][l], OpId { lamport: l, peer: p }, from)
}

/// The compressed bytes carry exactly these records: they are one frame,
/// decompression recovers its payload, and the payload parses to `rs`.
pub open spec fn export_bundle(out: Seq<u8>, rs: Seq<RecordModel>) -> bool {
    exists|bv: Seq<u8>|
        out == #[trigger] zstd_frame(bv) && zstd_decode(out) == Some(bv) && parse_delta_blob(bv)
            == Some(rs)
}

/// A deletion record at an id no earlier record carries extends a
/// duplicate-free list, and its id joins the walked prefix.
proof fn lemma_delete_record_distinct(rv: Seq<RecordModel>, entries: Seq<(OpId, OpModel)>, o: int)
    requires
        rv.len() >= 1,
        0 <= o < entries.len(),
        rv.last().col is None,
        rv.last().id == entries[o].0,
        forall|i2: int, j2: int|
            0 <= i2 < j2 < entries.len() ==> (#[trigger] entries[i2]).0 != (
            #[trigger] entries[j2]).0,
        forall|i2: int, j2: int|
            0 <= i2 < j2 < rv.len() - 1 ==> (#[trigger] rv[i2]) != (#[trigger] rv[j2]),
        forall|k: int|
            0 <= k < rv.len() - 1 && (#[trigger] rv[k]).col is None ==> exists|q: int|
                0 <= q < o && rv[k].id == (#[trigger] entries[q]).0,
    ensures
        forall|i2: int, j2: int|
            0 <= i2 < j2 < rv.len() ==> (#[trigger] rv[i2]) != (#[trigger] rv[j2]),
        forall|k: int|
            0 <= k < rv.len() && (#[trigger] rv[k]).col is None ==> exists|q: int|
                0 <= q < o + 1 && rv[k].id == (#[trigger] entries[q]).0,
{
    assert forall|i2: int, j2: int| 0 <= i2 < j2 < rv.len() implies (#[trigger] rv[i2]) != (
    #[trigger] rv[j2]) by {
        if j2 == rv.len() - 1 && rv[i2].col is None {
            let q = choose|q: int| 0 <= q < o && rv[i2].id == (#[trigger] entries[q]).0;
            assert(entries[q].0 != entries[o].0);
        }
    }
    assert forall|k: int| 0 <= k < rv.len() && (#[trigger] rv[k]).col is None implies exists|q: int|
        0 <= q < o + 1 && rv[k].id == (#[trigger] entries[q]).0 by {
        if k == rv.len() - 1 {
            assert(0 <= o < o + 1 && rv[k].id == entries[o].0);
        } else {
            let q = choose|q: int| 0 <= q < o && rv[k].id == (#[trigger] entries[q]).0;
            assert(0 <= q < o + 1 && rv[k].id == entries[q].0);
        }
    }
}

/// Carry the walk bookkeeping from the view sequence back to the record
/// vector after a deletion record was appended: distinctness, walked
/// delete ids, and expanded-row membership.
proof fn reindex_records(
    recs: Seq<Record>,
    pre: Seq<RecordModel>,
    seen: Seq<DirtyRow>,
    entries: Seq<(OpId, OpModel)>,
    bound: int,
)
    requires
        rec_views_of(recs) == pre.push(rec_views_of(recs).last()),
        rec_views_of(recs).last().col is None,
        forall|i2: int, j2: int|
            0 <= i2 < j2 < rec_views_of(recs).len() ==> (#[trigger] rec_views_of(recs)[i2]) != (
            #[trigger] rec_views_of(recs)[j2]),
        forall|k: int|
            0 <= k < rec_views_of(recs).len() && (#[trigger] rec_views_of(recs)[k]).col is None
                ==> exists|q: int|
                0 <= q < bound && rec_views_of(recs)[k].id == (#[trigger] entries[q]).0,
        forall|k: int|
            0 <= k < pre.len() && (#[trigger] pre[k]).col is Some ==> exists|q: int|
                0 <= q < seen.len() && pre[k].table == (#[trigger] seen[q]).table@ && pre[k].row
                    == Some(seen[q].row@),
    ensures
        forall|i2: int, j2: int|
            0 <= i2 < j2 < recs.len() ==> (#[trigger] recs[i2])@ != (#[trigger] recs[j2])@,
        forall|k: int|
            0 <= k < recs.len() && (#[trigger] recs[k])@.col is None ==> exists|q: int|
                0 <= q < bound && recs[k]@.id == (#[trigger] entries[q]).0,
        forall|k: int|
            0 <= k < recs.len() && (#[trigger] recs[k])@.col is Some ==> exists|q: int|
                0 <= q < seen.len() && recs[k]@.table == (#[trigger] seen[q]).table@ && recs[k]@.row
                    == Some(seen[q].row@),
{
    let rv = rec_views_of(recs);
    assert forall|i2: int, j2: int| 0 <= i2 < j2 < recs.len() implies (#[trigger] recs[i2])@ != (
    #[trigger] recs[j2])@ by {
        assert(rv[i2] == recs[i2]@ && rv[j2] == recs[j2]@);
    }
    assert forall|k: int| 0 <= k < recs.len() && (#[trigger] recs[k])@.col is None implies exists|q: int|
        0 <= q < bound && recs[k]@.id == (#[trigger] entries[q]).0 by {
        assert(rv[k] == recs[k]@);
        let q = choose|q: int| 0 <= q < bound && rv[k].id == (#[trigger] entries[q]).0;
        assert(0 <= q < bound && recs[k]@.id == entries[q].0);
    }
    assert forall|k: int| 0 <= k < recs.len() && (#[trigger] recs[k])@.col is Some implies exists|q: int|
        0 <= q < seen.len() && recs[k]@.table == (#[trigger] seen[q]).table@ && recs[k]@.row
            == Some(seen[q].row@) by {
        assert(rv[k] == recs[k]@);
        if k == recs.len() - 1 {
            assert(rv[k] == rv.last());
        }
        assert(pre[k] == rv[k]);
        let q = choose|q: int|
            0 <= q < seen.len() && pre[k].table == (#[trigger] seen[q]).table@ && pre[k].row
                == Some(seen[q].row@);
        assert(0 <= q < seen.len() && recs[k]@.table == seen[q].table@ && recs[k]@.row == Some(
            seen[q].row@,
        ));
    }
}

/// Membership survives extension at the end.
pub proof fn lemma_contains_prefix<T>(rs1: Seq<T>, rs2: Seq<T>, x: T)
    requires
        rs1.len() <= rs2.len(),
        forall|k: int| 0 <= k < rs1.len() ==> rs2[k] == rs1[k],
        rs1.contains(x),
    ensures
        rs2.contains(x),
{
    let k = choose|k: int| 0 <= k < rs1.len() && rs1[k] == x;
    assert(rs2[k] == x);
}

/// Coverage survives extension at the end.
proof fn lemma_op_covered_mono(
    rs1: Seq<RecordModel>,
    rs2: Seq<RecordModel>,
    m: Map<Seq<char>, TableModel>,
    op: OpModel,
    id: OpId,
    from: Map<u64, u32>,
)
    requires
        rs1.len() <= rs2.len(),
        forall|k: int| 0 <= k < rs1.len() ==> rs2[k] == rs1[k],
        op_covered(rs1, m, op, id, from),
    ensures
        op_covered(rs2, m, op, id, from),
{
    match op {
        OpModel::DeleteTable { table } => {
            lemma_contains_prefix(
                rs1,
                rs2,
                RecordModel { table, row: None, col: None, value: ValueModel::Deleted, id },
            );
        },
        OpModel::DeleteRow { table, row } => {
            lemma_contains_prefix(
                rs1,
                rs2,
                RecordModel {
                    table,
                    row: Some(row),
                    col: None,
                    value: ValueModel::Deleted,
                    id,
                },
            );
        },
        OpModel::Update { table, row } => {
            lemma_update_covered_mono(rs1, rs2, m, table, row, from);
        },
    }
}

/// Coverage of a row's cells survives extension at the end.
proof fn lemma_update_covered_mono(
    rs1: Seq<RecordModel>,
    rs2: Seq<RecordModel>,
    m: Map<Seq<char>, TableModel>,
    t: Seq<char>,
    r: Seq<char>,
    from: Map<u64, u32>,
)
    requires
        rs1.len() <= rs2.len(),
        forall|k: int| 0 <= k < rs1.len() ==> rs2[k] == rs1[k],
        update_covered(rs1, m, t, r, from),
    ensures
        update_covered(rs2, m, t, r, from),
{
    assert forall|c: Seq<char>|
        #[trigger] row_of(table_of(m, t), r).cells.contains_key(c) && !clock_includes(
            from,
            row_of(table_of(m, t), r).cells[c].id,
        ) implies rs2.contains(cell_record(t, r, c, row_of(table_of(m, t), r).cells[c])) by {
        lemma_contains_prefix(rs1, rs2, cell_record(t, r, c, row_of(table_of(m, t), r).cells[c]));
    }
}

/// A (table, row) pair an export walk has already expanded.
struct DirtyRow {
    table: String,
    row: String,
}

/// Whether the pair is already recorded as expanded.
fn seen_contains(seen: &Vec<DirtyRow>, t: &String, r: &String) -> (res: bool)
    ensures
        res == exists|k: int|
            0 <= k < seen@.len() && (#[trigger] seen@[k]).table@ == t@ && seen@[k].row@ == r@,
{
    let mut k: usize = 0;
    while k < seen.len()
        invariant
            k <= seen@.len(),
            forall|q: int|
                0 <= q < k ==> !((#[trigger] seen@[q]).table@ == t@ && seen@[q].row@ == r@),
        decreases seen@.len() - k,
    {
        if seen[k].table == *t && seen[k].row == *r {
            return true;
        }
        k += 1;
    }
    false
}

/// A row or column key borrowed as a plain string slice.
fn key_str(s: &String) -> (r: &str)
    ensures
        r@ == s@,
{
    s.as_str()
}

} // verus!