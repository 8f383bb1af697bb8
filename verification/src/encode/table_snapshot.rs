//! The snapshot blob: the whole current state, one section per table.
//!
//! A section holds the table tombstone, the row and column name lists, a
//! rows-by-columns presence bitmap (column-major, run-length coded), the
//! value, lamport and peer-index streams of the present cells, and the
//! row-tombstone bitmap with its parallel peer and lamport lists. A
//! decoded snapshot is replayed through the regular merge path, so the
//! operation log is rebuilt from the state, and a replica loaded from a
//! snapshot can serve deltas afterwards.

use vstd::prelude::*;

use crate::encode::bool_rle::{parse_bools, BoolRleEncoder};
use crate::encode::compress::{zstd_decode, zstd_frame};
use crate::encode::delta::{apply_records, rec_views_of, record_valid, DecodeError, Record,
    RecordModel};
use crate::encode::delta_rle::{parse_deltas, DeltaRleEncoder};
use crate::encode::wire::{block_bytes, parse_block, parse_str_list, parse_u64_list,
    parse_value_list, push_block, push_str_list, push_string, push_u64_list, push_value_list,
    read_block, read_str_list, read_string, read_u64_list, read_value_list, strs_bytes,
    u64s_bytes, val_views_of, vals_bytes, views_of};
use crate::db::LwwDb;
use crate::pool::{Register, StrPool};
use crate::table::{LwwTable, TableModel};
use crate::value::{Value, ValueModel};
use crate::varint::{lemma_parse_varint_bounds, parse_varint, push_varint, read_varint};
use crate::OpId;

verus! {

/// Expand the row-tombstone bitmap: one row deletion per set bit, taking
/// peer and lamport from the parallel lists in order.
pub open spec fn expand_row_dels(
    t: Seq<char>,
    rows: Seq<Seq<char>>,
    bits: Seq<bool>,
    dps: Seq<u64>,
    dls: Seq<u64>,
    peers: Seq<u64>,
    k: nat,
    cur: nat,
) -> Option<Seq<RecordModel>>
    decreases bits.len() - k,
{
    if k >= bits.len() {
        if cur == dps.len() && cur == dls.len() {
            Some(Seq::empty())
        } else {
            None
        }
    } else if !bits[k as int] {
        expand_row_dels(t, rows, bits, dps, dls, peers, k + 1, cur)
    } else if cur >= dps.len() || cur >= dls.len() || dps[cur as int] >= peers.len() || dls[
        cur as int
    ] < 1 || dls[cur as int] > u32::MAX {
        None
    } else {
        match expand_row_dels(t, rows, bits, dps, dls, peers, k + 1, cur + 1) {
            None => None,
            Some(rest) => Some(
                seq![
                    RecordModel {
                        table: t,
                        row: Some(rows[k as int]),
                        col: None,
                        value: ValueModel::Deleted,
                        id: OpId {
                            lamport: dls[cur as int] as u32,
                            peer: peers[dps[cur as int] as int],
                        },
                    },
                ] + rest,
            ),
        }
    }
}

/// Expand the presence bitmap, column-major: one cell write per set bit,
/// taking value, lamport and peer index from the parallel streams.
pub open spec fn expand_cells(
    t: Seq<char>,
    rows: Seq<Seq<char>>,
    cols: Seq<Seq<char>>,
    present: Seq<bool>,
    vs: Seq<ValueModel>,
    ls: Seq<i64>,
    ps: Seq<i64>,
    peers: Seq<u64>,
    k: nat,
    cur: nat,
) -> Option<Seq<RecordModel>>
    decreases present.len() - k,
{
    if k >= present.len() {
        if cur == vs.len() && cur == ls.len() && cur == ps.len() {
            Some(Seq::empty())
        } else {
            None
        }
    } else if !present[k as int] {
        expand_cells(t, rows, cols, present, vs, ls, ps, peers, k + 1, cur)
    } else if rows.len() == 0 || cur >= vs.len() || cur >= ls.len() || cur >= ps.len() || k as int
        / rows.len() as int >= cols.len() || (ps[cur as int] as u64) >= peers.len() || (ls[
        cur as int
    ] as u64) < 1 || (ls[cur as int] as u64) > u32::MAX {
        None
    } else {
        match expand_cells(t, rows, cols, present, vs, ls, ps, peers, k + 1, cur + 1) {
            None => None,
            Some(rest) => Some(
                seq![
                    RecordModel {
                        table: t,
                        row: Some(rows[k as int % rows.len() as int]),
                        col: Some(cols[k as int / rows.len() as int]),
                        value: vs[cur as int],
                        id: OpId {
                            lamport: ((ls[cur as int] as u64) as u32),
                            peer: peers[(ps[cur as int] as u64) as int],
                        },
                    },
                ] + rest,
            ),
        }
    }
}

/// Parse one table section at `i`: its records, in replay order (table
/// tombstone, then row tombstones, then cells), and the end position.
#[verifier::opaque]
pub open spec fn parse_table_section(s: Seq<u8>, i: int, peers: Seq<u64>) -> Option<
    (Seq<RecordModel>, int),
> {
    match crate::encode::wire::parse_str(s, i) {
        None => None,
        Some((name, i1)) => if i1 >= s.len() {
            None
        } else {
            let flag = s[i1];
            let after_flag: Option<(Option<RecordModel>, int)> = if flag == 0 {
                Some((None, i1 + 1))
            } else if flag == 1 {
                match parse_varint(s, i1 + 1) {
                    None => None,
                    Some((pi, i2)) => match parse_varint(s, i2) {
                        None => None,
                        Some((lam, i3)) => if pi < peers.len() && 1 <= lam <= u32::MAX {
                            Some(
                                (
                                    Some(
                                        RecordModel {
                                            table: name,
                                            row: None,
                                            col: None,
                                            value: ValueModel::Deleted,
                                            id: OpId {
                                                lamport: lam as u32,
                                                peer: peers[pi as int],
                                            },
                                        },
                                    ),
                                    i3,
                                ),
                            )
                        } else {
                            None
                        },
                    },
                }
            } else {
                None
            };
            match after_flag {
                None => None,
                Some((del_rec, i4)) => match parse_str_list(s, i4) {
                    None => None,
                    Some((rows, i5)) => match parse_str_list(s, i5) {
                        None => None,
                        Some((cols, i6)) => match parse_block(s, i6) {
                            None => None,
                            Some((pres_b, i7)) => match parse_value_list(s, i7) {
                                None => None,
                                Some((vs, i8)) => match parse_block(s, i8) {
                                    None => None,
                                    Some((lam_b, i9)) => match parse_block(s, i9) {
                                        None => None,
                                        Some((pid_b, i10)) => match parse_block(s, i10) {
                                            None => None,
                                            Some((rowdel_b, i11)) => match parse_u64_list(
                                                s,
                                                i11,
                                            ) {
                                                None => None,
                                                Some((dps, i12)) => match parse_u64_list(s, i12) {
                                                    None => None,
                                                    Some((dls, i13)) => parse_section_body(
                                                        name,
                                                        peers,
                                                        del_rec,
                                                        rows,
                                                        cols,
                                                        pres_b,
                                                        vs,
                                                        lam_b,
                                                        pid_b,
                                                        rowdel_b,
                                                        dps,
                                                        dls,
                                                        i13,
                                                    ),
                                                },
                                            },
                                        },
                                    },
                                },
                            },
                        },
                    },
                },
            }
        },
    }
}

/// Decode the streams of a section and expand them into records.
pub open spec fn parse_section_body(
    name: Seq<char>,
    peers: Seq<u64>,
    del_rec: Option<RecordModel>,
    rows: Seq<Seq<char>>,
    cols: Seq<Seq<char>>,
    pres_b: Seq<u8>,
    vs: Seq<ValueModel>,
    lam_b: Seq<u8>,
    pid_b: Seq<u8>,
    rowdel_b: Seq<u8>,
    dps: Seq<u64>,
    dls: Seq<u64>,
    end: int,
) -> Option<(Seq<RecordModel>, int)> {
    match parse_bools(pres_b, 0, false) {
        None => None,
        Some(present) => match parse_deltas(lam_b, 0, 0) {
            None => None,
            Some(ls) => match parse_deltas(pid_b, 0, 0) {
                None => None,
                Some(ps) => match parse_bools(rowdel_b, 0, false) {
                    None => None,
                    Some(bits) => if present.len() != rows.len() * cols.len() || bits.len()
                        != rows.len() {
                        None
                    } else {
                        match expand_row_dels(name, rows, bits, dps, dls, peers, 0, 0) {
                            None => None,
                            Some(dels) => match expand_cells(
                                name,
                                rows,
                                cols,
                                present,
                                vs,
                                ls,
                                ps,
                                peers,
                                0,
                                0,
                            ) {
                                None => None,
                                Some(cells) => Some(
                                    (
                                        (match del_rec {
                                            Some(d) => seq![d],
                                            None => Seq::empty(),
                                        }) + dels + cells,
                                        end,
                                    ),
                                ),
                            },
                        }
                    },
                },
            },
        },
    }
}

/// Parse `count` table sections at `i`.
pub open spec fn parse_tables(s: Seq<u8>, i: int, count: nat, peers: Seq<u64>) -> Option<
    (Seq<RecordModel>, int),
>
    decreases count,
{
    if count == 0 {
        Some((Seq::empty(), i))
    } else {
        match parse_table_section(s, i, peers) {
            None => None,
            Some((rs, j)) => if j <= i {
                None
            } else {
                match parse_tables(s, j, (count - 1) as nat, peers) {
                    None => None,
                    Some((rest, k)) => Some((rs + rest, k)),
                }
            },
        }
    }
}

/// Parse a decompressed snapshot blob into its records, in replay order.
pub open spec fn parse_snapshot(b: Seq<u8>) -> Option<Seq<RecordModel>> {
    match parse_u64_list(b, 0) {
        None => None,
        Some((peers, i1)) => match parse_varint(b, i1) {
            None => None,
            Some((count, i2)) => match parse_tables(b, i2, count as nat, peers) {
                None => None,
                Some((rs, end)) => if end == b.len() {
                    Some(rs)
                } else {
                    None
                },
            },
        },
    }
}

/// Every record a snapshot parses to is well shaped.
pub proof fn lemma_snapshot_records_valid(b: Seq<u8>)
    ensures
        parse_snapshot(b) matches Some(rs) ==> forall|k: int|
            0 <= k < rs.len() ==> record_valid(#[trigger] rs[k]),
{
    if parse_snapshot(b) is Some {
        let (peers, i1) = parse_u64_list(b, 0).unwrap();
        let (count, i2) = parse_varint(b, i1).unwrap();
        lemma_parse_tables_valid(b, i2, count as nat, peers);
    }
}

proof fn lemma_parse_tables_valid(s: Seq<u8>, i: int, count: nat, peers: Seq<u64>)
    ensures
        parse_tables(s, i, count, peers) matches Some(p) ==> forall|k: int|
            0 <= k < p.0.len() ==> record_valid(#[trigger] p.0[k]),
    decreases count,
{
    if count > 0 {
        if parse_tables(s, i, count, peers) is Some {
            let p = parse_tables(s, i, count, peers).unwrap();
            let (rs, j) = parse_table_section(s, i, peers).unwrap();
            reveal(parse_table_section);
            lemma_parse_tables_valid(s, j, (count - 1) as nat, peers);
            lemma_section_records_valid(s, i, peers);
            let rest = parse_tables(s, j, (count - 1) as nat, peers).unwrap().0;
            assert forall|k: int| 0 <= k < p.0.len() implies record_valid(
                #[trigger] p.0[k],
            ) by {
                if k >= rs.len() {
                    assert(p.0[k] == rest[k - rs.len()]);
                } else {
                    assert(p.0[k] == rs[k]);
                }
            }
        }
    }
}

proof fn lemma_expand_row_dels_valid(
    t: Seq<char>,
    rows: Seq<Seq<char>>,
    bits: Seq<bool>,
    dps: Seq<u64>,
    dls: Seq<u64>,
    peers: Seq<u64>,
    k: nat,
    cur: nat,
)
    ensures
        expand_row_dels(t, rows, bits, dps, dls, peers, k, cur) matches Some(rs) ==> forall|q: int|
            0 <= q < rs.len() ==> record_valid(#[trigger] rs[q]),
    decreases bits.len() - k,
{
    if k < bits.len() {
        if !bits[k as int] {
            lemma_expand_row_dels_valid(t, rows, bits, dps, dls, peers, k + 1, cur);
        } else {
            lemma_expand_row_dels_valid(t, rows, bits, dps, dls, peers, k + 1, cur + 1);
            if expand_row_dels(t, rows, bits, dps, dls, peers, k, cur) is Some {
                let rs = expand_row_dels(t, rows, bits, dps, dls, peers, k, cur).unwrap();
                let rest = expand_row_dels(t, rows, bits, dps, dls, peers, k + 1, cur
                    + 1).unwrap();
                assert forall|q: int| 0 <= q < rs.len() implies record_valid(
                    #[trigger] rs[q],
                ) by {
                    if q > 0 {
                        assert(rs[q] == rest[q - 1]);
                    }
                }
            }
        }
    }
}

proof fn lemma_expand_cells_valid(
    t: Seq<char>,
    rows: Seq<Seq<char>>,
    cols: Seq<Seq<char>>,
    present: Seq<bool>,
    vs: Seq<ValueModel>,
    ls: Seq<i64>,
    ps: Seq<i64>,
    peers: Seq<u64>,
    k: nat,
    cur: nat,
)
    ensures
        expand_cells(t, rows, cols, present, vs, ls, ps, peers, k, cur) matches Some(rs)
            ==> forall|q: int| 0 <= q < rs.len() ==> record_valid(#[trigger] rs[q]),
    decreases present.len() - k,
{
    if k < present.len() {
        if !present[k as int] {
            lemma_expand_cells_valid(t, rows, cols, present, vs, ls, ps, peers, k + 1, cur);
        } else {
            lemma_expand_cells_valid(t, rows, cols, present, vs, ls, ps, peers, k + 1, cur + 1);
            if expand_cells(t, rows, cols, present, vs, ls, ps, peers, k, cur) is Some {
                let rs = expand_cells(t, rows, cols, present, vs, ls, ps, peers, k, cur).unwrap();
                let rest = expand_cells(
                    t,
                    rows,
                    cols,
                    present,
                    vs,
                    ls,
                    ps,
                    peers,
                    k + 1,
                    cur + 1,
                ).unwrap();
                assert forall|q: int| 0 <= q < rs.len() implies record_valid(
                    #[trigger] rs[q],
                ) by {
                    if q > 0 {
                        assert(rs[q] == rest[q - 1]);
                    }
                }
            }
        }
    }
}

proof fn lemma_section_records_valid(s: Seq<u8>, i: int, peers: Seq<u64>)
    ensures
        parse_table_section(s, i, peers) matches Some(p) ==> forall|k: int|
            0 <= k < p.0.len() ==> record_valid(#[trigger] p.0[k]),
{
    reveal(parse_table_section);
    if parse_table_section(s, i, peers) is Some {
        let p = parse_table_section(s, i, peers).unwrap();
        let (name, i1) = crate::encode::wire::parse_str(s, i).unwrap();
        let flag = s[i1];
        let (del_rec, i4): (Option<RecordModel>, int) = if flag == 0 {
            (None, i1 + 1)
        } else {
            let (pi, i2) = parse_varint(s, i1 + 1).unwrap();
            let (lam, i3) = parse_varint(s, i2).unwrap();
            (
                Some(
                    RecordModel {
                        table: name,
                        row: None,
                        col: None,
                        value: ValueModel::Deleted,
                        id: OpId { lamport: lam as u32, peer: peers[pi as int] },
                    },
                ),
                i3,
            )
        };
        let (rows, i5) = parse_str_list(s, i4).unwrap();
        let (cols, i6) = parse_str_list(s, i5).unwrap();
        let (pres_b, i7) = parse_block(s, i6).unwrap();
        let (vs, i8) = parse_value_list(s, i7).unwrap();
        let (lam_b, i9) = parse_block(s, i8).unwrap();
        let (pid_b, i10) = parse_block(s, i9).unwrap();
        let (rowdel_b, i11) = parse_block(s, i10).unwrap();
        let (dps, i12) = parse_u64_list(s, i11).unwrap();
        let (dls, i13) = parse_u64_list(s, i12).unwrap();
        let present = parse_bools(pres_b, 0, false).unwrap();
        let ls = parse_deltas(lam_b, 0, 0).unwrap();
        let ps = parse_deltas(pid_b, 0, 0).unwrap();
        let bits = parse_bools(rowdel_b, 0, false).unwrap();
        let dels = expand_row_dels(name, rows, bits, dps, dls, peers, 0, 0).unwrap();
        let cells = expand_cells(name, rows, cols, present, vs, ls, ps, peers, 0, 0).unwrap();
        lemma_expand_row_dels_valid(name, rows, bits, dps, dls, peers, 0, 0);
        lemma_expand_cells_valid(name, rows, cols, present, vs, ls, ps, peers, 0, 0);
        let head: Seq<RecordModel> = match del_rec {
            Some(d) => seq![d],
            None => Seq::empty(),
        };
        assert forall|k: int| 0 <= k < p.0.len() implies record_valid(#[trigger] p.0[k]) by {
            if k < head.len() {
                assert(p.0[k] == head[0]);
            } else if k < head.len() + dels.len() {
                assert(p.0[k] == dels[k - head.len()]);
            } else {
                assert(p.0[k] == cells[k - head.len() - dels.len()]);
            }
        }
    }
}

/// Decode one table section at `*pos`, advancing it.
#[verifier::rlimit(100)]
fn read_table_section(s: &[u8], pos: &mut usize, peers: &Vec<u64>) -> (r: Option<Vec<Record>>)
    requires
        *old(pos) <= s@.len(),
    ensures
        *final(pos) <= s@.len(),
        match parse_table_section(s@, *old(pos) as int, peers@) {
            Some(p) => r matches Some(v) && rec_views_of(v@) == p.0 && *final(pos) == p.1,
            None => r is None,
        },
{
    proof {
        reveal(parse_table_section);
    }
    let name = match read_string(s, pos) {
        None => {
            return None;
        },
        Some(v) => v,
    };
    if *pos >= s.len() {
        return None;
    }
    let flag = s[*pos];
    *pos = *pos + 1;
    let mut out: Vec<Record> = Vec::new();
    if flag == 1 {
        proof {
            lemma_parse_varint_bounds(s@, *pos as int);
        }
        let pi = match read_varint(s, pos) {
            None => {
                return None;
            },
            Some(v) => v,
        };
        proof {
            lemma_parse_varint_bounds(s@, *pos as int);
        }
        let lam = match read_varint(s, pos) {
            None => {
                return None;
            },
            Some(v) => v,
        };
        if !(pi < peers.len() as u64 && 1 <= lam && lam <= u32::MAX as u64) {
            return None;
        }
        out.push(
            Record {
                table: name.clone(),
                row: None,
                col: None,
                value: Value::Deleted,
                id: OpId { lamport: lam as u32, peer: peers[pi as usize] },
            },
        );
    } else if flag != 0 {
        return None;
    }
    let rows = match read_str_list(s, pos) {
        None => {
            return None;
        },
        Some(v) => v,
    };
    let cols = match read_str_list(s, pos) {
        None => {
            return None;
        },
        Some(v) => v,
    };
    let pres_b = match read_block(s, pos) {
        None => {
            return None;
        },
        Some(v) => v,
    };
    let vs = match read_value_list(s, pos) {
        None => {
            return None;
        },
        Some(v) => v,
    };
    let lam_b = match read_block(s, pos) {
        None => {
            return None;
        },
        Some(v) => v,
    };
    let pid_b = match read_block(s, pos) {
        None => {
            return None;
        },
        Some(v) => v,
    };
    let rowdel_b = match read_block(s, pos) {
        None => {
            return None;
        },
        Some(v) => v,
    };
    let dps = match read_u64_list(s, pos) {
        None => {
            return None;
        },
        Some(v) => v,
    };
    let dls = match read_u64_list(s, pos) {
        None => {
            return None;
        },
        Some(v) => v,
    };
    match section_records(out, &name, &rows, &cols, &pres_b, &vs, &lam_b, &pid_b, &rowdel_b, &dps, &dls, peers) {
        None => None,
        Some(full) => Some(full),
    }
}

/// Decode the streams of a section and expand them into records, after
/// the head record, mirroring [`parse_section_body`].
#[verifier::rlimit(100)]
fn section_records(
    head: Vec<Record>,
    name: &String,
    rows: &Vec<String>,
    cols: &Vec<String>,
    pres_b: &Vec<u8>,
    vs: &Vec<Value>,
    lam_b: &Vec<u8>,
    pid_b: &Vec<u8>,
    rowdel_b: &Vec<u8>,
    dps: &Vec<u64>,
    dls: &Vec<u64>,
    peers: &Vec<u64>,
) -> (r: Option<Vec<Record>>)
    ensures
        ({
            let body = parse_section_body(
                name@,
                peers@,
                None,
                views_of(rows@),
                views_of(cols@),
                pres_b@,
                val_views_of(vs@),
                lam_b@,
                pid_b@,
                rowdel_b@,
                dps@,
                dls@,
                0,
            );
            match body {
                Some(p) => r matches Some(v) && rec_views_of(v@) == rec_views_of(head@) + p.0,
                None => r is None,
            }
        }),
{
    let present = match crate::encode::bool_rle::bool_decode_all(pres_b.as_slice()) {
        None => {
            return None;
        },
        Some(v) => v,
    };
    let ls = match crate::encode::delta::delta_decode_all(lam_b.as_slice()) {
        None => {
            return None;
        },
        Some(v) => v,
    };
    let ps = match crate::encode::delta::delta_decode_all(pid_b.as_slice()) {
        None => {
            return None;
        },
        Some(v) => v,
    };
    let bits = match crate::encode::bool_rle::bool_decode_all(rowdel_b.as_slice()) {
        None => {
            return None;
        },
        Some(v) => v,
    };
    let grid_ok: bool = if cols.len() == 0 {
        present.len() == 0
    } else {
        present.len() % cols.len() == 0 && present.len() / cols.len() == rows.len()
    };
    proof {
        if cols@.len() > 0 {
            lemma_grid_len(present@.len() as int, rows@.len() as int, cols@.len() as int);
        }
    }
    if !grid_ok || bits.len() != rows.len() {
        proof {
            if !grid_ok {
                if cols@.len() == 0 {
                    assert(rows@.len() * cols@.len() == 0);
                    assert(present@.len() != rows@.len() * cols@.len());
                } else {
                    assert(present@.len() != rows@.len() * cols@.len());
                }
            }
        }
        return None;
    }
    let mut out = head;
    let ghost ghead = rec_views_of(out@);
    let mut dels = match expand_row_dels_exec(name, rows, &bits, dps, dls, peers) {
        None => {
            return None;
        },
        Some(v) => v,
    };
    let mut cells = match expand_cells_exec(name, rows, cols, &present, vs, &ls, &ps, peers) {
        None => {
            return None;
        },
        Some(v) => v,
    };
    let ghost gdels = rec_views_of(dels@);
    let ghost gcells = rec_views_of(cells@);
    out.append(&mut dels);
    out.append(&mut cells);
    proof {
        assert(rec_views_of(out@) =~= ghead + gdels + gcells);
    }
    Some(out)
}

/// A grid length is rows-by-columns exactly when division says so.
proof fn lemma_grid_len(len: int, r: int, c: int)
    requires
        0 <= len,
        0 <= r,
        c > 0,
    ensures
        (len == r * c) <==> (len % c == 0 && len / c == r),
{
    vstd::arithmetic::div_mod::lemma_fundamental_div_mod(len, c);
    if len % c == 0 && len / c == r {
        assert(len == c * (len / c));
        assert(c * r == r * c) by (nonlinear_arith);
    }
    if len == r * c {
        vstd::arithmetic::div_mod::lemma_mod_multiples_basic(r, c);
        vstd::arithmetic::div_mod::lemma_div_multiples_vanish(r, c);
        assert(r * c == c * r) by (nonlinear_arith);
    }
}

/// Expand the row-tombstone bitmap into records, mirroring the spec.
fn expand_row_dels_exec(
    name: &String,
    rows: &Vec<String>,
    bits: &Vec<bool>,
    dps: &Vec<u64>,
    dls: &Vec<u64>,
    peers: &Vec<u64>,
) -> (r: Option<Vec<Record>>)
    requires
        bits@.len() == rows@.len(),
    ensures
        match expand_row_dels(name@, views_of(rows@), bits@, dps@, dls@, peers@, 0, 0) {
            Some(rs) => r matches Some(v) && rec_views_of(v@) == rs,
            None => r is None,
        },
{
    let mut out: Vec<Record> = Vec::new();
    let mut k: usize = 0;
    let mut cur: usize = 0;
    let ghost gr = views_of(rows@);
    proof {
        match expand_row_dels(name@, gr, bits@, dps@, dls@, peers@, 0, 0) {
            Some(rest) => {
                assert(rec_views_of(out@) + rest =~= rest);
            },
            None => {},
        }
    }
    while k < bits.len()
        invariant
            k <= bits@.len(),
            bits@.len() == rows@.len(),
            gr == views_of(rows@),
            cur <= k,
            match expand_row_dels(name@, gr, bits@, dps@, dls@, peers@, k as nat, cur as nat) {
                Some(rest) => expand_row_dels(name@, gr, bits@, dps@, dls@, peers@, 0, 0) == Some(
                    rec_views_of(out@) + rest,
                ),
                None => expand_row_dels(name@, gr, bits@, dps@, dls@, peers@, 0, 0) is None,
            },
        decreases bits@.len() - k,
    {
        let ghost pre = rec_views_of(out@);
        if bits[k] {
            if cur >= dps.len() || cur >= dls.len() {
                return None;
            }
            if dps[cur] >= peers.len() as u64 || dls[cur] < 1 || dls[cur] > u32::MAX as u64 {
                return None;
            }
            out.push(
                Record {
                    table: name.clone(),
                    row: Some(rows[k].clone()),
                    col: None,
                    value: Value::Deleted,
                    id: OpId { lamport: dls[cur] as u32, peer: peers[dps[cur] as usize] },
                },
            );
            cur = cur + 1;
            proof {
                assert(rec_views_of(out@) =~= pre.push(out@.last()@));
                match expand_row_dels(
                    name@,
                    gr,
                    bits@,
                    dps@,
                    dls@,
                    peers@,
                    k as nat + 1,
                    cur as nat,
                ) {
                    Some(rest) => {
                        assert(pre + (seq![out@.last()@] + rest) =~= rec_views_of(out@) + rest);
                    },
                    None => {},
                }
            }
        }
        k += 1;
    }
    if cur != dps.len() || cur != dls.len() {
        return None;
    }
    proof {
        match expand_row_dels(name@, gr, bits@, dps@, dls@, peers@, k as nat, cur as nat) {
            Some(rest) => {
                assert(rec_views_of(out@) + rest =~= rec_views_of(out@));
            },
            None => {},
        }
    }
    Some(out)
}

/// Expand the presence bitmap into cell records, mirroring the spec.
#[verifier::rlimit(60)]
fn expand_cells_exec(
    name: &String,
    rows: &Vec<String>,
    cols: &Vec<String>,
    present: &Vec<bool>,
    vs: &Vec<Value>,
    ls: &Vec<i64>,
    ps: &Vec<i64>,
    peers: &Vec<u64>,
) -> (r: Option<Vec<Record>>)
    requires
        present@.len() == rows@.len() * cols@.len(),
    ensures
        match expand_cells(
            name@,
            views_of(rows@),
            views_of(cols@),
            present@,
            val_views_of(vs@),
            ls@,
            ps@,
            peers@,
            0,
            0,
        ) {
            Some(rs) => r matches Some(v) && rec_views_of(v@) == rs,
            None => r is None,
        },
{
    let mut out: Vec<Record> = Vec::new();
    let mut k: usize = 0;
    let mut cur: usize = 0;
    let ghost gr = views_of(rows@);
    let ghost gc = views_of(cols@);
    let ghost gv = val_views_of(vs@);
    proof {
        match expand_cells(name@, gr, gc, present@, gv, ls@, ps@, peers@, 0, 0) {
            Some(rest) => {
                assert(rec_views_of(out@) + rest =~= rest);
            },
            None => {},
        }
    }
    while k < present.len()
        invariant
            k <= present@.len(),
            cur <= k,
            present@.len() == rows@.len() * cols@.len(),
            gr == views_of(rows@),
            gc == views_of(cols@),
            gv == val_views_of(vs@),
            match expand_cells(name@, gr, gc, present@, gv, ls@, ps@, peers@, k as nat, cur as nat) {
                Some(rest) => expand_cells(name@, gr, gc, present@, gv, ls@, ps@, peers@, 0, 0)
                    == Some(rec_views_of(out@) + rest),
                None => expand_cells(name@, gr, gc, present@, gv, ls@, ps@, peers@, 0, 0) is None,
            },
        decreases present@.len() - k,
    {
        let ghost pre = rec_views_of(out@);
        if present[k] {
            if rows.len() == 0 || cur >= vs.len() || cur >= ls.len() || cur >= ps.len() {
                return None;
            }
            let c = k / rows.len();
            let rix = k % rows.len();
            if c >= cols.len() {
                return None;
            }
            if (ps[cur] as u64) >= peers.len() as u64 || (ls[cur] as u64) < 1 || (ls[cur] as u64)
                > u32::MAX as u64 {
                return None;
            }
            out.push(
                Record {
                    table: name.clone(),
                    row: Some(rows[rix].clone()),
                    col: Some(cols[c].clone()),
                    value: vs[cur].dup(),
                    id: OpId {
                        lamport: (ls[cur] as u64) as u32,
                        peer: peers[(ps[cur] as u64) as usize],
                    },
                },
            );
            cur = cur + 1;
            proof {
                assert(rec_views_of(out@) =~= pre.push(out@.last()@));
                match expand_cells(
                    name@,
                    gr,
                    gc,
                    present@,
                    gv,
                    ls@,
                    ps@,
                    peers@,
                    k as nat + 1,
                    cur as nat,
                ) {
                    Some(rest) => {
                        assert(pre + (seq![out@.last()@] + rest) =~= rec_views_of(out@) + rest);
                    },
                    None => {},
                }
            }
        }
        k += 1;
    }
    if cur != vs.len() || cur != ls.len() || cur != ps.len() {
        return None;
    }
    proof {
        match expand_cells(name@, gr, gc, present@, gv, ls@, ps@, peers@, k as nat, cur as nat) {
            Some(rest) => {
                assert(rec_views_of(out@) + rest =~= rec_views_of(out@));
            },
            None => {},
        }
    }
    Some(out)
}

/// Decode a decompressed snapshot blob.
#[verifier::rlimit(100)]
fn read_snapshot(b: &[u8]) -> (r: Option<Vec<Record>>)
    ensures
        match parse_snapshot(b@) {
            Some(rs) => r matches Some(v) && rec_views_of(v@) == rs,
            None => r is None,
        },
{
    let mut pos: usize = 0;
    let peers = match read_u64_list(b, &mut pos) {
        None => {
            return None;
        },
        Some(v) => v,
    };
    proof {
        lemma_parse_varint_bounds(b@, pos as int);
    }
    let count = match read_varint(b, &mut pos) {
        None => {
            return None;
        },
        Some(v) => v,
    };
    let mut out: Vec<Record> = Vec::new();
    let mut left = count;
    let ghost start = pos as int;
    proof {
        match parse_tables(b@, start, count as nat, peers@) {
            Some(p) => {
                assert(rec_views_of(out@) + p.0 =~= p.0);
            },
            None => {},
        }
    }
    while left > 0
        invariant
            pos <= b@.len(),
            left <= count,
            parse_snapshot(b@) == (match parse_tables(b@, start, count as nat, peers@) {
                None => None::<Seq<RecordModel>>,
                Some(p) => if p.1 == b@.len() {
                    Some(p.0)
                } else {
                    None
                },
            }),
            match parse_tables(b@, pos as int, left as nat, peers@) {
                Some(p) => parse_tables(b@, start, count as nat, peers@) matches Some(q) && q.0
                    == rec_views_of(out@) + p.0 && q.1 == p.1,
                None => parse_tables(b@, start, count as nat, peers@) is None,
            },
        decreases left,
    {
        let prev_pos = pos;
        let ghost pre = rec_views_of(out@);
        let mut sect = match read_table_section(b, &mut pos, &peers) {
            None => {
                return None;
            },
            Some(v) => v,
        };
        if pos <= prev_pos {
            return None;
        }
        let ghost gsect = rec_views_of(sect@);
        out.append(&mut sect);
        left = left - 1;
        proof {
            assert(rec_views_of(out@) =~= pre + gsect);
            match parse_tables(b@, pos as int, left as nat, peers@) {
                Some(p) => {
                    assert(pre + (gsect + p.0) =~= rec_views_of(out@) + p.0);
                },
                None => {},
            }
        }
    }
    if pos != b.len() {
        return None;
    }
    proof {
        match parse_tables(b@, pos as int, 0nat, peers@) {
            Some(p) => {
                assert(rec_views_of(out@) + p.0 =~= rec_views_of(out@));
            },
            None => {},
        }
    }
    Some(out)
}

/// The bytes of `b` sit verbatim at position `i` of `s`.
pub open spec fn bytes_at(s: Seq<u8>, i: int, b: Seq<u8>) -> bool {
    0 <= i && i + b.len() <= s.len() && forall|k: int| 0 <= k < b.len() ==> s[i + k] == b[k]
}

/// A finished table section: wherever its bytes are placed, they parse to
/// exactly these records and end right after.
pub open spec fn sect_ok(b: Seq<u8>, rs: Seq<RecordModel>, peers: Seq<u64>) -> bool {
    b.len() > 0 && forall|s: Seq<u8>, i: int|
        bytes_at(s, i, b) ==> parse_table_section(s, i, peers) == Some((rs, i + b.len()))
}

/// A snapshot record read off one table: a current cell, a row tombstone
/// or the table tombstone, verbatim.
pub open spec fn snap_record_sound(r: RecordModel, tn: Seq<char>, tm: TableModel) -> bool {
    &&& r.table == tn
    &&& record_valid(r)
    &&& match (r.row, r.col) {
        (Some(row), Some(col)) => tm.rows.contains_key(row) && tm.rows[row].cells.contains_key(
            col,
        ) && tm.rows[row].cells[col] == (crate::table::CellModel { value: r.value, id: r.id }),
        (Some(row), None) => tm.rows.contains_key(row) && tm.rows[row].cleared_at == Some(r.id),
        (None, _) => tm.removed == Some(r.id),
    }
}

/// Every record of a section is read off the table.
pub open spec fn table_section_sound(rs: Seq<RecordModel>, tn: Seq<char>, tm: TableModel) -> bool {
    forall|k: int| 0 <= k < rs.len() ==> snap_record_sound(#[trigger] rs[k], tn, tm)
}

/// Every cell and tombstone of the table has its record.
pub open spec fn table_section_complete(
    rs: Seq<RecordModel>,
    tn: Seq<char>,
    tm: TableModel,
) -> bool {
    &&& (tm.removed matches Some(d) ==> rs.contains(
        RecordModel { table: tn, row: None, col: None, value: ValueModel::Deleted, id: d },
    ))
    &&& forall|row: Seq<char>|
        #[trigger] tm.rows.contains_key(row) ==> (tm.rows[row].cleared_at matches Some(c)
            ==> rs.contains(
            RecordModel { table: tn, row: Some(row), col: None, value: ValueModel::Deleted, id: c },
        ))
    &&& forall|row: Seq<char>, col: Seq<char>|
        tm.rows.contains_key(row) && #[trigger] tm.rows[row].cells.contains_key(col)
            ==> rs.contains(crate::encode::delta::cell_record(tn, row, col, tm.rows[row].cells[col]))
}

/// Every snapshot record is read off the table it names.
pub open spec fn snapshot_sound(rs: Seq<RecordModel>, m: Map<Seq<char>, TableModel>) -> bool {
    forall|k: int|
        0 <= k < rs.len() ==> m.contains_key((#[trigger] rs[k]).table) && snap_record_sound(
            rs[k],
            rs[k].table,
            m[rs[k].table],
        )
}

/// Every cell and tombstone of every table has its record.
pub open spec fn snapshot_complete(rs: Seq<RecordModel>, m: Map<Seq<char>, TableModel>) -> bool {
    forall|t: Seq<char>| #[trigger] m.contains_key(t) ==> table_section_complete(rs, t, m[t])
}

/// Bytes placed as a concatenation place each part at its offset.
proof fn lemma_bytes_at_split(s: Seq<u8>, i: int, a: Seq<u8>, b: Seq<u8>)
    requires
        bytes_at(s, i, a + b),
    ensures
        bytes_at(s, i, a),
        bytes_at(s, i + a.len(), b),
{
    assert forall|k: int| 0 <= k < a.len() implies s[i + k] == a[k] by {
        assert((a + b)[k] == a[k]);
    }
    assert forall|k: int| 0 <= k < b.len() implies s[i + a.len() + k] == b[k] by {
        assert((a + b)[a.len() + k] == b[k]);
        assert(s[i + (a.len() + k)] == (a + b)[a.len() + k]);
    }
}

/// A string pool holds some entry with these characters.
pub open spec fn pool_has_col(pool: Seq<String>, x: Seq<char>) -> bool {
    exists|ci: int| 0 <= ci < pool.len() && (#[trigger] pool[ci])@ == x
}

/// The pool holds every peer the table mentions.
pub open spec fn pool_covers_table(pool: Seq<u64>, tm: TableModel) -> bool {
    &&& (tm.removed matches Some(d) ==> pool.contains(d.peer))
    &&& forall|r: Seq<char>|
        #[trigger] tm.rows.contains_key(r) ==> (tm.rows[r].cleared_at matches Some(c)
            ==> pool.contains(c.peer)) && (forall|c2: Seq<char>|
            #[trigger] tm.rows[r].cells.contains_key(c2) ==> pool.contains(
                tm.rows[r].cells[c2].id.peer,
            ))
}

/// Appending an absent bit leaves an expansion unchanged.
proof fn lemma_expand_cells_snoc_false(
    t: Seq<char>,
    rows: Seq<Seq<char>>,
    cols: Seq<Seq<char>>,
    present: Seq<bool>,
    vs: Seq<ValueModel>,
    ls: Seq<i64>,
    ps: Seq<i64>,
    peers: Seq<u64>,
    k: nat,
    cur: nat,
)
    requires
        k <= present.len(),
        expand_cells(t, rows, cols, present, vs, ls, ps, peers, k, cur) is Some,
    ensures
        expand_cells(t, rows, cols, present.push(false), vs, ls, ps, peers, k, cur)
            == expand_cells(t, rows, cols, present, vs, ls, ps, peers, k, cur),
    decreases present.len() - k,
{
    let pp = present.push(false);
    if k == present.len() {
        assert(!pp[k as int]);
        assert(expand_cells(t, rows, cols, pp, vs, ls, ps, peers, k + 1, cur) == expand_cells(
            t,
            rows,
            cols,
            present,
            vs,
            ls,
            ps,
            peers,
            k,
            cur,
        ));
    } else {
        assert(pp[k as int] == present[k as int]);
        if !present[k as int] {
            lemma_expand_cells_snoc_false(t, rows, cols, present, vs, ls, ps, peers, k + 1, cur);
        } else {
            lemma_expand_cells_snoc_false(
                t,
                rows,
                cols,
                present,
                vs,
                ls,
                ps,
                peers,
                k + 1,
                cur + 1,
            );
        }
    }
}

/// Appending a present bit with its value, lamport and peer index appends
/// exactly that cell's record to an expansion.
proof fn lemma_expand_cells_snoc_true(
    t: Seq<char>,
    rows: Seq<Seq<char>>,
    cols: Seq<Seq<char>>,
    present: Seq<bool>,
    vs: Seq<ValueModel>,
    ls: Seq<i64>,
    ps: Seq<i64>,
    peers: Seq<u64>,
    k: nat,
    cur: nat,
    v: ValueModel,
    l: i64,
    p: i64,
)
    requires
        k <= present.len(),
        expand_cells(t, rows, cols, present, vs, ls, ps, peers, k, cur) is Some,
        rows.len() > 0,
        (present.len() as int) / (rows.len() as int) < cols.len(),
        (p as u64) < peers.len(),
        1 <= (l as u64) <= u32::MAX,
    ensures
        expand_cells(
            t,
            rows,
            cols,
            present.push(true),
            vs.push(v),
            ls.push(l),
            ps.push(p),
            peers,
            k,
            cur,
        ) == Some(
            expand_cells(t, rows, cols, present, vs, ls, ps, peers, k, cur).unwrap().push(
                RecordModel {
                    table: t,
                    row: Some(rows[(present.len() as int) % (rows.len() as int)]),
                    col: Some(cols[(present.len() as int) / (rows.len() as int)]),
                    value: v,
                    id: OpId { lamport: ((l as u64) as u32), peer: peers[(p as u64) as int] },
                },
            ),
        ),
    decreases present.len() - k,
{
    let pp = present.push(true);
    let vv = vs.push(v);
    let ll = ls.push(l);
    let psp = ps.push(p);
    let newrec = RecordModel {
        table: t,
        row: Some(rows[(present.len() as int) % (rows.len() as int)]),
        col: Some(cols[(present.len() as int) / (rows.len() as int)]),
        value: v,
        id: OpId { lamport: ((l as u64) as u32), peer: peers[(p as u64) as int] },
    };
    if k == present.len() {
        assert(cur == vs.len() && cur == ls.len() && cur == ps.len());
        assert(pp[k as int]);
        assert(vv[cur as int] == v && ll[cur as int] == l && psp[cur as int] == p);
        assert(expand_cells(t, rows, cols, pp, vv, ll, psp, peers, k + 1, cur + 1) == Some(
            Seq::<RecordModel>::empty(),
        ));
        assert(expand_cells(t, rows, cols, pp, vv, ll, psp, peers, k, cur) matches Some(one)
            && one =~= Seq::<RecordModel>::empty().push(newrec));
    } else {
        assert(pp[k as int] == present[k as int]);
        if !present[k as int] {
            lemma_expand_cells_snoc_true(
                t,
                rows,
                cols,
                present,
                vs,
                ls,
                ps,
                peers,
                k + 1,
                cur,
                v,
                l,
                p,
            );
        } else {
            assert(cur < vs.len() && cur < ls.len() && cur < ps.len());
            assert(vv[cur as int] == vs[cur as int] && ll[cur as int] == ls[cur as int] && psp[
                cur as int
            ] == ps[cur as int]);
            lemma_expand_cells_snoc_true(
                t,
                rows,
                cols,
                present,
                vs,
                ls,
                ps,
                peers,
                k + 1,
                cur + 1,
                v,
                l,
                p,
            );
            let old_rest = expand_cells(
                t,
                rows,
                cols,
                present,
                vs,
                ls,
                ps,
                peers,
                (k + 1) as nat,
                (cur + 1) as nat,
            ).unwrap();
            let head = expand_cells(t, rows, cols, present, vs, ls, ps, peers, k, cur).unwrap()[0];
            assert(seq![head] + old_rest.push(newrec) =~= (seq![head] + old_rest).push(newrec));
        }
    }
}

/// Appending an undeleted row bit leaves a tombstone expansion unchanged.
proof fn lemma_expand_dels_snoc_false(
    t: Seq<char>,
    rows: Seq<Seq<char>>,
    bits: Seq<bool>,
    dps: Seq<u64>,
    dls: Seq<u64>,
    peers: Seq<u64>,
    k: nat,
    cur: nat,
)
    requires
        k <= bits.len(),
        expand_row_dels(t, rows, bits, dps, dls, peers, k, cur) is Some,
    ensures
        expand_row_dels(t, rows, bits.push(false), dps, dls, peers, k, cur) == expand_row_dels(
            t,
            rows,
            bits,
            dps,
            dls,
            peers,
            k,
            cur,
        ),
    decreases bits.len() - k,
{
    let bb = bits.push(false);
    if k == bits.len() {
        assert(!bb[k as int]);
        assert(expand_row_dels(t, rows, bb, dps, dls, peers, k + 1, cur) == expand_row_dels(
            t,
            rows,
            bits,
            dps,
            dls,
            peers,
            k,
            cur,
        ));
    } else {
        assert(bb[k as int] == bits[k as int]);
        if !bits[k as int] {
            lemma_expand_dels_snoc_false(t, rows, bits, dps, dls, peers, k + 1, cur);
        } else {
            lemma_expand_dels_snoc_false(t, rows, bits, dps, dls, peers, k + 1, cur + 1);
        }
    }
}

/// Appending a deleted row bit with its peer index and lamport appends
/// exactly that tombstone's record.
proof fn lemma_expand_dels_snoc_true(
    t: Seq<char>,
    rows: Seq<Seq<char>>,
    bits: Seq<bool>,
    dps: Seq<u64>,
    dls: Seq<u64>,
    peers: Seq<u64>,
    k: nat,
    cur: nat,
    dp: u64,
    dl: u64,
)
    requires
        k <= bits.len(),
        expand_row_dels(t, rows, bits, dps, dls, peers, k, cur) is Some,
        dp < peers.len(),
        1 <= dl <= u32::MAX,
    ensures
        expand_row_dels(t, rows, bits.push(true), dps.push(dp), dls.push(dl), peers, k, cur)
            == Some(
            expand_row_dels(t, rows, bits, dps, dls, peers, k, cur).unwrap().push(
                RecordModel {
                    table: t,
                    row: Some(rows[bits.len() as int]),
                    col: None,
                    value: ValueModel::Deleted,
                    id: OpId { lamport: dl as u32, peer: peers[dp as int] },
                },
            ),
        ),
    decreases bits.len() - k,
{
    let bb = bits.push(true);
    let pp = dps.push(dp);
    let ll = dls.push(dl);
    let newrec = RecordModel {
        table: t,
        row: Some(rows[bits.len() as int]),
        col: None,
        value: ValueModel::Deleted,
        id: OpId { lamport: dl as u32, peer: peers[dp as int] },
    };
    if k == bits.len() {
        assert(cur == dps.len() && cur == dls.len());
        assert(bb[k as int]);
        assert(pp[cur as int] == dp && ll[cur as int] == dl);
        assert(expand_row_dels(t, rows, bb, pp, ll, peers, k + 1, cur + 1) == Some(
            Seq::<RecordModel>::empty(),
        ));
        assert(expand_row_dels(t, rows, bb, pp, ll, peers, k, cur) matches Some(one) && one
            =~= Seq::<RecordModel>::empty().push(newrec));
    } else {
        assert(bb[k as int] == bits[k as int]);
        if !bits[k as int] {
            lemma_expand_dels_snoc_true(t, rows, bits, dps, dls, peers, k + 1, cur, dp, dl);
        } else {
            assert(cur < dps.len() && cur < dls.len());
            assert(pp[cur as int] == dps[cur as int] && ll[cur as int] == dls[cur as int]);
            lemma_expand_dels_snoc_true(t, rows, bits, dps, dls, peers, k + 1, cur + 1, dp, dl);
            let old_rest = expand_row_dels(
                t,
                rows,
                bits,
                dps,
                dls,
                peers,
                (k + 1) as nat,
                (cur + 1) as nat,
            ).unwrap();
            let head = expand_row_dels(t, rows, bits, dps, dls, peers, k, cur).unwrap()[0];
            assert(seq![head] + old_rest.push(newrec) =~= (seq![head] + old_rest).push(newrec));
        }
    }
}

impl Record {
    /// A copy whose model equals the original's.
    pub fn dup(&self) -> (r: Record)
        ensures
            r@ == self@,
    {
        Record {
            table: self.table.clone(),
            row: match &self.row {
                Some(x) => Some(x.clone()),
                None => None,
            },
            col: match &self.col {
                Some(x) => Some(x.clone()),
                None => None,
            },
            value: self.value.dup(),
            id: self.id,
        }
    }
}

impl LwwDb {
    /// Rebuild a database from a snapshot blob: every decoded record is
    /// replayed through the regular merge path on a fresh replica, which
    /// also reconstructs the operation log. Bytes that are no compressor
    /// frame, or whose payload is no well-formed snapshot, fail with the
    /// matching error; the replica's fresh random peer id is drawn last,
    /// and a failed draw is the one failure the bytes do not decide.
    #[verifier::rlimit(60)]
    pub fn from_snapshot(bytes: &[u8]) -> (r: Result<LwwDb, DecodeError>)
        ensures
            r matches Ok(db) ==> db.wf(),
            match zstd_decode(bytes@) {
                None => r matches Err(e) && e == DecodeError::Compression,
                Some(bv) => match parse_snapshot(bv) {
                    None => r matches Err(e) && e == DecodeError::Malformed,
                    Some(rs) => (r matches Err(e) && e == DecodeError::Entropy) || (r matches Ok(db)
                        && db.model() == apply_records(
                        Map::<Seq<char>, crate::table::TableModel>::empty(),
                        Map::<u64, Map<u32, crate::oplog::OpModel>>::empty(),
                        rs,
                    ).0 && db.oplog@ == apply_records(
                        Map::<Seq<char>, crate::table::TableModel>::empty(),
                        Map::<u64, Map<u32, crate::oplog::OpModel>>::empty(),
                        rs,
                    ).1),
                },
            },
    {
        let decompressed = match crate::encode::compress::zstd_decompress(bytes) {
            None => {
                return Err(DecodeError::Compression);
            },
            Some(v) => v,
        };
        let mut records = match read_snapshot(decompressed.as_slice()) {
            None => {
                return Err(DecodeError::Malformed);
            },
            Some(v) => v,
        };
        proof {
            lemma_snapshot_records_valid(decompressed@);
            if let Some(rs) = parse_snapshot(decompressed@) {
                assert forall|k: int| 0 <= k < records@.len() implies record_valid(
                    (#[trigger] records@[k])@,
                ) by {
                    assert(rec_views_of(records@)[k] == records@[k]@);
                }
            }
        }
        let mut db = match LwwDb::new() {
            None => {
                return Err(DecodeError::Entropy);
            },
            Some(d) => d,
        };
        let ghost rs0 = rec_views_of(records@);
        proof {
            assert(db.model() =~= Map::<Seq<char>, crate::table::TableModel>::empty());
        }
        while records.len() > 0
            invariant
                db.wf(),
                forall|k: int|
                    0 <= k < records@.len() ==> record_valid((#[trigger] records@[k])@),
                apply_records(
                    Map::<Seq<char>, crate::table::TableModel>::empty(),
                    Map::<u64, Map<u32, crate::oplog::OpModel>>::empty(),
                    rs0,
                ) == apply_records(db.model(), db.oplog@, rec_views_of(records@)),
            decreases records@.len(),
        {
            let ghost pre_records = records@;
            let rec = records.remove(0);
            proof {
                assert(rec_views_of(pre_records).first() == rec@);
                assert(rec_views_of(records@) =~= rec_views_of(pre_records).drop_first());
            }
            db.apply_op(rec);
        }
        proof {
            assert(rec_views_of(records@) =~= Seq::<RecordModel>::empty());
        }
        Ok(db)
    }

    /// Serialize the whole current state: peers pool, then one section per
    /// table, the lot compressed. The decompressed blob parses to records
    /// that are exactly the database's cells and tombstones.
    #[verifier::rlimit(100)]
    pub fn export_snapshot(&self) -> (out: Vec<u8>)
        requires
            self.wf(),
        ensures
            exists|rs: Seq<RecordModel>|
                {
                    &&& #[trigger] snapshot_bundle(out@, rs)
                    &&& snapshot_sound(rs, self.model())
                    &&& snapshot_complete(rs, self.model())
                },
    {
        let ghost m = self.model();
        // First pass: name every peer the state mentions in the pool.
        let mut peers = Register::new();
        let mut i: usize = 0;
        while i < self.tables.len()
            invariant
                i <= self.tables@.len(),
                self.wf(),
                m == self.model(),
                peers.wf(),
                forall|q: int|
                    0 <= q < i ==> pool_covers_table(peers.pool@, (#[trigger] self.tables@[q]).table@),
            decreases self.tables@.len() - i,
        {
            let ghost pool0 = peers.pool@;
            proof {
                crate::db::lemma_tables_contains(self.tables@, self.tables@[i as int].name@);
            }
            register_table_peers(&self.tables[i].table, &mut peers);
            proof {
                assert forall|q: int| 0 <= q < i + 1 implies pool_covers_table(
                    peers.pool@,
                    (#[trigger] self.tables@[q]).table@,
                ) by {
                    if q < i {
                        lemma_covers_mono(pool0, peers.pool@, self.tables@[q].table@);
                    }
                }
            }
            i += 1;
        }
        // Second pass: one section per table against the fixed pool.
        let mut sections: Vec<u8> = Vec::new();
        let ghost mut sects: Seq<(Seq<u8>, Seq<RecordModel>)> = Seq::empty();
        let ghost mut acc: Seq<RecordModel> = Seq::empty();
        let mut k: usize = 0;
        proof {
            assert(sections@ =~= sections_bytes(sects));
            assert(acc =~= sections_recs(sects));
        }
        while k < self.tables.len()
            invariant
                k <= self.tables@.len(),
                self.wf(),
                m == self.model(),
                peers.wf(),
                forall|q: int|
                    0 <= q < self.tables@.len() ==> pool_covers_table(
                        peers.pool@,
                        (#[trigger] self.tables@[q]).table@,
                    ),
                sects.len() == k,
                sections@ == sections_bytes(sects),
                acc == sections_recs(sects),
                forall|q: int|
                    0 <= q < sects.len() ==> sect_ok(
                        (#[trigger] sects[q]).0,
                        sects[q].1,
                        peers.pool@,
                    ),
                snapshot_sound(acc, m),
                forall|q: int|
                    0 <= q < k ==> table_section_complete(
                        acc,
                        (#[trigger] self.tables@[q]).name@,
                        self.tables@[q].table@,
                    ),
            decreases self.tables@.len() - k,
        {
            proof {
                crate::table::lemma_rows_contains(self.tables@[k as int].table.rows@, Seq::empty());
                crate::db::lemma_tables_contains(self.tables@, self.tables@[k as int].name@);
                lemma_assoc_index_tables(self.tables@, k as int);
            }
            let (mut sect, grs) = snapshot_table(
                &self.tables[k].name,
                &self.tables[k].table,
                &peers,
            );
            let ghost sect_bytes = sect@;
            let ghost rs_t = grs@;
            let ghost acc0 = acc;
            let ghost sects0 = sects;
            sections.append(&mut sect);
            proof {
                sects = sects.push((sect_bytes, rs_t));
                acc = acc + rs_t;
                lemma_sections_bytes_snoc(sects0, (sect_bytes, rs_t));
                lemma_sections_recs_snoc(sects0, (sect_bytes, rs_t));
                assert(sections@ == sections_bytes(sects));
                assert(acc == sections_recs(sects));
                assert forall|q: int| 0 <= q < sects.len() implies sect_ok(
                    (#[trigger] sects[q]).0,
                    sects[q].1,
                    peers.pool@,
                ) by {
                    if q < sects0.len() {
                        assert(sects[q] == sects0[q]);
                    }
                }
                let tn = self.tables@[k as int].name@;
                let tm = self.tables@[k as int].table@;
                assert(m.contains_key(tn) && m[tn] == tm);
                assert forall|w: int| 0 <= w < acc.len() implies m.contains_key(
                    (#[trigger] acc[w]).table,
                ) && snap_record_sound(acc[w], acc[w].table, m[acc[w].table]) by {
                    if w < acc0.len() {
                        assert(acc[w] == acc0[w]);
                    } else {
                        assert(acc[w] == rs_t[w - acc0.len()]);
                        assert(snap_record_sound(rs_t[w - acc0.len()], tn, tm));
                    }
                }
                assert forall|q: int| 0 <= q < k + 1 implies table_section_complete(
                    acc,
                    (#[trigger] self.tables@[q]).name@,
                    self.tables@[q].table@,
                ) by {
                    if q < k {
                        lemma_table_complete_mono(
                            acc0,
                            acc,
                            self.tables@[q].name@,
                            self.tables@[q].table@,
                        );
                    } else {
                        lemma_table_complete_shift(
                            rs_t,
                            acc0,
                            tn,
                            tm,
                        );
                    }
                }
            }
            k += 1;
        }
        let peers_vec = peers.finish();
        let mut blob: Vec<u8> = Vec::new();
        push_u64_list(&mut blob, &peers_vec);
        let ghost h1 = crate::varint::varint(peers_vec@.len() as u64) + u64s_bytes(peers_vec@);
        let tcount: u64 = self.tables.len() as u64;
        push_varint(&mut blob, tcount);
        let ghost h2 = crate::varint::varint(tcount);
        let mut sections2 = sections;
        blob.append(&mut sections2);
        proof {
            assert(blob@ =~= h1 + h2 + sections_bytes(sects));
            assert(peers_vec@.len() == peers_vec.len());
            crate::varint::lemma_varint_round_trip(blob@, 0, peers_vec@.len() as u64);
            assert forall|w: int| 0 <= w < u64s_bytes(peers_vec@).len() implies #[trigger] u64s_bytes(peers_vec@)[w] == blob@[crate::varint::varint(peers_vec@.len() as u64).len() + w] by {
                assert(h1[crate::varint::varint(peers_vec@.len() as u64).len() + w] == u64s_bytes(
                    peers_vec@,
                )[w]);
            }
            crate::encode::wire::lemma_u64s_round_trip(
                blob@,
                crate::varint::varint(peers_vec@.len() as u64).len() as int,
                peers_vec@,
            );
            let i1 = h1.len() as int;
            assert forall|w: int| 0 <= w < h2.len() implies #[trigger] h2[w] == blob@[i1 + w] by {}
            crate::varint::lemma_varint_round_trip(blob@, i1, tcount);
            let i2 = i1 + h2.len();
            assert forall|w: int| 0 <= w < sections_bytes(sects).len() implies #[trigger] sections_bytes(sects)[w] == blob@[i2 + w] by {}
            assert(bytes_at(blob@, i2, sections_bytes(sects)));
            lemma_sections_parse(blob@, i2, sects, peers.pool@);
            assert(tcount as nat == sects.len());
            assert(i2 + sections_bytes(sects).len() == blob@.len());
            assert(parse_snapshot(blob@) == Some(acc));
            assert(snapshot_complete(acc, m)) by {
                assert forall|t2: Seq<char>| #[trigger] m.contains_key(t2) implies
                table_section_complete(acc, t2, m[t2]) by {
                    crate::db::lemma_tables_contains(self.tables@, t2);
                    let q = choose|q: int|
                        0 <= q < self.tables@.len() && (#[trigger] self.tables@[q]).name@ == t2;
                    lemma_assoc_index_tables(self.tables@, q);
                }
            }
        }
        let out = crate::encode::compress::zstd_compress(&blob);
        proof {
            let bv = blob@;
            assert(out@ == zstd_frame(bv) && zstd_decode(out@) == Some(bv) && parse_snapshot(bv)
                == Some(acc));
            assert(snapshot_bundle(out@, acc));
        }
        out
    }
}

/// The compressed bytes carry exactly these snapshot records: they are
/// one frame, decompression recovers its payload, and the payload parses
/// to `rs`.
pub open spec fn snapshot_bundle(out: Seq<u8>, rs: Seq<RecordModel>) -> bool {
    exists|bv: Seq<u8>|
        out == #[trigger] zstd_frame(bv) && zstd_decode(out) == Some(bv) && parse_snapshot(bv)
            == Some(rs)
}

/// The byte concatenation of a run of sections.
pub open spec fn sections_bytes(sects: Seq<(Seq<u8>, Seq<RecordModel>)>) -> Seq<u8>
    decreases sects.len(),
{
    if sects.len() == 0 {
        Seq::empty()
    } else {
        sects.first().0 + sections_bytes(sects.drop_first())
    }
}

/// The record concatenation of a run of sections.
pub open spec fn sections_recs(sects: Seq<(Seq<u8>, Seq<RecordModel>)>) -> Seq<RecordModel>
    decreases sects.len(),
{
    if sects.len() == 0 {
        Seq::empty()
    } else {
        sects.first().1 + sections_recs(sects.drop_first())
    }
}

/// Appending a section appends its bytes.
proof fn lemma_sections_bytes_snoc(sects: Seq<(Seq<u8>, Seq<RecordModel>)>, x: (
    Seq<u8>,
    Seq<RecordModel>,
))
    ensures
        sections_bytes(sects.push(x)) == sections_bytes(sects) + x.0,
    decreases sects.len(),
{
    if sects.len() == 0 {
        assert(sects.push(x).first() == x);
        assert(sects.push(x).drop_first() =~= Seq::<(Seq<u8>, Seq<RecordModel>)>::empty());
        assert(sections_bytes(sects.push(x).drop_first()) =~= Seq::<u8>::empty());
        assert(sections_bytes(sects) =~= Seq::<u8>::empty());
        assert(sections_bytes(sects.push(x)) =~= sections_bytes(sects) + x.0);
    } else {
        assert(sects.push(x).first() == sects.first());
        assert(sects.push(x).drop_first() =~= sects.drop_first().push(x));
        lemma_sections_bytes_snoc(sects.drop_first(), x);
        assert(sections_bytes(sects.push(x)) =~= sections_bytes(sects) + x.0);
    }
}

/// Appending a section appends its records.
proof fn lemma_sections_recs_snoc(sects: Seq<(Seq<u8>, Seq<RecordModel>)>, x: (
    Seq<u8>,
    Seq<RecordModel>,
))
    ensures
        sections_recs(sects.push(x)) == sections_recs(sects) + x.1,
    decreases sects.len(),
{
    if sects.len() == 0 {
        assert(sects.push(x).first() == x);
        assert(sects.push(x).drop_first() =~= Seq::<(Seq<u8>, Seq<RecordModel>)>::empty());
        assert(sections_recs(sects.push(x).drop_first()) =~= Seq::<RecordModel>::empty());
        assert(sections_recs(sects) =~= Seq::<RecordModel>::empty());
        assert(sections_recs(sects.push(x)) =~= sections_recs(sects) + x.1);
    } else {
        assert(sects.push(x).first() == sects.first());
        assert(sects.push(x).drop_first() =~= sects.drop_first().push(x));
        lemma_sections_recs_snoc(sects.drop_first(), x);
        assert(sections_recs(sects.push(x)) =~= sections_recs(sects) + x.1);
    }
}

/// A run of good sections, placed anywhere, parses in order to its
/// records and ends right after.
proof fn lemma_sections_parse(
    s: Seq<u8>,
    i: int,
    sects: Seq<(Seq<u8>, Seq<RecordModel>)>,
    pool: Seq<u64>,
)
    requires
        forall|q: int|
            0 <= q < sects.len() ==> sect_ok((#[trigger] sects[q]).0, sects[q].1, pool),
        bytes_at(s, i, sections_bytes(sects)),
    ensures
        parse_tables(s, i, sects.len() as nat, pool) == Some(
            (sections_recs(sects), i + sections_bytes(sects).len()),
        ),
    decreases sects.len(),
{
    if sects.len() > 0 {
        let b0 = sects.first().0;
        let rs0 = sects.first().1;
        let rest = sects.drop_first();
        assert(sect_ok(sects[0].0, sects[0].1, pool));
        assert forall|w: int| 0 <= w < b0.len() implies #[trigger] b0[w] == s[i + w] by {
            assert(sections_bytes(sects)[w] == b0[w]);
        }
        assert(bytes_at(s, i, b0));
        assert(parse_table_section(s, i, pool) == Some((rs0, i + b0.len())));
        let j = i + b0.len() as int;
        assert forall|w: int| 0 <= w < sections_bytes(rest).len() implies #[trigger] sections_bytes(rest)[w] == s[j + w] by {
            assert(sections_bytes(sects)[b0.len() + w] == sections_bytes(rest)[w]);
            assert(s[i + (b0.len() + w)] == sections_bytes(sects)[b0.len() + w]);
        }
        assert forall|q: int| 0 <= q < rest.len() implies sect_ok(
            (#[trigger] rest[q]).0,
            rest[q].1,
            pool,
        ) by {
            assert(rest[q] == sects[q + 1]);
        }
        assert(bytes_at(s, j, sections_bytes(rest)));
        lemma_sections_parse(s, j, rest, pool);
        assert(rs0 + (sections_recs(rest)) == sections_recs(sects));
    }
}

/// Coverage facts survive a longer pool.
proof fn lemma_covers_mono(pool0: Seq<u64>, pool1: Seq<u64>, tm: TableModel)
    requires
        pool0.len() <= pool1.len(),
        forall|k: int| 0 <= k < pool0.len() ==> pool1[k] == pool0[k],
        pool_covers_table(pool0, tm),
    ensures
        pool_covers_table(pool1, tm),
{
    if let Some(d) = tm.removed {
        let w = choose|w: int| 0 <= w < pool0.len() && pool0[w] == d.peer;
        assert(pool1[w] == d.peer);
    }
    assert forall|r: Seq<char>| #[trigger] tm.rows.contains_key(r) implies (
    tm.rows[r].cleared_at matches Some(c) ==> pool1.contains(c.peer)) && (forall|c2: Seq<char>|
        #[trigger] tm.rows[r].cells.contains_key(c2) ==> pool1.contains(
            tm.rows[r].cells[c2].id.peer,
        )) by {
        if let Some(c) = tm.rows[r].cleared_at {
            let w = choose|w: int| 0 <= w < pool0.len() && pool0[w] == c.peer;
            assert(pool1[w] == c.peer);
        }
        assert forall|c2: Seq<char>| #[trigger] tm.rows[r].cells.contains_key(c2) implies
        pool1.contains(tm.rows[r].cells[c2].id.peer) by {
            let w = choose|w: int|
                0 <= w < pool0.len() && pool0[w] == tm.rows[r].cells[c2].id.peer;
            assert(pool1[w] == tm.rows[r].cells[c2].id.peer);
        }
    }
}

/// Per-table coverage survives extension at the end.
proof fn lemma_table_complete_mono(
    rs1: Seq<RecordModel>,
    rs2: Seq<RecordModel>,
    tn: Seq<char>,
    tm: TableModel,
)
    requires
        rs1.len() <= rs2.len(),
        forall|k: int| 0 <= k < rs1.len() ==> rs2[k] == rs1[k],
        table_section_complete(rs1, tn, tm),
    ensures
        table_section_complete(rs2, tn, tm),
{
    if let Some(d) = tm.removed {
        crate::encode::delta::lemma_contains_prefix(
            rs1,
            rs2,
            RecordModel { table: tn, row: None, col: None, value: ValueModel::Deleted, id: d },
        );
    }
    assert forall|row: Seq<char>| #[trigger] tm.rows.contains_key(row) implies (
    tm.rows[row].cleared_at matches Some(c) ==> rs2.contains(
        RecordModel { table: tn, row: Some(row), col: None, value: ValueModel::Deleted, id: c },
    )) by {
        if let Some(c) = tm.rows[row].cleared_at {
            crate::encode::delta::lemma_contains_prefix(
                rs1,
                rs2,
                RecordModel {
                    table: tn,
                    row: Some(row),
                    col: None,
                    value: ValueModel::Deleted,
                    id: c,
                },
            );
        }
    }
    assert forall|row: Seq<char>, col: Seq<char>|
        tm.rows.contains_key(row) && #[trigger] tm.rows[row].cells.contains_key(col) implies
    rs2.contains(crate::encode::delta::cell_record(tn, row, col, tm.rows[row].cells[col])) by {
        crate::encode::delta::lemma_contains_prefix(
            rs1,
            rs2,
            crate::encode::delta::cell_record(tn, row, col, tm.rows[row].cells[col]),
        );
    }
}

/// Per-table coverage of a section survives being placed after a prefix.
proof fn lemma_table_complete_shift(
    rs: Seq<RecordModel>,
    pre: Seq<RecordModel>,
    tn: Seq<char>,
    tm: TableModel,
)
    requires
        table_section_complete(rs, tn, tm),
    ensures
        table_section_complete(pre + rs, tn, tm),
{
    let whole = pre + rs;
    if let Some(d) = tm.removed {
        let want = RecordModel {
            table: tn,
            row: None,
            col: None,
            value: ValueModel::Deleted,
            id: d,
        };
        let q = choose|q: int| 0 <= q < rs.len() && rs[q] == want;
        assert(whole[pre.len() + q] == want);
    }
    assert forall|row: Seq<char>| #[trigger] tm.rows.contains_key(row) implies (
    tm.rows[row].cleared_at matches Some(c) ==> whole.contains(
        RecordModel { table: tn, row: Some(row), col: None, value: ValueModel::Deleted, id: c },
    )) by {
        if let Some(c) = tm.rows[row].cleared_at {
            let want = RecordModel {
                table: tn,
                row: Some(row),
                col: None,
                value: ValueModel::Deleted,
                id: c,
            };
            let q = choose|q: int| 0 <= q < rs.len() && rs[q] == want;
            assert(whole[pre.len() + q] == want);
        }
    }
    assert forall|row: Seq<char>, col: Seq<char>|
        tm.rows.contains_key(row) && #[trigger] tm.rows[row].cells.contains_key(col) implies
    whole.contains(crate::encode::delta::cell_record(tn, row, col, tm.rows[row].cells[col])) by {
        let want = crate::encode::delta::cell_record(tn, row, col, tm.rows[row].cells[col]);
        let q = choose|q: int| 0 <= q < rs.len() && rs[q] == want;
        assert(whole[pre.len() + q] == want);
    }
}

/// Indexing wrapper: a named table of a well-formed database is what the
/// model holds at its name.
proof fn lemma_assoc_index_tables(tables: Seq<crate::db::TableEntry>, i: int)
    requires
        crate::assoc::keys_unique(tables, crate::db::table_key()),
        0 <= i < tables.len(),
    ensures
        crate::db::tables_model(tables).contains_key(tables[i].name@),
        crate::db::tables_model(tables)[tables[i].name@] == tables[i].table@,
{
    crate::assoc::lemma_assoc_index(tables, crate::db::table_key(), crate::db::table_val(), i);
}

/// Name every peer one table mentions, extending the pool in place.
fn register_table_peers(t: &LwwTable, peers: &mut Register)
    requires
        t.wf(),
        old(peers).wf(),
    ensures
        final(peers).wf(),
        pool_covers_table(final(peers).pool@, t@),
        old(peers).pool@.len() <= final(peers).pool@.len(),
        forall|k: int|
            0 <= k < old(peers).pool@.len() ==> final(peers).pool@[k] == old(peers).pool@[k],
{
    let ghost tm = t@;
    match t.removed {
        Some(d) => {
            let _ = peers.register(d.peer);
        },
        None => {},
    }
    proof {
        if let Some(d) = t.removed {
            assert(peers.pool@.contains(d.peer));
        }
    }
    let mut r: usize = 0;
    while r < t.rows.len()
        invariant
            r <= t.rows@.len(),
            t.wf(),
            tm == t@,
            peers.wf(),
            old(peers).pool@.len() <= peers.pool@.len(),
            forall|k: int|
                0 <= k < old(peers).pool@.len() ==> peers.pool@[k] == old(peers).pool@[k],
            tm.removed matches Some(d) ==> peers.pool@.contains(d.peer),
            forall|a: int|
                0 <= a < r ==> ((#[trigger] t.rows@[a]).cleared_at matches Some(c)
                    ==> peers.pool@.contains(c.peer)),
            forall|a: int, j: int|
                0 <= a < r && 0 <= j < t.rows@[a].cells@.len() ==> peers.pool@.contains(
                    (#[trigger] t.rows@[a].cells@[j]).id.peer,
                ),
        decreases t.rows@.len() - r,
    {
        let ghost pool0 = peers.pool@;
        match t.rows[r].cleared_at {
            Some(c) => {
                let _ = peers.register(c.peer);
            },
            None => {},
        }
        proof {
            lemma_pool_grew(pool0, peers.pool@, tm, t.rows@, r as int, old(peers).pool@);
            if let Some(c) = t.rows@[r as int].cleared_at {
                assert(peers.pool@.contains(c.peer));
            }
        }
        let cells = &t.rows[r].cells;
        let mut j: usize = 0;
        while j < cells.len()
            invariant
                j <= cells@.len(),
                t.wf(),
                tm == t@,
                peers.wf(),
                r < t.rows@.len(),
                cells == &t.rows@[r as int].cells,
                old(peers).pool@.len() <= peers.pool@.len(),
                forall|k: int|
                    0 <= k < old(peers).pool@.len() ==> peers.pool@[k] == old(peers).pool@[k],
                tm.removed matches Some(d) ==> peers.pool@.contains(d.peer),
                t.rows@[r as int].cleared_at matches Some(c) ==> peers.pool@.contains(c.peer),
                forall|a: int|
                    0 <= a < r ==> ((#[trigger] t.rows@[a]).cleared_at matches Some(c)
                        ==> peers.pool@.contains(c.peer)),
                forall|a: int, j2: int|
                    0 <= a < r && 0 <= j2 < t.rows@[a].cells@.len() ==> peers.pool@.contains(
                        (#[trigger] t.rows@[a].cells@[j2]).id.peer,
                    ),
                forall|j2: int|
                    0 <= j2 < j ==> peers.pool@.contains(
                        (#[trigger] cells@[j2]).id.peer,
                    ),
            decreases cells@.len() - j,
        {
            let ghost pool1 = peers.pool@;
            let _ = peers.register(cells[j].id.peer);
            proof {
                lemma_pool_grew(pool1, peers.pool@, tm, t.rows@, r as int, old(peers).pool@);
                if let Some(c) = t.rows@[r as int].cleared_at {
                    let w = choose|w: int| 0 <= w < pool1.len() && pool1[w] == c.peer;
                    assert(peers.pool@[w] == c.peer);
                }
                assert forall|j2: int| 0 <= j2 < j + 1 implies peers.pool@.contains(
                    (#[trigger] cells@[j2]).id.peer,
                ) by {
                    if j2 < j {
                        let w = choose|w: int|
                            0 <= w < pool1.len() && pool1[w] == cells@[j2].id.peer;
                        assert(peers.pool@[w] == cells@[j2].id.peer);
                    }
                }
            }
            j += 1;
        }
        r += 1;
    }
    proof {
        assert forall|rk: Seq<char>| #[trigger] tm.rows.contains_key(rk) implies (
        tm.rows[rk].cleared_at matches Some(c) ==> final(peers).pool@.contains(c.peer)) && (forall|
            c2: Seq<char>,
        |
            #[trigger] tm.rows[rk].cells.contains_key(c2) ==> final(peers).pool@.contains(
                tm.rows[rk].cells[c2].id.peer,
            )) by {
            crate::table::lemma_rows_contains(t.rows@, rk);
            let b = choose|b: int| 0 <= b < t.rows@.len() && (#[trigger] t.rows@[b]).name@ == rk;
            crate::table::lemma_assoc_index_rows(t.rows@, b);
            assert forall|c2: Seq<char>| #[trigger] tm.rows[rk].cells.contains_key(c2) implies
            final(peers).pool@.contains(tm.rows[rk].cells[c2].id.peer) by {
                crate::table::lemma_cells_contains(t.rows@[b].cells@, c2);
                let j = choose|j: int|
                    0 <= j < t.rows@[b].cells@.len() && (#[trigger] t.rows@[b].cells@[j]).col@
                        == c2;
                crate::table::lemma_assoc_index_cells(t.rows@[b].cells@, j);
            }
        }
    }
}

/// Containment facts accumulated over the table walk survive a pool that
/// only grows at the end.
proof fn lemma_pool_grew(
    pool0: Seq<u64>,
    pool1: Seq<u64>,
    tm: TableModel,
    rows: Seq<crate::table::Row>,
    r: int,
    base: Seq<u64>,
)
    requires
        pool0.len() <= pool1.len(),
        forall|k: int| 0 <= k < pool0.len() ==> pool1[k] == pool0[k],
        base.len() <= pool0.len(),
        forall|k: int| 0 <= k < base.len() ==> pool0[k] == base[k],
        tm.removed matches Some(d) ==> pool0.contains(d.peer),
        forall|a: int|
            0 <= a < r ==> ((#[trigger] rows[a]).cleared_at matches Some(c) ==> pool0.contains(
                c.peer,
            )),
        forall|a: int, j2: int|
            0 <= a < r && 0 <= j2 < rows[a].cells@.len() ==> pool0.contains(
                (#[trigger] rows[a].cells@[j2]).id.peer,
            ),
    ensures
        tm.removed matches Some(d) ==> pool1.contains(d.peer),
        forall|a: int|
            0 <= a < r ==> ((#[trigger] rows[a]).cleared_at matches Some(c) ==> pool1.contains(
                c.peer,
            )),
        forall|a: int, j2: int|
            0 <= a < r && 0 <= j2 < rows[a].cells@.len() ==> pool1.contains(
                (#[trigger] rows[a].cells@[j2]).id.peer,
            ),
        forall|k: int| 0 <= k < base.len() ==> pool1[k] == base[k],
{
    if let Some(d) = tm.removed {
        let w = choose|w: int| 0 <= w < pool0.len() && pool0[w] == d.peer;
        assert(pool1[w] == d.peer);
    }
    assert forall|a: int|
        0 <= a < r implies ((#[trigger] rows[a]).cleared_at matches Some(c) ==> pool1.contains(
        c.peer,
    )) by {
        if let Some(c) = rows[a].cleared_at {
            let w = choose|w: int| 0 <= w < pool0.len() && pool0[w] == c.peer;
            assert(pool1[w] == c.peer);
        }
    }
    assert forall|a: int, j2: int|
        0 <= a < r && 0 <= j2 < rows[a].cells@.len() implies pool1.contains(
        (#[trigger] rows[a].cells@[j2]).id.peer,
    ) by {
        let w = choose|w: int| 0 <= w < pool0.len() && pool0[w] == rows[a].cells@[j2].id.peer;
        assert(pool1[w] == rows[a].cells@[j2].id.peer);
    }
}

/// One placement of an assembled section parses to its records.
#[verifier::rlimit(100)]
proof fn lemma_section_parses_at(
    s: Seq<u8>,
    i: int,
    sect: Seq<u8>,
    tn: Seq<char>,
    removed: Option<OpId>,
    del_pi: u64,
    rowviews: Seq<Seq<char>>,
    colviews: Seq<Seq<char>>,
    pres_bytes: Seq<u8>,
    valviews: Seq<ValueModel>,
    lam_bytes: Seq<u8>,
    pid_bytes: Seq<u8>,
    rowdel_bytes: Seq<u8>,
    dps: Seq<u64>,
    dls: Seq<u64>,
    pool: Seq<u64>,
    head: Seq<RecordModel>,
    delrecs: Seq<RecordModel>,
    cellrecs: Seq<RecordModel>,
    presv: Seq<bool>,
    lamv: Seq<i64>,
    pidv: Seq<i64>,
    bitsv: Seq<bool>,
)
    requires
        sect == crate::encode::wire::str_bytes(tn) + (match removed {
            Some(d) => seq![1u8] + crate::varint::varint(del_pi) + crate::varint::varint(
                d.lamport as u64,
            ),
            None => seq![0u8],
        }) + (crate::varint::varint(rowviews.len() as u64) + strs_bytes(rowviews)) + (
        crate::varint::varint(colviews.len() as u64) + strs_bytes(colviews)) + block_bytes(
            pres_bytes,
        ) + (crate::varint::varint(valviews.len() as u64) + vals_bytes(valviews)) + block_bytes(
            lam_bytes,
        ) + block_bytes(pid_bytes) + block_bytes(rowdel_bytes) + (crate::varint::varint(
            dps.len() as u64,
        ) + u64s_bytes(dps)) + (crate::varint::varint(dls.len() as u64) + u64s_bytes(dls)),
        removed matches Some(d) ==> (del_pi as int) < pool.len() && pool[del_pi as int] == d.peer
            && d.lamport >= 1,
        head == (match removed {
            Some(d) => seq![
                RecordModel { table: tn, row: None, col: None, value: ValueModel::Deleted, id: d },
            ],
            None => Seq::<RecordModel>::empty(),
        }),
        vstd::utf8::encode_utf8(tn).len() <= u64::MAX,
        forall|k: int|
            0 <= k < rowviews.len() ==> vstd::utf8::encode_utf8(#[trigger] rowviews[k]).len()
                <= u64::MAX,
        forall|k: int|
            0 <= k < colviews.len() ==> vstd::utf8::encode_utf8(#[trigger] colviews[k]).len()
                <= u64::MAX,
        forall|k: int|
            0 <= k < valviews.len() ==> (#[trigger] valviews[k] matches ValueModel::Str(sv)
                ==> vstd::utf8::encode_utf8(sv).len() <= u64::MAX),
        rowviews.len() <= u64::MAX,
        colviews.len() <= u64::MAX,
        valviews.len() <= u64::MAX,
        dps.len() <= u64::MAX,
        dls.len() <= u64::MAX,
        pres_bytes.len() <= u64::MAX,
        lam_bytes.len() <= u64::MAX,
        pid_bytes.len() <= u64::MAX,
        rowdel_bytes.len() <= u64::MAX,
        parse_bools(pres_bytes, 0, false) == Some(presv),
        parse_deltas(lam_bytes, 0, 0) == Some(lamv),
        parse_deltas(pid_bytes, 0, 0) == Some(pidv),
        parse_bools(rowdel_bytes, 0, false) == Some(bitsv),
        presv.len() == rowviews.len() * colviews.len(),
        bitsv.len() == rowviews.len(),
        expand_row_dels(tn, rowviews, bitsv, dps, dls, pool, 0, 0) == Some(delrecs),
        expand_cells(tn, rowviews, colviews, presv, valviews, lamv, pidv, pool, 0, 0) == Some(
            cellrecs,
        ),
        bytes_at(s, i, sect),
    ensures
        parse_table_section(s, i, pool) == Some((head + delrecs + cellrecs, i + sect.len())),
{
    let p1 = crate::encode::wire::str_bytes(tn);
    let p2: Seq<u8> = match removed {
        Some(d) => seq![1u8] + crate::varint::varint(del_pi) + crate::varint::varint(
            d.lamport as u64,
        ),
        None => seq![0u8],
    };
    let p3 = crate::varint::varint(rowviews.len() as u64) + strs_bytes(rowviews);
    let p4 = crate::varint::varint(colviews.len() as u64) + strs_bytes(colviews);
    let p5 = block_bytes(pres_bytes);
    let p6 = crate::varint::varint(valviews.len() as u64) + vals_bytes(valviews);
    let p7 = block_bytes(lam_bytes);
    let p8 = block_bytes(pid_bytes);
    let p9 = block_bytes(rowdel_bytes);
    let p10 = crate::varint::varint(dps.len() as u64) + u64s_bytes(dps);
    let p11 = crate::varint::varint(dls.len() as u64) + u64s_bytes(dls);
    lemma_section_pieces(s, i, p1, p2, p3, p4, p5, p6, p7, p8, p9, p10, p11);
    let j1 = i + p1.len();
    let j2 = i + (p1 + p2).len();
    let j3 = i + (p1 + p2 + p3).len();
    let j4 = i + (p1 + p2 + p3 + p4).len();
    let j5 = i + (p1 + p2 + p3 + p4 + p5).len();
    let j6 = i + (p1 + p2 + p3 + p4 + p5 + p6).len();
    let j7 = i + (p1 + p2 + p3 + p4 + p5 + p6 + p7).len();
    let j8 = i + (p1 + p2 + p3 + p4 + p5 + p6 + p7 + p8).len();
    let j9 = i + (p1 + p2 + p3 + p4 + p5 + p6 + p7 + p8 + p9).len();
    let j10 = i + (p1 + p2 + p3 + p4 + p5 + p6 + p7 + p8 + p9 + p10).len();
    lemma_section_front(s, i, j1, j2, j3, j4, tn, removed, del_pi, rowviews, colviews);
    assert(i + sect.len() == j10 + p11.len());
    lemma_section_back(
        s,
        j4,
        j5,
        j6,
        j7,
        j8,
        j9,
        j10,
        j10 + p11.len(),
        pres_bytes,
        valviews,
        lam_bytes,
        pid_bytes,
        rowdel_bytes,
        dps,
        dls,
    );
    lemma_section_assemble(
        s,
        i,
        sect,
        tn,
        removed,
        del_pi,
        rowviews,
        colviews,
        pres_bytes,
        valviews,
        lam_bytes,
        pid_bytes,
        rowdel_bytes,
        dps,
        dls,
        pool,
        head,
        delrecs,
        cellrecs,
        presv,
        lamv,
        pidv,
        bitsv,
        j1,
        j2,
        j3,
        j4,
        j5,
        j6,
        j7,
        j8,
        j9,
        j10,
    );

}

/// Parse the name, tombstone flag and name lists of a placed section.
#[verifier::rlimit(100)]
proof fn lemma_section_front(
    s: Seq<u8>,
    i: int,
    j1: int,
    j2: int,
    j3: int,
    j4: int,
    tn: Seq<char>,
    removed: Option<OpId>,
    del_pi: u64,
    rowviews: Seq<Seq<char>>,
    colviews: Seq<Seq<char>>,
)
    requires
        0 <= i,
        bytes_at(s, i, crate::encode::wire::str_bytes(tn)),
        j1 == i + crate::encode::wire::str_bytes(tn).len(),
        bytes_at(s, j1, match removed {
            Some(d) => seq![1u8] + crate::varint::varint(del_pi) + crate::varint::varint(
                d.lamport as u64,
            ),
            None => seq![0u8],
        }),
        j2 == j1 + (match removed {
            Some(d) => seq![1u8] + crate::varint::varint(del_pi) + crate::varint::varint(
                d.lamport as u64,
            ),
            None => seq![0u8],
        }).len(),
        bytes_at(s, j2, crate::varint::varint(rowviews.len() as u64) + strs_bytes(rowviews)),
        j3 == j2 + (crate::varint::varint(rowviews.len() as u64) + strs_bytes(rowviews)).len(),
        bytes_at(s, j3, crate::varint::varint(colviews.len() as u64) + strs_bytes(colviews)),
        j4 == j3 + (crate::varint::varint(colviews.len() as u64) + strs_bytes(colviews)).len(),
        vstd::utf8::encode_utf8(tn).len() <= u64::MAX,
        forall|k: int|
            0 <= k < rowviews.len() ==> vstd::utf8::encode_utf8(#[trigger] rowviews[k]).len()
                <= u64::MAX,
        forall|k: int|
            0 <= k < colviews.len() ==> vstd::utf8::encode_utf8(#[trigger] colviews[k]).len()
                <= u64::MAX,
        rowviews.len() <= u64::MAX,
        colviews.len() <= u64::MAX,
    ensures
        crate::encode::wire::parse_str(s, i) == Some((tn, j1)),
        j1 < s.len(),
        (match removed {
            Some(d) => s[j1] == 1 && parse_varint(s, j1 + 1) == Some((del_pi, j1 + 1
                + crate::varint::varint(del_pi).len() as int)) && parse_varint(
                s,
                j1 + 1 + crate::varint::varint(del_pi).len() as int,
            ) == Some((d.lamport as u64, j2)),
            None => s[j1] == 0 && j2 == j1 + 1,
        }),
        parse_str_list(s, j2) == Some((rowviews, j3)),
        parse_str_list(s, j3) == Some((colviews, j4)),
{
    crate::encode::wire::lemma_str_round_trip(s, i, tn);
    if let Some(d) = removed {
        let p2 = seq![1u8] + crate::varint::varint(del_pi) + crate::varint::varint(
            d.lamport as u64,
        );
        assert(s[j1] == p2[0]);
        lemma_bytes_at_split(
            s,
            j1,
            seq![1u8] + crate::varint::varint(del_pi),
            crate::varint::varint(d.lamport as u64),
        );
        lemma_bytes_at_split(s, j1, seq![1u8], crate::varint::varint(del_pi));
        crate::varint::lemma_varint_round_trip(s, j1 + 1, del_pi);
        crate::varint::lemma_varint_round_trip(
            s,
            j1 + 1 + crate::varint::varint(del_pi).len(),
            d.lamport as u64,
        );
    } else {
        assert(s[j1] == seq![0u8][0]);
    }
    lemma_bytes_at_split(s, j2, crate::varint::varint(rowviews.len() as u64), strs_bytes(rowviews));
    crate::varint::lemma_varint_round_trip(s, j2, rowviews.len() as u64);
    crate::encode::wire::lemma_strs_round_trip(
        s,
        j2 + crate::varint::varint(rowviews.len() as u64).len(),
        rowviews,
    );
    lemma_bytes_at_split(s, j3, crate::varint::varint(colviews.len() as u64), strs_bytes(colviews));
    crate::varint::lemma_varint_round_trip(s, j3, colviews.len() as u64);
    crate::encode::wire::lemma_strs_round_trip(
        s,
        j3 + crate::varint::varint(colviews.len() as u64).len(),
        colviews,
    );
    assert(parse_str_list(s, j2) == Some((rowviews, j3)));
    assert(parse_str_list(s, j3) == Some((colviews, j4)));
}

/// Parse the stream blocks and index lists of a placed section.
#[verifier::rlimit(100)]
proof fn lemma_section_back(
    s: Seq<u8>,
    j4: int,
    j5: int,
    j6: int,
    j7: int,
    j8: int,
    j9: int,
    j10: int,
    jend: int,
    pres_bytes: Seq<u8>,
    valviews: Seq<ValueModel>,
    lam_bytes: Seq<u8>,
    pid_bytes: Seq<u8>,
    rowdel_bytes: Seq<u8>,
    dps: Seq<u64>,
    dls: Seq<u64>,
)
    requires
        0 <= j4,
        bytes_at(s, j4, block_bytes(pres_bytes)),
        j5 == j4 + block_bytes(pres_bytes).len(),
        bytes_at(s, j5, crate::varint::varint(valviews.len() as u64) + vals_bytes(valviews)),
        j6 == j5 + (crate::varint::varint(valviews.len() as u64) + vals_bytes(valviews)).len(),
        bytes_at(s, j6, block_bytes(lam_bytes)),
        j7 == j6 + block_bytes(lam_bytes).len(),
        bytes_at(s, j7, block_bytes(pid_bytes)),
        j8 == j7 + block_bytes(pid_bytes).len(),
        bytes_at(s, j8, block_bytes(rowdel_bytes)),
        j9 == j8 + block_bytes(rowdel_bytes).len(),
        bytes_at(s, j9, crate::varint::varint(dps.len() as u64) + u64s_bytes(dps)),
        j10 == j9 + (crate::varint::varint(dps.len() as u64) + u64s_bytes(dps)).len(),
        bytes_at(s, j10, crate::varint::varint(dls.len() as u64) + u64s_bytes(dls)),
        jend == j10 + (crate::varint::varint(dls.len() as u64) + u64s_bytes(dls)).len(),
        forall|k: int|
            0 <= k < valviews.len() ==> (#[trigger] valviews[k] matches ValueModel::Str(sv)
                ==> vstd::utf8::encode_utf8(sv).len() <= u64::MAX),
        valviews.len() <= u64::MAX,
        dps.len() <= u64::MAX,
        dls.len() <= u64::MAX,
        pres_bytes.len() <= u64::MAX,
        lam_bytes.len() <= u64::MAX,
        pid_bytes.len() <= u64::MAX,
        rowdel_bytes.len() <= u64::MAX,
    ensures
        parse_block(s, j4) == Some((pres_bytes, j5)),
        parse_value_list(s, j5) == Some((valviews, j6)),
        parse_block(s, j6) == Some((lam_bytes, j7)),
        parse_block(s, j7) == Some((pid_bytes, j8)),
        parse_block(s, j8) == Some((rowdel_bytes, j9)),
        parse_u64_list(s, j9) == Some((dps, j10)),
        parse_u64_list(s, j10) == Some((dls, jend)),
{
    crate::encode::wire::lemma_block_round_trip(s, j4, pres_bytes);
    lemma_bytes_at_split(s, j5, crate::varint::varint(valviews.len() as u64), vals_bytes(valviews));
    crate::varint::lemma_varint_round_trip(s, j5, valviews.len() as u64);
    crate::encode::wire::lemma_vals_round_trip(
        s,
        j5 + crate::varint::varint(valviews.len() as u64).len(),
        valviews,
    );
    crate::encode::wire::lemma_block_round_trip(s, j6, lam_bytes);
    crate::encode::wire::lemma_block_round_trip(s, j7, pid_bytes);
    crate::encode::wire::lemma_block_round_trip(s, j8, rowdel_bytes);
    lemma_bytes_at_split(s, j9, crate::varint::varint(dps.len() as u64), u64s_bytes(dps));
    crate::varint::lemma_varint_round_trip(s, j9, dps.len() as u64);
    crate::encode::wire::lemma_u64s_round_trip(
        s,
        j9 + crate::varint::varint(dps.len() as u64).len(),
        dps,
    );
    lemma_bytes_at_split(s, j10, crate::varint::varint(dls.len() as u64), u64s_bytes(dls));
    crate::varint::lemma_varint_round_trip(s, j10, dls.len() as u64);
    crate::encode::wire::lemma_u64s_round_trip(
        s,
        j10 + crate::varint::varint(dls.len() as u64).len(),
        dls,
    );
    assert(parse_u64_list(s, j9) == Some((dps, j10)));
    assert(parse_u64_list(s, j10) == Some((dls, jend)));
}

/// Peel an eleven-piece placement into one placement per piece.
#[verifier::rlimit(100)]
proof fn lemma_section_pieces(
    s: Seq<u8>,
    i: int,
    p1: Seq<u8>,
    p2: Seq<u8>,
    p3: Seq<u8>,
    p4: Seq<u8>,
    p5: Seq<u8>,
    p6: Seq<u8>,
    p7: Seq<u8>,
    p8: Seq<u8>,
    p9: Seq<u8>,
    p10: Seq<u8>,
    p11: Seq<u8>,
)
    requires
        bytes_at(s, i, p1 + p2 + p3 + p4 + p5 + p6 + p7 + p8 + p9 + p10 + p11),
    ensures
        bytes_at(s, i, p1),
        bytes_at(s, i + p1.len(), p2),
        bytes_at(s, i + (p1 + p2).len(), p3),
        bytes_at(s, i + (p1 + p2 + p3).len(), p4),
        bytes_at(s, i + (p1 + p2 + p3 + p4).len(), p5),
        bytes_at(s, i + (p1 + p2 + p3 + p4 + p5).len(), p6),
        bytes_at(s, i + (p1 + p2 + p3 + p4 + p5 + p6).len(), p7),
        bytes_at(s, i + (p1 + p2 + p3 + p4 + p5 + p6 + p7).len(), p8),
        bytes_at(s, i + (p1 + p2 + p3 + p4 + p5 + p6 + p7 + p8).len(), p9),
        bytes_at(s, i + (p1 + p2 + p3 + p4 + p5 + p6 + p7 + p8 + p9).len(), p10),
        bytes_at(s, i + (p1 + p2 + p3 + p4 + p5 + p6 + p7 + p8 + p9 + p10).len(), p11),
{
    lemma_bytes_at_split(s, i, p1 + p2 + p3 + p4 + p5 + p6 + p7 + p8 + p9 + p10, p11);
    lemma_bytes_at_split(s, i, p1 + p2 + p3 + p4 + p5 + p6 + p7 + p8 + p9, p10);
    lemma_bytes_at_split(s, i, p1 + p2 + p3 + p4 + p5 + p6 + p7 + p8, p9);
    lemma_bytes_at_split(s, i, p1 + p2 + p3 + p4 + p5 + p6 + p7, p8);
    lemma_bytes_at_split(s, i, p1 + p2 + p3 + p4 + p5 + p6, p7);
    lemma_bytes_at_split(s, i, p1 + p2 + p3 + p4 + p5, p6);
    lemma_bytes_at_split(s, i, p1 + p2 + p3 + p4, p5);
    lemma_bytes_at_split(s, i, p1 + p2 + p3, p4);
    lemma_bytes_at_split(s, i, p1 + p2, p3);
    lemma_bytes_at_split(s, i, p1, p2);
}

/// Put the parsed pieces through the section grammar.
#[verifier::rlimit(100)]
proof fn lemma_section_assemble(
    s: Seq<u8>,
    i: int,
    sect: Seq<u8>,
    tn: Seq<char>,
    removed: Option<OpId>,
    del_pi: u64,
    rowviews: Seq<Seq<char>>,
    colviews: Seq<Seq<char>>,
    pres_bytes: Seq<u8>,
    valviews: Seq<ValueModel>,
    lam_bytes: Seq<u8>,
    pid_bytes: Seq<u8>,
    rowdel_bytes: Seq<u8>,
    dps: Seq<u64>,
    dls: Seq<u64>,
    pool: Seq<u64>,
    head: Seq<RecordModel>,
    delrecs: Seq<RecordModel>,
    cellrecs: Seq<RecordModel>,
    presv: Seq<bool>,
    lamv: Seq<i64>,
    pidv: Seq<i64>,
    bitsv: Seq<bool>,
    j1: int,
    j2: int,
    j3: int,
    j4: int,
    j5: int,
    j6: int,
    j7: int,
    j8: int,
    j9: int,
    j10: int,
)
    requires
        crate::encode::wire::parse_str(s, i) == Some((tn, j1)),
        0 <= i,
        j1 < s.len(),
        i + sect.len() <= s.len(),
        j10 + (crate::varint::varint(dls.len() as u64) + u64s_bytes(dls)).len() == i + sect.len(),
        (match removed {
            Some(d) => s[j1] == 1 && parse_varint(s, j1 + 1) == Some((del_pi, j1 + 1
                + crate::varint::varint(del_pi).len() as int)) && parse_varint(
                s,
                j1 + 1 + crate::varint::varint(del_pi).len() as int,
            ) == Some((d.lamport as u64, j2)) && (del_pi as int) < pool.len() && pool[
                del_pi as int
            ] == d.peer && 1 <= d.lamport,
            None => s[j1] == 0 && j2 == j1 + 1,
        }),
        head == (match removed {
            Some(d) => seq![
                RecordModel { table: tn, row: None, col: None, value: ValueModel::Deleted, id: d },
            ],
            None => Seq::<RecordModel>::empty(),
        }),
        parse_str_list(s, j2) == Some((rowviews, j3)),
        parse_str_list(s, j3) == Some((colviews, j4)),
        parse_block(s, j4) == Some((pres_bytes, j5)),
        parse_value_list(s, j5) == Some((valviews, j6)),
        parse_block(s, j6) == Some((lam_bytes, j7)),
        parse_block(s, j7) == Some((pid_bytes, j8)),
        parse_block(s, j8) == Some((rowdel_bytes, j9)),
        parse_u64_list(s, j9) == Some((dps, j10)),
        parse_u64_list(s, j10) == Some((dls, i + sect.len() as int)),
        parse_bools(pres_bytes, 0, false) == Some(presv),
        parse_deltas(lam_bytes, 0, 0) == Some(lamv),
        parse_deltas(pid_bytes, 0, 0) == Some(pidv),
        parse_bools(rowdel_bytes, 0, false) == Some(bitsv),
        presv.len() == rowviews.len() * colviews.len(),
        bitsv.len() == rowviews.len(),
        expand_row_dels(tn, rowviews, bitsv, dps, dls, pool, 0, 0) == Some(delrecs),
        expand_cells(tn, rowviews, colviews, presv, valviews, lamv, pidv, pool, 0, 0) == Some(
            cellrecs,
        ),
    ensures
        parse_table_section(s, i, pool) == Some((head + delrecs + cellrecs, i + sect.len())),
{
    reveal(parse_table_section);
    if let Some(d) = removed {
        assert((d.lamport as u64) <= u32::MAX);
        assert(((d.lamport as u64) as u32) == d.lamport);
    }
}

/// A section assembled from its eleven pieces parses, wherever it is
/// placed, to its head, row-tombstone and cell records.
proof fn lemma_section_parses(
    sect: Seq<u8>,
    tn: Seq<char>,
    removed: Option<OpId>,
    del_pi: u64,
    rowviews: Seq<Seq<char>>,
    colviews: Seq<Seq<char>>,
    pres_bytes: Seq<u8>,
    valviews: Seq<ValueModel>,
    lam_bytes: Seq<u8>,
    pid_bytes: Seq<u8>,
    rowdel_bytes: Seq<u8>,
    dps: Seq<u64>,
    dls: Seq<u64>,
    pool: Seq<u64>,
    head: Seq<RecordModel>,
    delrecs: Seq<RecordModel>,
    cellrecs: Seq<RecordModel>,
    presv: Seq<bool>,
    lamv: Seq<i64>,
    pidv: Seq<i64>,
    bitsv: Seq<bool>,
)
    requires
        sect == crate::encode::wire::str_bytes(tn) + (match removed {
            Some(d) => seq![1u8] + crate::varint::varint(del_pi) + crate::varint::varint(
                d.lamport as u64,
            ),
            None => seq![0u8],
        }) + (crate::varint::varint(rowviews.len() as u64) + strs_bytes(rowviews)) + (
        crate::varint::varint(colviews.len() as u64) + strs_bytes(colviews)) + block_bytes(
            pres_bytes,
        ) + (crate::varint::varint(valviews.len() as u64) + vals_bytes(valviews)) + block_bytes(
            lam_bytes,
        ) + block_bytes(pid_bytes) + block_bytes(rowdel_bytes) + (crate::varint::varint(
            dps.len() as u64,
        ) + u64s_bytes(dps)) + (crate::varint::varint(dls.len() as u64) + u64s_bytes(dls)),
        removed matches Some(d) ==> (del_pi as int) < pool.len() && pool[del_pi as int] == d.peer
            && d.lamport >= 1,
        head == (match removed {
            Some(d) => seq![
                RecordModel { table: tn, row: None, col: None, value: ValueModel::Deleted, id: d },
            ],
            None => Seq::<RecordModel>::empty(),
        }),
        vstd::utf8::encode_utf8(tn).len() <= u64::MAX,
        forall|k: int|
            0 <= k < rowviews.len() ==> vstd::utf8::encode_utf8(#[trigger] rowviews[k]).len()
                <= u64::MAX,
        forall|k: int|
            0 <= k < colviews.len() ==> vstd::utf8::encode_utf8(#[trigger] colviews[k]).len()
                <= u64::MAX,
        forall|k: int|
            0 <= k < valviews.len() ==> (#[trigger] valviews[k] matches ValueModel::Str(sv)
                ==> vstd::utf8::encode_utf8(sv).len() <= u64::MAX),
        rowviews.len() <= u64::MAX,
        colviews.len() <= u64::MAX,
        valviews.len() <= u64::MAX,
        dps.len() <= u64::MAX,
        dls.len() <= u64::MAX,
        pres_bytes.len() <= u64::MAX,
        lam_bytes.len() <= u64::MAX,
        pid_bytes.len() <= u64::MAX,
        rowdel_bytes.len() <= u64::MAX,
        parse_bools(pres_bytes, 0, false) == Some(presv),
        parse_deltas(lam_bytes, 0, 0) == Some(lamv),
        parse_deltas(pid_bytes, 0, 0) == Some(pidv),
        parse_bools(rowdel_bytes, 0, false) == Some(bitsv),
        presv.len() == rowviews.len() * colviews.len(),
        bitsv.len() == rowviews.len(),
        expand_row_dels(tn, rowviews, bitsv, dps, dls, pool, 0, 0) == Some(delrecs),
        expand_cells(tn, rowviews, colviews, presv, valviews, lamv, pidv, pool, 0, 0) == Some(
            cellrecs,
        ),
    ensures
        sect_ok(sect, head + delrecs + cellrecs, pool),
{
    assert(sect.len() > 0);
    assert forall|s2: Seq<u8>, i: int| bytes_at(s2, i, sect) implies parse_table_section(
        s2,
        i,
        pool,
    ) == Some((head + delrecs + cellrecs, i + sect.len())) by {
        lemma_section_parses_at(
            s2,
            i,
            sect,
            tn,
            removed,
            del_pi,
            rowviews,
            colviews,
            pres_bytes,
            valviews,
            lam_bytes,
            pid_bytes,
            rowdel_bytes,
            dps,
            dls,
            pool,
            head,
            delrecs,
            cellrecs,
            presv,
            lamv,
            pidv,
            bitsv,
        );
    }

}

/// Assemble per-stream soundness and coverage into the section-level
/// statements.
#[verifier::rlimit(100)]
proof fn lemma_section_records_ok(
    t: LwwTable,
    tn: Seq<char>,
    tm: TableModel,
    col_names: Seq<String>,
    rowviews: Seq<Seq<char>>,
    colviews: Seq<Seq<char>>,
    head: Seq<RecordModel>,
    delrecs: Seq<RecordModel>,
    cellrecs: Seq<RecordModel>,
    rs: Seq<RecordModel>,
)
    requires
        t.wf(),
        tm == t@,
        rowviews.len() == t.rows@.len(),
        forall|q: int| 0 <= q < t.rows@.len() ==> rowviews[q] == t.rows@[q].name@,
        colviews == views_of(col_names),
        forall|a: int, j: int|
            0 <= a < t.rows@.len() && 0 <= j < t.rows@[a].cells@.len() ==> pool_has_col(
                col_names,
                (#[trigger] t.rows@[a].cells@[j]).col@,
            ),
        head == (match t.removed {
            Some(d) => seq![
                RecordModel { table: tn, row: None, col: None, value: ValueModel::Deleted, id: d },
            ],
            None => Seq::<RecordModel>::empty(),
        }),
        forall|k: int| 0 <= k < delrecs.len() ==> snap_record_sound(#[trigger] delrecs[k], tn, tm),
        forall|b: int|
            0 <= b < rowviews.len() && tm.rows.contains_key(#[trigger] rowviews[b]) ==> (
            tm.rows[rowviews[b]].cleared_at matches Some(cl) ==> delrecs.contains(
                RecordModel {
                    table: tn,
                    row: Some(rowviews[b]),
                    col: None,
                    value: ValueModel::Deleted,
                    id: cl,
                },
            )),
        forall|k: int|
            0 <= k < cellrecs.len() ==> snap_record_sound(#[trigger] cellrecs[k], tn, tm),
        forall|a: int, b: int|
            0 <= a < colviews.len() && 0 <= b < rowviews.len() && tm.rows.contains_key(rowviews[b])
                && #[trigger] tm.rows[rowviews[b]].cells.contains_key(#[trigger] colviews[a])
                ==> cellrecs.contains(
                crate::encode::delta::cell_record(
                    tn,
                    rowviews[b],
                    colviews[a],
                    tm.rows[rowviews[b]].cells[colviews[a]],
                ),
            ),
        rs == head + delrecs + cellrecs,
    ensures
        table_section_sound(rs, tn, tm),
        table_section_complete(rs, tn, tm),
{
    if let Some(d) = t.removed {
        assert(tm.removed == Some(d));
        assert(d.lamport >= 1);
        assert(snap_record_sound(head[0], tn, tm));
    }
    assert(table_section_sound(rs, tn, tm)) by {
        assert forall|k: int| 0 <= k < rs.len() implies snap_record_sound(
            #[trigger] rs[k],
            tn,
            tm,
        ) by {
            if k < head.len() {
                assert(rs[k] == head[0]);
            } else if k < head.len() + delrecs.len() {
                assert(rs[k] == delrecs[k - head.len()]);
            } else {
                assert(rs[k] == cellrecs[k - head.len() - delrecs.len()]);
            }
        }
    }
    assert(table_section_complete(rs, tn, tm)) by {
        if let Some(d) = tm.removed {
            let want = RecordModel {
                table: tn,
                row: None,
                col: None,
                value: ValueModel::Deleted,
                id: d,
            };
            assert(rs[0] == want);
            assert(rs.contains(want));
        }
        assert forall|row: Seq<char>| #[trigger] tm.rows.contains_key(row) implies (
        tm.rows[row].cleared_at matches Some(cl) ==> rs.contains(
            RecordModel { table: tn, row: Some(row), col: None, value: ValueModel::Deleted, id: cl },
        )) by {
            crate::table::lemma_rows_contains(t.rows@, row);
            let b = choose|b: int| 0 <= b < t.rows@.len() && (#[trigger] t.rows@[b]).name@ == row;
            crate::table::lemma_assoc_index_rows(t.rows@, b);
            assert(rowviews[b] == row);
            if let Some(cl) = tm.rows[row].cleared_at {
                let want = RecordModel {
                    table: tn,
                    row: Some(row),
                    col: None,
                    value: ValueModel::Deleted,
                    id: cl,
                };
                assert(delrecs.contains(want));
                let q = choose|q: int| 0 <= q < delrecs.len() && delrecs[q] == want;
                assert(rs[head.len() + q] == want);
            }
        }
        assert forall|row: Seq<char>, col: Seq<char>|
            tm.rows.contains_key(row) && #[trigger] tm.rows[row].cells.contains_key(
                col,
            ) implies rs.contains(
            crate::encode::delta::cell_record(tn, row, col, tm.rows[row].cells[col]),
        ) by {
            crate::table::lemma_rows_contains(t.rows@, row);
            let b = choose|b: int| 0 <= b < t.rows@.len() && (#[trigger] t.rows@[b]).name@ == row;
            crate::table::lemma_assoc_index_rows(t.rows@, b);
            crate::table::lemma_cells_contains(t.rows@[b].cells@, col);
            let j = choose|j: int|
                0 <= j < t.rows@[b].cells@.len() && (#[trigger] t.rows@[b].cells@[j]).col@ == col;
            assert(pool_has_col(col_names, (t.rows@[b].cells@[j]).col@));
            let a = choose|a: int|
                0 <= a < col_names.len() && (#[trigger] col_names[a])@ == col;
            assert(colviews[a] == col && rowviews[b] == row);
            let want = crate::encode::delta::cell_record(tn, row, col, tm.rows[row].cells[col]);
            assert(cellrecs.contains(want));
            let q = choose|q: int| 0 <= q < cellrecs.len() && cellrecs[q] == want;
            assert(rs[head.len() + delrecs.len() + q] == want);
        }
    }
}

/// Write one table section: tombstone, names, presence bitmap and the
/// parallel value, lamport and peer streams, then the row tombstones.
/// Wherever the returned bytes land, they parse back to the returned
/// records, which are exactly the table's cells and tombstones.
#[verifier::rlimit(100)]
fn snapshot_table(name: &String, t: &LwwTable, peers: &Register) -> (res: (
    Vec<u8>,
    Ghost<Seq<RecordModel>>,
))
    requires
        t.wf(),
        peers.wf(),
        pool_covers_table(peers.pool@, t@),
    ensures
        sect_ok(res.0@, res.1@, peers.pool@),
        table_section_sound(res.1@, name@, t@),
        table_section_complete(res.1@, name@, t@),
{
    let ghost tn = name@;
    let ghost tm = t@;
    let ghost pool = peers.pool@;
    let mut sect: Vec<u8> = Vec::new();
    push_string(&mut sect, name.as_str());
    let ghost p1 = crate::encode::wire::str_bytes(tn);
    let ghost head: Seq<RecordModel> = match t.removed {
        Some(d) => seq![
            RecordModel { table: tn, row: None, col: None, value: ValueModel::Deleted, id: d },
        ],
        None => Seq::empty(),
    };
    let ghost mark1 = sect@;
    let mut del_pi: u64 = 0;
    match t.removed {
        Some(d) => {
            sect.push(1);
            let pi = match peers.index_of(d.peer) {
                Some(x) => x,
                None => {
                    proof {
                        let w = choose|w: int| 0 <= w < pool.len() && pool[w] == d.peer;
                        assert(false);
                    }
                    0
                },
            };
            del_pi = pi as u64;
            push_varint(&mut sect, pi as u64);
            push_varint(&mut sect, d.lamport as u64);
            proof {
                assert(pool[del_pi as int] == d.peer);
                assert(sect@ =~= mark1 + seq![1u8] + crate::varint::varint(del_pi)
                    + crate::varint::varint(d.lamport as u64));
            }
        },
        None => {
            sect.push(0);
            proof {
                assert(sect@ =~= mark1 + seq![0u8]);
            }
        },
    }
    // Row names, in storage order.
    let mut row_names: Vec<String> = Vec::new();
    let mut r1: usize = 0;
    while r1 < t.rows.len()
        invariant
            r1 <= t.rows@.len(),
            row_names@.len() == r1,
            forall|q: int| 0 <= q < r1 ==> (#[trigger] row_names@[q])@ == t.rows@[q].name@,
        decreases t.rows@.len() - r1,
    {
        row_names.push(t.rows[r1].name.clone());
        r1 += 1;
    }
    let ghost rowviews = views_of(row_names@);
    // Every column any cell uses, tombstone cells included, deduplicated.
    let mut col_pool = StrPool::new();
    let mut r2: usize = 0;
    while r2 < t.rows.len()
        invariant
            r2 <= t.rows@.len(),
            t.wf(),
            col_pool.wf(),
            forall|a: int, j: int|
                0 <= a < r2 && 0 <= j < t.rows@[a].cells@.len() ==> pool_has_col(
                    col_pool.pool@,
                    (#[trigger] t.rows@[a].cells@[j]).col@,
                ),
        decreases t.rows@.len() - r2,
    {
        let cells = &t.rows[r2].cells;
        let mut j2: usize = 0;
        while j2 < cells.len()
            invariant
                j2 <= cells@.len(),
                t.wf(),
                col_pool.wf(),
                r2 < t.rows@.len(),
                cells == &t.rows@[r2 as int].cells,
                forall|a: int, j: int|
                    0 <= a < r2 && 0 <= j < t.rows@[a].cells@.len() ==> pool_has_col(
                        col_pool.pool@,
                        (#[trigger] t.rows@[a].cells@[j]).col@,
                    ),
                forall|j: int|
                    0 <= j < j2 ==> pool_has_col(col_pool.pool@, (#[trigger] cells@[j]).col@),
            decreases cells@.len() - j2,
    {
            let ghost pool0 = col_pool.pool@;
            let idx = col_pool.intern(cells[j2].col.as_str());
            proof {
                assert(col_pool.pool@[idx as int]@ == cells@[j2 as int].col@);
                assert forall|a: int, j: int|
                    0 <= a < r2 && 0 <= j < t.rows@[a].cells@.len() implies pool_has_col(
                    col_pool.pool@,
                    (#[trigger] t.rows@[a].cells@[j]).col@,
                ) by {
                    let ci = choose|ci: int|
                        0 <= ci < pool0.len() && (#[trigger] pool0[ci])@ == t.rows@[a].cells@[j].col@;
                    assert(col_pool.pool@[ci]@ == t.rows@[a].cells@[j].col@);
                }
                assert forall|j: int| 0 <= j < j2 + 1 implies pool_has_col(
                    col_pool.pool@,
                    (#[trigger] cells@[j]).col@,
                ) by {
                    if j < j2 {
                        let ci = choose|ci: int|
                            0 <= ci < pool0.len() && (#[trigger] pool0[ci])@ == cells@[j].col@;
                        assert(col_pool.pool@[ci]@ == cells@[j].col@);
                    } else {
                        assert(col_pool.pool@[idx as int]@ == cells@[j].col@);
                    }
                }
            }
            j2 += 1;
        }
        r2 += 1;
    }
    let col_names = col_pool.finish();
    let ghost colviews = views_of(col_names@);
    let ghost mark2 = sect@;
    push_str_list(&mut sect, &row_names);
    let ghost p3 = crate::varint::varint(row_names@.len() as u64) + strs_bytes(rowviews);
    let ghost mark3 = sect@;
    push_str_list(&mut sect, &col_names);
    let ghost p4 = crate::varint::varint(col_names@.len() as u64) + strs_bytes(colviews);
    // Column-major presence scan.
    let mut present = BoolRleEncoder::new();
    let mut values: Vec<Value> = Vec::new();
    let mut lams = DeltaRleEncoder::new();
    let mut pids = DeltaRleEncoder::new();
    let ghost mut cellrecs: Seq<RecordModel> = Seq::empty();
    let rcount = t.rows.len();
    let mut c: usize = 0;
    proof {
        assert(expand_cells(
            tn,
            rowviews,
            colviews,
            present.view(),
            val_views_of(values@),
            lams.view(),
            pids.view(),
            pool,
            0,
            0,
        ) =~= Some(cellrecs));
    }
    while c < col_names.len()
        invariant
            c <= col_names@.len(),
            t.wf(),
            peers.wf(),
            pool == peers.pool@,
            pool_covers_table(pool, tm),
            tm == t@,
            tn == name@,
            rcount == t.rows@.len(),
            rowviews == views_of(row_names@),
            colviews == views_of(col_names@),
            rowviews.len() == rcount,
            forall|q: int| 0 <= q < rcount ==> rowviews[q] == t.rows@[q].name@,
            present.wf() && lams.wf() && pids.wf(),
            present.view().len() == c * rcount,
            expand_cells(
                tn,
                rowviews,
                colviews,
                present.view(),
                val_views_of(values@),
                lams.view(),
                pids.view(),
                pool,
                0,
                0,
            ) == Some(cellrecs),
            forall|k: int| 0 <= k < cellrecs.len() ==> snap_record_sound(#[trigger] cellrecs[k], tn, tm),
            forall|a: int, b: int|
                0 <= a < c && 0 <= b < rcount && tm.rows.contains_key(rowviews[b])
                    && #[trigger] tm.rows[rowviews[b]].cells.contains_key(
                    #[trigger] colviews[a],
                ) ==> cellrecs.contains(
                    crate::encode::delta::cell_record(
                        tn,
                        rowviews[b],
                        colviews[a],
                        tm.rows[rowviews[b]].cells[colviews[a]],
                    ),
                ),
        decreases col_names@.len() - c,
    {
        let mut rr: usize = 0;
        while rr < rcount
            invariant
                rr <= rcount,
                c < col_names@.len(),
                t.wf(),
                peers.wf(),
                pool == peers.pool@,
                pool_covers_table(pool, tm),
                tm == t@,
                tn == name@,
                rcount == t.rows@.len(),
                rowviews == views_of(row_names@),
                colviews == views_of(col_names@),
                rowviews.len() == rcount,
                forall|q: int| 0 <= q < rcount ==> rowviews[q] == t.rows@[q].name@,
                present.wf() && lams.wf() && pids.wf(),
                present.view().len() == c * rcount + rr,
                expand_cells(
                    tn,
                    rowviews,
                    colviews,
                    present.view(),
                    val_views_of(values@),
                    lams.view(),
                    pids.view(),
                    pool,
                    0,
                    0,
                ) == Some(cellrecs),
                forall|k: int|
                    0 <= k < cellrecs.len() ==> snap_record_sound(
                        #[trigger] cellrecs[k],
                        tn,
                        tm,
                    ),
                forall|a: int, b: int|
                    0 <= a < c && 0 <= b < rcount && tm.rows.contains_key(rowviews[b])
                        && #[trigger] tm.rows[rowviews[b]].cells.contains_key(
                        #[trigger] colviews[a],
                    ) ==> cellrecs.contains(
                        crate::encode::delta::cell_record(
                            tn,
                            rowviews[b],
                            colviews[a],
                            tm.rows[rowviews[b]].cells[colviews[a]],
                        ),
                    ),
                forall|b: int|
                    0 <= b < rr && tm.rows.contains_key(rowviews[b])
                        && #[trigger] tm.rows[rowviews[b]].cells.contains_key(colviews[c as int])
                        ==> cellrecs.contains(
                        crate::encode::delta::cell_record(
                            tn,
                            rowviews[b],
                            colviews[c as int],
                            tm.rows[rowviews[b]].cells[colviews[c as int]],
                        ),
                    ),
            decreases rcount - rr,
        {
            let ghost k0 = present.view().len();
            proof {
                crate::table::lemma_rows_contains(t.rows@, rowviews[rr as int]);
                crate::table::lemma_assoc_index_rows(t.rows@, rr as int);
                vstd::arithmetic::div_mod::lemma_fundamental_div_mod_converse_div(
                    k0 as int,
                    rcount as int,
                    c as int,
                    rr as int,
                );
                vstd::arithmetic::div_mod::lemma_fundamental_div_mod_converse_mod(
                    k0 as int,
                    rcount as int,
                    c as int,
                    rr as int,
                );
            }
            match crate::table::find_cell(&t.rows[rr].cells, &col_names[c]) {
                Some(j) => {
                    let cell = &t.rows[rr].cells[j];
                    proof {
                        crate::table::lemma_assoc_index_cells(t.rows@[rr as int].cells@, j as int);
                        assert(tm.rows.contains_key(rowviews[rr as int]));
                        assert(tm.rows[rowviews[rr as int]].cells.contains_key(
                            colviews[c as int],
                        ));
                        assert(tm.rows[rowviews[rr as int]].cells[colviews[c as int]]
                            == cell@);
                    }
                    let pi = match peers.index_of(cell.id.peer) {
                        Some(x) => x,
                        None => {
                            proof {
                                assert(pool.contains(cell.id.peer));
                                assert(false);
                            }
                            0
                        },
                    };
                    let ghost pre_recs = cellrecs;
                    let ghost pv0 = present.view();
                    let ghost vv0 = val_views_of(values@);
                    let ghost lv0 = lams.view();
                    let ghost qv0 = pids.view();
                    let ghost lcast: i64 = (cell.id.lamport as u64) as i64;
                    let ghost pcast: i64 = (pi as u64) as i64;
                    proof {
                        crate::encode::delta::lemma_wrap_u64_i64(pi as u64);
                        crate::encode::delta::lemma_wrap_u64_i64(cell.id.lamport as u64);
                        lemma_expand_cells_snoc_true(
                            tn,
                            rowviews,
                            colviews,
                            pv0,
                            vv0,
                            lv0,
                            qv0,
                            pool,
                            0,
                            0,
                            cell.value@,
                            lcast,
                            pcast,
                        );
                    }
                    present.push(true);
                    values.push(cell.value.dup());
                    lams.push(cell.id.lamport as u64 as i64);
                    pids.push(pi as u64 as i64);
                    proof {
                        let newrec = RecordModel {
                            table: tn,
                            row: Some(rowviews[(pv0.len() as int) % (rowviews.len() as int)]),
                            col: Some(colviews[(pv0.len() as int) / (rowviews.len() as int)]),
                            value: cell.value@,
                            id: OpId {
                                lamport: ((lcast as u64) as u32),
                                peer: pool[(pcast as u64) as int],
                            },
                        };
                        cellrecs = cellrecs.push(
                            crate::encode::delta::cell_record(
                                tn,
                                rowviews[rr as int],
                                colviews[c as int],
                                cell@,
                            ),
                        );
                        assert((lcast as u64) == cell.id.lamport as u64);
                        assert(((lcast as u64) as u32) == cell.id.lamport);
                        assert((pcast as u64) == pi as u64);
                        assert((pcast as u64) as int == pi as int);
                        assert(pool[(pcast as u64) as int] == cell.id.peer);
                        assert((pv0.len() as int) % (rowviews.len() as int) == rr as int);
                        assert((pv0.len() as int) / (rowviews.len() as int) == c as int);
                        assert(newrec == crate::encode::delta::cell_record(
                            tn,
                            rowviews[rr as int],
                            colviews[c as int],
                            cell@,
                        ));
                        assert(present.view() == pv0.push(true));
                        assert(lams.view() == lv0.push(lcast));
                        assert(pids.view() == qv0.push(pcast));
                        assert(values@.drop_last() =~= values@.take(values@.len() - 1));
                        assert(val_views_of(values@) =~= vv0.push(cell.value@));
                        assert(expand_cells(
                            tn,
                            rowviews,
                            colviews,
                            pv0.push(true),
                            vv0.push(cell.value@),
                            lv0.push(lcast),
                            qv0.push(pcast),
                            pool,
                            0,
                            0,
                        ) == Some(pre_recs.push(newrec)));
                        assert(expand_cells(
                            tn,
                            rowviews,
                            colviews,
                            present.view(),
                            val_views_of(values@),
                            lams.view(),
                            pids.view(),
                            pool,
                            0,
                            0,
                        ) == Some(cellrecs));
                        assert forall|b: int|
                            0 <= b < rr + 1 && tm.rows.contains_key(rowviews[b])
                                && #[trigger] tm.rows[rowviews[b]].cells.contains_key(
                                colviews[c as int],
                            ) implies cellrecs.contains(
                            crate::encode::delta::cell_record(
                                tn,
                                rowviews[b],
                                colviews[c as int],
                                tm.rows[rowviews[b]].cells[colviews[c as int]],
                            ),
                        ) by {
                            if b < rr {
                                crate::encode::delta::lemma_contains_prefix(
                                    pre_recs,
                                    cellrecs,
                                    crate::encode::delta::cell_record(
                                        tn,
                                        rowviews[b],
                                        colviews[c as int],
                                        tm.rows[rowviews[b]].cells[colviews[c as int]],
                                    ),
                                );
                            } else {
                                assert(cellrecs[pre_recs.len() as int]
                                    == crate::encode::delta::cell_record(
                                    tn,
                                    rowviews[b],
                                    colviews[c as int],
                                    tm.rows[rowviews[b]].cells[colviews[c as int]],
                                ));
                            }
                        }
                        lemma_coverage_push(pre_recs, cellrecs, tn, tm, rowviews, colviews, c as int, rcount as int);
                    }
                },
                None => {
                    proof {
                        crate::table::lemma_cells_contains(t.rows@[rr as int].cells@, colviews[c as int]);
                        lemma_expand_cells_snoc_false(
                            tn,
                            rowviews,
                            colviews,
                            present.view(),
                            val_views_of(values@),
                            lams.view(),
                            pids.view(),
                            pool,
                            0,
                            0,
                        );
                    }
                    present.push(false);
                    proof {
                        assert forall|b: int|
                            0 <= b < rr + 1 && tm.rows.contains_key(rowviews[b])
                                && #[trigger] tm.rows[rowviews[b]].cells.contains_key(
                                colviews[c as int],
                            ) implies cellrecs.contains(
                            crate::encode::delta::cell_record(
                                tn,
                                rowviews[b],
                                colviews[c as int],
                                tm.rows[rowviews[b]].cells[colviews[c as int]],
                            ),
                        ) by {
                            if b == rr {
                                assert(!tm.rows[rowviews[rr as int]].cells.contains_key(
                                    colviews[c as int],
                                ));
                            }
                        }
                    }
                },
            }
            rr += 1;
        }
        proof {
            assert(present.view().len() == c * rcount + rcount);
            assert((c + 1) * rcount == c * rcount + rcount) by (nonlinear_arith);
            assert forall|a: int, b: int|
                0 <= a < c + 1 && 0 <= b < rcount && tm.rows.contains_key(rowviews[b])
                    && #[trigger] tm.rows[rowviews[b]].cells.contains_key(
                    #[trigger] colviews[a],
                ) implies cellrecs.contains(
                crate::encode::delta::cell_record(
                    tn,
                    rowviews[b],
                    colviews[a],
                    tm.rows[rowviews[b]].cells[colviews[a]],
                ),
            ) by {}
        }
        c += 1;
    }
    let ghost mark4 = sect@;
    let pres_b = present.finish();
    push_block(&mut sect, &pres_b);
    let ghost p5 = block_bytes(pres_b@);
    let ghost mark5 = sect@;
    push_value_list(&mut sect, &values);
    let ghost p6 = crate::varint::varint(values@.len() as u64) + vals_bytes(val_views_of(values@));
    let ghost mark6 = sect@;
    let lam_b = lams.finish();
    push_block(&mut sect, &lam_b);
    let ghost p7 = block_bytes(lam_b@);
    let ghost mark7 = sect@;
    let pid_b = pids.finish();
    push_block(&mut sect, &pid_b);
    let ghost p8 = block_bytes(pid_b@);
    // Row tombstones.
    let mut row_del = BoolRleEncoder::new();
    let mut dps: Vec<u64> = Vec::new();
    let mut dls: Vec<u64> = Vec::new();
    let ghost mut delrecs: Seq<RecordModel> = Seq::empty();
    let mut r3: usize = 0;
    proof {
        assert(expand_row_dels(tn, rowviews, row_del.view(), dps@, dls@, pool, 0, 0) =~= Some(
            delrecs,
        ));
    }
    while r3 < rcount
        invariant
            r3 <= rcount,
            t.wf(),
            peers.wf(),
            pool == peers.pool@,
            pool_covers_table(pool, tm),
            tm == t@,
            tn == name@,
            rcount == t.rows@.len(),
            rowviews == views_of(row_names@),
            rowviews.len() == rcount,
            forall|q: int| 0 <= q < rcount ==> rowviews[q] == t.rows@[q].name@,
            row_del.wf(),
            row_del.view().len() == r3,
            expand_row_dels(tn, rowviews, row_del.view(), dps@, dls@, pool, 0, 0) == Some(delrecs),
            forall|k: int| 0 <= k < delrecs.len() ==> snap_record_sound(#[trigger] delrecs[k], tn, tm),
            forall|b: int|
                0 <= b < r3 && tm.rows.contains_key(#[trigger] rowviews[b]) ==> (
                tm.rows[rowviews[b]].cleared_at matches Some(cl) ==> delrecs.contains(
                    RecordModel {
                        table: tn,
                        row: Some(rowviews[b]),
                        col: None,
                        value: ValueModel::Deleted,
                        id: cl,
                    },
                )),
        decreases rcount - r3,
    {
        proof {
            crate::table::lemma_rows_contains(t.rows@, rowviews[r3 as int]);
            crate::table::lemma_assoc_index_rows(t.rows@, r3 as int);
        }
        let ghost pre_dels = delrecs;
        match t.rows[r3].cleared_at {
            Some(d) => {
                let pi = match peers.index_of(d.peer) {
                    Some(x) => x,
                    None => {
                        proof {
                            assert(pool.contains(d.peer));
                            assert(false);
                        }
                        0
                    },
                };
                proof {
                    lemma_expand_dels_snoc_true(
                        tn,
                        rowviews,
                        row_del.view(),
                        dps@,
                        dls@,
                        pool,
                        0,
                        0,
                        pi as u64,
                        d.lamport as u64,
                    );
                }
                row_del.push(true);
                dps.push(pi as u64);
                dls.push(d.lamport as u64);
                proof {
                    delrecs = delrecs.push(
                        RecordModel {
                            table: tn,
                            row: Some(rowviews[r3 as int]),
                            col: None,
                            value: ValueModel::Deleted,
                            id: d,
                        },
                    );
                    assert(expand_row_dels(
                        tn,
                        rowviews,
                        row_del.view(),
                        dps@,
                        dls@,
                        pool,
                        0,
                        0,
                    ) == Some(delrecs));
                    assert forall|b: int|
                        0 <= b < r3 + 1 && tm.rows.contains_key(#[trigger] rowviews[b]) implies (
                    tm.rows[rowviews[b]].cleared_at matches Some(cl) ==> delrecs.contains(
                        RecordModel {
                            table: tn,
                            row: Some(rowviews[b]),
                            col: None,
                            value: ValueModel::Deleted,
                            id: cl,
                        },
                    )) by {
                        if b < r3 {
                            if let Some(cl) = tm.rows[rowviews[b]].cleared_at {
                                crate::encode::delta::lemma_contains_prefix(
                                    pre_dels,
                                    delrecs,
                                    RecordModel {
                                        table: tn,
                                        row: Some(rowviews[b]),
                                        col: None,
                                        value: ValueModel::Deleted,
                                        id: cl,
                                    },
                                );
                            }
                        } else {
                            assert(delrecs[pre_dels.len() as int] == RecordModel {
                                table: tn,
                                row: Some(rowviews[b]),
                                col: None,
                                value: ValueModel::Deleted,
                                id: d,
                            });
                        }
                    }
                }
            },
            None => {
                proof {
                    lemma_expand_dels_snoc_false(
                        tn,
                        rowviews,
                        row_del.view(),
                        dps@,
                        dls@,
                        pool,
                        0,
                        0,
                    );
                }
                row_del.push(false);
            },
        }
        r3 += 1;
    }
    let ghost mark8 = sect@;
    let rowdel_b = row_del.finish();
    push_block(&mut sect, &rowdel_b);
    let ghost p9 = block_bytes(rowdel_b@);
    let ghost mark9 = sect@;
    push_u64_list(&mut sect, &dps);
    let ghost p10 = crate::varint::varint(dps@.len() as u64) + u64s_bytes(dps@);
    let ghost mark10 = sect@;
    push_u64_list(&mut sect, &dls);
    let ghost p11 = crate::varint::varint(dls@.len() as u64) + u64s_bytes(dls@);
    let ghost rs = head + delrecs + cellrecs;
    proof {
        let flag: Seq<u8> = match t.removed {
            Some(d) => seq![1u8] + crate::varint::varint(del_pi) + crate::varint::varint(
                d.lamport as u64,
            ),
            None => seq![0u8],
        };
        assert(mark1 =~= p1);
        assert(mark2 =~= mark1 + flag);
        vstd::seq_lib::lemma_concat_associative(
            mark2,
            crate::varint::varint(row_names@.len() as u64),
            strs_bytes(views_of(row_names@)),
        );
        assert(mark3 == mark2 + p3);
        vstd::seq_lib::lemma_concat_associative(
            mark3,
            crate::varint::varint(col_names@.len() as u64),
            strs_bytes(views_of(col_names@)),
        );
        assert(mark4 == mark3 + p4);
        assert(mark5 == mark4 + p5);
        vstd::seq_lib::lemma_concat_associative(
            mark5,
            crate::varint::varint(values@.len() as u64),
            vals_bytes(val_views_of(values@)),
        );
        assert(mark6 == mark5 + p6);
        assert(mark7 == mark6 + p7);
        assert(mark8 == mark7 + p8);
        assert(mark9 == mark8 + p9);
        vstd::seq_lib::lemma_concat_associative(
            mark9,
            crate::varint::varint(dps@.len() as u64),
            u64s_bytes(dps@),
        );
        assert(mark10 == mark9 + p10);
        vstd::seq_lib::lemma_concat_associative(
            mark10,
            crate::varint::varint(dls@.len() as u64),
            u64s_bytes(dls@),
        );
        assert(sect@ == mark10 + p11);
        assert(sect@ == p1 + flag + p3 + p4 + p5 + p6 + p7 + p8 + p9 + p10 + p11);
        assert(rowviews.len() == row_names@.len() && row_names@.len() == row_names.len());
        assert(colviews.len() == col_names@.len() && col_names@.len() == col_names.len());
        assert(values@.len() == values.len());
        assert(dps@.len() == dps.len());
        assert(dls@.len() == dls.len());
        assert(pres_b@.len() == pres_b.len());
        assert(lam_b@.len() == lam_b.len());
        assert(pid_b@.len() == pid_b.len());
        assert(rowdel_b@.len() == rowdel_b.len());
        assert(rcount * colviews.len() == colviews.len() * rcount) by (nonlinear_arith);
        assert(present.view().len() == rowviews.len() * colviews.len());
        if let Some(d) = t.removed {
            assert(tm.removed == Some(d));
            assert(d.lamport >= 1);
        }
        lemma_section_parses(
            sect@,
            tn,
            t.removed,
            del_pi,
            rowviews,
            colviews,
            pres_b@,
            val_views_of(values@),
            lam_b@,
            pid_b@,
            rowdel_b@,
            dps@,
            dls@,
            pool,
            head,
            delrecs,
            cellrecs,
            present.view(),
            lams.view(),
            pids.view(),
            row_del.view(),
        );
        lemma_section_records_ok(
            *t,
            tn,
            tm,
            col_names@,
            rowviews,
            colviews,
            head,
            delrecs,
            cellrecs,
            rs,
        );
    }
    (sect, Ghost(rs))
}

/// Coverage of earlier columns survives appending a record.
proof fn lemma_coverage_push(
    pre: Seq<RecordModel>,
    post: Seq<RecordModel>,
    tn: Seq<char>,
    tm: TableModel,
    rowviews: Seq<Seq<char>>,
    colviews: Seq<Seq<char>>,
    c: int,
    rcount: int,
)
    requires
        pre.len() <= post.len(),
        forall|k: int| 0 <= k < pre.len() ==> post[k] == pre[k],
        forall|a: int, b: int|
            0 <= a < c && 0 <= b < rcount && tm.rows.contains_key(rowviews[b])
                && #[trigger] tm.rows[rowviews[b]].cells.contains_key(#[trigger] colviews[a])
                ==> pre.contains(
                crate::encode::delta::cell_record(
                    tn,
                    rowviews[b],
                    colviews[a],
                    tm.rows[rowviews[b]].cells[colviews[a]],
                ),
            ),
    ensures
        forall|a: int, b: int|
            0 <= a < c && 0 <= b < rcount && tm.rows.contains_key(rowviews[b])
                && #[trigger] tm.rows[rowviews[b]].cells.contains_key(#[trigger] colviews[a])
                ==> post.contains(
                crate::encode::delta::cell_record(
                    tn,
                    rowviews[b],
                    colviews[a],
                    tm.rows[rowviews[b]].cells[colviews[a]],
                ),
            ),
{
    assert forall|a: int, b: int|
        0 <= a < c && 0 <= b < rcount && tm.rows.contains_key(rowviews[b])
            && #[trigger] tm.rows[rowviews[b]].cells.contains_key(#[trigger] colviews[a]) implies post.contains(
        crate::encode::delta::cell_record(
            tn,
            rowviews[b],
            colviews[a],
            tm.rows[rowviews[b]].cells[colviews[a]],
        ),
    ) by {
        let want = crate::encode::delta::cell_record(
            tn,
            rowviews[b],
            colviews[a],
            tm.rows[rowviews[b]].cells[colviews[a]],
        );
        let q = choose|q: int| 0 <= q < pre.len() && pre[q] == want;
        assert(post[q] == want);
    }
}

} // verus!