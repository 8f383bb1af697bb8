//! The operation log: per peer, an ascending-lamport list of the
//! operations that touched rows, plus the vector clock and the highest
//! lamport ever recorded.

use vstd::prelude::*;

use crate::assoc::{assoc_map, keys_unique, lemma_assoc_contains_one, lemma_assoc_index,
    lemma_assoc_insert, lemma_assoc_push, lemma_assoc_update};
use crate::clock::{clock_of, VectorClock};
use crate::OpId;

verus! {

/// A logged operation. `Update` is a marker: some cell in (table, row)
/// was touched; exporters read the current value from the table.
pub enum Op {
    Update { table: String, row: String },
    DeleteRow { table: String, row: String },
    DeleteTable { table: String },
}

/// Model of a logged operation.
pub enum OpModel {
    Update { table: Seq<char>, row: Seq<char> },
    DeleteRow { table: Seq<char>, row: Seq<char> },
    DeleteTable { table: Seq<char> },
}

impl View for Op {
    type V = OpModel;

    open spec fn view(&self) -> OpModel {
        match self {
            Op::Update { table, row } => OpModel::Update { table: table@, row: row@ },
            Op::DeleteRow { table, row } => OpModel::DeleteRow { table: table@, row: row@ },
            Op::DeleteTable { table } => OpModel::DeleteTable { table: table@ },
        }
    }
}

impl Op {
    /// A copy whose model equals the original's.
    pub fn dup(&self) -> (r: Op)
        ensures
            r@ == self@,
    {
        match self {
            Op::Update { table, row } => Op::Update { table: table.clone(), row: row.clone() },
            Op::DeleteRow { table, row } => Op::DeleteRow {
                table: table.clone(),
                row: row.clone(),
            },
            Op::DeleteTable { table } => Op::DeleteTable { table: table.clone() },
        }
    }
}

/// One log entry: the lamport part of the id, and the operation.
pub struct LogEntry {
    pub lamport: u32,
    pub op: Op,
}

/// All operations of one peer, ascending by lamport.
pub struct PeerLog {
    pub peer: u64,
    pub entries: Vec<LogEntry>,
}

/// The operation log.
pub struct OpLog {
    pub logs: Vec<PeerLog>,
    pub vv: VectorClock,
    pub max_lamport: u32,
}

pub open spec fn entry_key() -> spec_fn(LogEntry) -> u32 {
    |e: LogEntry| e.lamport
}

pub open spec fn entry_val() -> spec_fn(LogEntry) -> OpModel {
    |e: LogEntry| e.op@
}

pub open spec fn peer_log_key() -> spec_fn(PeerLog) -> u64 {
    |l: PeerLog| l.peer
}

pub open spec fn peer_log_val() -> spec_fn(PeerLog) -> Map<u32, OpModel> {
    |l: PeerLog| l@
}

impl View for PeerLog {
    type V = Map<u32, OpModel>;

    open spec fn view(&self) -> Map<u32, OpModel> {
        assoc_map(self.entries@, entry_key(), entry_val())
    }
}

impl View for OpLog {
    type V = Map<u64, Map<u32, OpModel>>;

    open spec fn view(&self) -> Map<u64, Map<u32, OpModel>> {
        assoc_map(self.logs@, peer_log_key(), peer_log_val())
    }
}

/// Strictly ascending lamports.
pub open spec fn entries_sorted(s: Seq<LogEntry>) -> bool {
    forall|i: int, j: int| 0 <= i < j < s.len() ==> s[i].lamport < s[j].lamport
}

/// Recording an operation in the log model.
pub open spec fn log_record(
    m: Map<u64, Map<u32, OpModel>>,
    id: OpId,
    op: OpModel,
) -> Map<u64, Map<u32, OpModel>> {
    let inner = if m.contains_key(id.peer) {
        m[id.peer]
    } else {
        Map::empty()
    };
    m.insert(id.peer, inner.insert(id.lamport, op))
}

impl PeerLog {
    pub open spec fn wf(self) -> bool {
        &&& entries_sorted(self.entries@)
        &&& self.entries@.len() >= 1
        &&& forall|i: int| 0 <= i < self.entries@.len() ==> (#[trigger] self.entries@[i]).lamport
            >= 1
    }

    pub open spec fn max_lamport_of(self) -> u32 {
        self.entries@.last().lamport
    }
}

impl OpLog {
    /// Representation invariant: distinct peers, sorted per-peer entries,
    /// the vector clock exactly the per-peer maxima, and `max_lamport` at
    /// or above every recorded lamport.
    pub open spec fn wf(self) -> bool {
        &&& keys_unique(self.logs@, peer_log_key())
        &&& forall|i: int| 0 <= i < self.logs@.len() ==> (#[trigger] self.logs@[i]).wf()
        &&& self.vv.wf()
        &&& forall|i: int|
            0 <= i < self.logs@.len() ==> self.vv@.contains_key(
                (#[trigger] self.logs@[i]).peer,
            ) && self.vv@[self.logs@[i].peer] == self.logs@[i].max_lamport_of()
        &&& forall|p: u64|
            #[trigger] self.vv@.contains_key(p) ==> (exists|i: int|
                0 <= i < self.logs@.len() && (#[trigger] self.logs@[i]).peer == p)
        &&& forall|p: u64|
            #[trigger] self.vv@.contains_key(p) ==> self.vv@[p] <= self.max_lamport
    }

    /// An empty log.
    pub fn new() -> (r: Self)
        ensures
            r.wf(),
            r@ == Map::<u64, Map<u32, OpModel>>::empty(),
            r.vv@ == Map::<u64, u32>::empty(),
            r.max_lamport == 0,
    {
        let r = OpLog { logs: Vec::new(), vv: VectorClock::new(), max_lamport: 0 };
        proof {
            assert(r@ =~= Map::<u64, Map<u32, OpModel>>::empty());
        }
        r
    }

    /// The lamport the next local operation should carry.
    pub fn next_lamport(&self) -> (r: u32)
        requires
            self.max_lamport < u32::MAX,
        ensures
            r == self.max_lamport + 1,
    {
        self.max_lamport + 1
    }

    fn find_peer(&self, peer: u64) -> (r: Option<usize>)
        ensures
            match r {
                Some(i) => i < self.logs@.len() && self.logs@[i as int].peer == peer,
                None => forall|i: int|
                    0 <= i < self.logs@.len() ==> (#[trigger] self.logs@[i]).peer != peer,
            },
    {
        let mut i: usize = 0;
        while i < self.logs.len()
            invariant
                i <= self.logs@.len(),
                forall|k: int| 0 <= k < i ==> (#[trigger] self.logs@[k]).peer != peer,
            decreases self.logs@.len() - i,
        {
            if self.logs[i].peer == peer {
                return Some(i);
            }
            i += 1;
        }
        None
    }

    /// Record an operation at `id`, advancing the clock and `max_lamport`.
    /// A second record at the same id replaces the first.
    pub fn record(&mut self, id: OpId, op: Op)
        requires
            old(self).wf(),
            id.lamport >= 1,
        ensures
            final(self).wf(),
            final(self)@ == log_record(old(self)@, id, op@),
            final(self).vv@ == old(self).vv@.insert(
                id.peer,
                if clock_of(old(self).vv@, id.peer) >= id.lamport {
                    clock_of(old(self).vv@, id.peer)
                } else {
                    id.lamport
                },
            ),
            final(self).max_lamport == (if old(self).max_lamport >= id.lamport {
                old(self).max_lamport
            } else {
                id.lamport
            }),
    {
        let ghost logs0 = self.logs@;
        let ghost vv0 = self.vv@;
        proof {
            lemma_peers_contains(logs0, id.peer);
        }
        self.vv.extend_to_include(id);
        if id.lamport > self.max_lamport {
            self.max_lamport = id.lamport;
        }
        match self.find_peer(id.peer) {
            Some(i) => {
                proof {
                    lemma_assoc_index(logs0, peer_log_key(), peer_log_val(), i as int);
                }
                let plog = &mut self.logs[i];
                insert_entry(&mut plog.entries, id.lamport, op);
                proof {
                    assert(self.logs@ =~= logs0.update(i as int, self.logs@[i as int]));
                    lemma_assoc_update(
                        logs0,
                        peer_log_key(),
                        peer_log_val(),
                        i as int,
                        self.logs@[i as int],
                    );
                    assert(self@ =~= log_record(old(self)@, id, op@));
                    assert forall|k: int| 0 <= k < self.logs@.len() implies self.vv@.contains_key(
                        (#[trigger] self.logs@[k]).peer,
                    ) && self.vv@[self.logs@[k].peer] == self.logs@[k].max_lamport_of() by {
                        if k == i as int {
                            assert(vv0.contains_key(id.peer));
                            assert(vv0[id.peer] == logs0[i as int].max_lamport_of());
                        } else {
                            assert(self.logs@[k] == logs0[k]);
                            assert(peer_log_key()(logs0[k]) != peer_log_key()(logs0[i as int]));
                            assert(self.logs@[k].peer != id.peer);
                        }
                    }
                    assert forall|p: u64| #[trigger] self.vv@.contains_key(p) implies (exists|
                        k: int,
                    | 0 <= k < self.logs@.len() && (#[trigger] self.logs@[k]).peer == p) by {
                        if p == id.peer {
                            assert(self.logs@[i as int].peer == p);
                        } else {
                            assert(vv0.contains_key(p));
                            let k = choose|k: int|
                                0 <= k < logs0.len() && (#[trigger] logs0[k]).peer == p;
                            assert(self.logs@[k].peer == p);
                        }
                    }
                }
            },
            None => {
                let mut entries: Vec<LogEntry> = Vec::new();
                entries.push(LogEntry { lamport: id.lamport, op });
                self.logs.push(PeerLog { peer: id.peer, entries });
                proof {
                    let nl = self.logs@.last();
                    assert(self.logs@ =~= logs0.push(nl));
                    lemma_assoc_push(logs0, peer_log_key(), peer_log_val(), nl);
                    assert(nl.entries@ =~= Seq::<LogEntry>::empty().push(nl.entries@.last()));
                    lemma_assoc_push(
                        Seq::<LogEntry>::empty(),
                        entry_key(),
                        entry_val(),
                        nl.entries@.last(),
                    );
                    assert(nl@ =~= Map::<u32, OpModel>::empty().insert(id.lamport, op@));
                    assert(self@ =~= log_record(old(self)@, id, op@));
                    assert(!vv0.contains_key(id.peer));
                    assert forall|k: int| 0 <= k < self.logs@.len() implies self.vv@.contains_key(
                        (#[trigger] self.logs@[k]).peer,
                    ) && self.vv@[self.logs@[k].peer] == self.logs@[k].max_lamport_of() by {
                        if k < logs0.len() {
                            assert(self.logs@[k] == logs0[k]);
                            assert(self.logs@[k].peer != id.peer);
                        } else {
                            assert(self.logs@[k] == nl);
                        }
                    }
                    assert forall|p: u64| #[trigger] self.vv@.contains_key(p) implies (exists|
                        k: int,
                    | 0 <= k < self.logs@.len() && (#[trigger] self.logs@[k]).peer == p) by {
                        if p == id.peer {
                            assert(self.logs@[logs0.len() as int].peer == p);
                        } else {
                            assert(vv0.contains_key(p));
                            let k = choose|k: int|
                                0 <= k < logs0.len() && (#[trigger] logs0[k]).peer == p;
                            assert(self.logs@[k].peer == p);
                        }
                    }
                }
            },
        }
        proof {
            assert(keys_unique(self.logs@, peer_log_key()));
            assert(forall|k: int| 0 <= k < self.logs@.len() ==> (#[trigger] self.logs@[k]).wf());
            assert(self.vv.wf());
            assert(forall|k: int|
                0 <= k < self.logs@.len() ==> self.vv@.contains_key(
                    (#[trigger] self.logs@[k]).peer,
                ) && self.vv@[self.logs@[k].peer] == self.logs@[k].max_lamport_of());
            assert(forall|p: u64|
                #[trigger] self.vv@.contains_key(p) ==> self.vv@[p] <= self.max_lamport);
        }
    }

    /// Record a cell update marker for (table, row).
    pub fn record_update(&mut self, id: OpId, table: String, row: String)
        requires
            old(self).wf(),
            id.lamport >= 1,
        ensures
            final(self).wf(),
            final(self)@ == log_record(old(self)@, id, OpModel::Update { table: table@, row: row@ }),
            final(self).vv@ == old(self).vv@.insert(
                id.peer,
                if clock_of(old(self).vv@, id.peer) >= id.lamport {
                    clock_of(old(self).vv@, id.peer)
                } else {
                    id.lamport
                },
            ),
            final(self).max_lamport == (if old(self).max_lamport >= id.lamport {
                old(self).max_lamport
            } else {
                id.lamport
            }),
    {
        self.record(id, Op::Update { table, row })
    }

    /// Record a row deletion for (table, row).
    pub fn record_delete_row(&mut self, id: OpId, table: String, row: String)
        requires
            old(self).wf(),
            id.lamport >= 1,
        ensures
            final(self).wf(),
            final(self)@ == log_record(
                old(self)@,
                id,
                OpModel::DeleteRow { table: table@, row: row@ },
            ),
            final(self).vv@ == old(self).vv@.insert(
                id.peer,
                if clock_of(old(self).vv@, id.peer) >= id.lamport {
                    clock_of(old(self).vv@, id.peer)
                } else {
                    id.lamport
                },
            ),
            final(self).max_lamport == (if old(self).max_lamport >= id.lamport {
                old(self).max_lamport
            } else {
                id.lamport
            }),
    {
        self.record(id, Op::DeleteRow { table, row })
    }

    /// Record a table deletion.
    pub fn record_delete_table(&mut self, id: OpId, table: String)
        requires
            old(self).wf(),
            id.lamport >= 1,
        ensures
            final(self).wf(),
            final(self)@ == log_record(old(self)@, id, OpModel::DeleteTable { table: table@ }),
            final(self).vv@ == old(self).vv@.insert(
                id.peer,
                if clock_of(old(self).vv@, id.peer) >= id.lamport {
                    clock_of(old(self).vv@, id.peer)
                } else {
                    id.lamport
                },
            ),
            final(self).max_lamport == (if old(self).max_lamport >= id.lamport {
                old(self).max_lamport
            } else {
                id.lamport
            }),
    {
        self.record(id, Op::DeleteTable { table })
    }

    /// The operation logged at an id, if any.
    pub fn op_at(&self, id: OpId) -> (r: Option<&Op>)
        requires
            self.wf(),
        ensures
            match r {
                Some(op) => self@.contains_key(id.peer) && self@[id.peer].contains_key(id.lamport)
                    && self@[id.peer][id.lamport] == op@,
                None => !(self@.contains_key(id.peer) && self@[id.peer].contains_key(id.lamport)),
            },
    {
        proof {
            lemma_peers_contains(self.logs@, id.peer);
        }
        match self.find_peer(id.peer) {
            None => None,
            Some(i) => {
                proof {
                    lemma_assoc_index(self.logs@, peer_log_key(), peer_log_val(), i as int);
                }
                let entries = &self.logs[i].entries;
                let mut j: usize = 0;
                while j < entries.len()
                    invariant
                        j <= entries@.len(),
                        entries == &self.logs@[i as int].entries,
                        i < self.logs@.len(),
                        self.wf(),
                        self@.contains_key(id.peer),
                        self@[id.peer] == assoc_map(entries@, entry_key(), entry_val()),
                        forall|k: int|
                            0 <= k < j ==> (#[trigger] entries@[k]).lamport != id.lamport,
                    decreases entries@.len() - j,
                {
                    if entries[j].lamport == id.lamport {
                        proof {
                            assert forall|a: int, b: int|
                                0 <= a < b < entries@.len() implies entry_key()(entries@[a])
                                != entry_key()(entries@[b]) by {}
                            lemma_assoc_index(entries@, entry_key(), entry_val(), j as int);
                        }
                        return Some(&entries[j].op);
                    }
                    j += 1;
                }
                proof {
                    lemma_assoc_contains_one(entries@, entry_key(), entry_val(), id.lamport);
                    if exists|k: int|
                        0 <= k < entries@.len() && entry_key()(#[trigger] entries@[k])
                            == id.lamport {
                        let k = choose|k: int|
                            0 <= k < entries@.len() && entry_key()(#[trigger] entries@[k])
                                == id.lamport;
                        assert(entries@[k].lamport == id.lamport);
                    }
                }
                None
            },
        }
    }

    /// Every operation not yet covered by `from`: per peer, ascending by
    /// lamport; across peers, in the log's storage order.
    pub fn iter_from(&self, from: &VectorClock) -> (r: Vec<LogOp>)
        requires
            self.wf(),
            from.wf(),
        ensures
            r@.len() == log_entries_from(self.logs@, from@).len(),
            forall|k: int|
                0 <= k < r@.len() ==> (#[trigger] r@[k]).id == log_entries_from(
                    self.logs@,
                    from@,
                )[k].0 && r@[k].op@ == log_entries_from(self.logs@, from@)[k].1,
    {
        let mut r: Vec<LogOp> = Vec::new();
        let mut i: usize = 0;
        let ghost logs = self.logs@;
        while i < self.logs.len()
            invariant
                i <= logs.len(),
                self.logs@ == logs,
                from.wf(),
                r@.len() == log_entries_from(logs.take(i as int), from@).len(),
                forall|k: int|
                    0 <= k < r@.len() ==> (#[trigger] r@[k]).id == log_entries_from(
                        logs.take(i as int),
                        from@,
                    )[k].0 && r@[k].op@ == log_entries_from(logs.take(i as int), from@)[k].1,
            decreases logs.len() - i,
        {
            let peer = self.logs[i].peer;
            let start = from.get(peer);
            let entries = &self.logs[i].entries;
            let ghost base = log_entries_from(logs.take(i as int), from@);
            let mut j: usize = 0;
            while j < entries.len()
                invariant
                    j <= entries@.len(),
                    entries == &self.logs@[i as int].entries,
                    i < logs.len(),
                    self.logs@ == logs,
                    peer == logs[i as int].peer,
                    start == clock_of(from@, peer),
                    r@.len() == base.len() + entries_from_list(
                        peer,
                        entries@.take(j as int),
                        start,
                    ).len(),
                    forall|k: int|
                        0 <= k < base.len() ==> (#[trigger] r@[k]).id == base[k].0 && r@[k].op@
                            == base[k].1,
                    forall|k: int|
                        base.len() <= k < r@.len() ==> (#[trigger] r@[k]).id == entries_from_list(
                            peer,
                            entries@.take(j as int),
                            start,
                        )[k - base.len()].0 && r@[k].op@ == entries_from_list(
                            peer,
                            entries@.take(j as int),
                            start,
                        )[k - base.len()].1,
                decreases entries@.len() - j,
            {
                proof {
                    assert(entries@.take(j as int + 1).drop_last() =~= entries@.take(j as int));
                    assert(entries@.take(j as int + 1).last() == entries@[j as int]);
                }
                let e = &entries[j];
                if e.lamport > start {
                    r.push(LogOp { id: OpId { lamport: e.lamport, peer }, op: e.op.dup() });
                }
                j += 1;
            }
            proof {
                assert(entries@.take(entries@.len() as int) =~= entries@);
                assert(logs.take(i as int + 1).drop_last() =~= logs.take(i as int));
                assert(logs.take(i as int + 1).last() == logs[i as int]);
            }
            i += 1;
        }
        proof {
            assert(logs.take(logs.len() as int) =~= logs);
        }
        r
    }

    /// The current vector clock.
    pub fn version(&self) -> (r: &VectorClock)
        ensures
            r == &self.vv,
    {
        &self.vv
    }
}

/// One operation yielded by a log walk.
pub struct LogOp {
    pub id: OpId,
    pub op: Op,
}

/// The entries of one peer's list above a threshold, as (id, op) pairs.
pub open spec fn entries_from_list(peer: u64, s: Seq<LogEntry>, start: u32) -> Seq<
    (OpId, OpModel),
>
    decreases s.len(),
{
    if s.len() == 0 {
        Seq::empty()
    } else {
        entries_from_list(peer, s.drop_last(), start) + if s.last().lamport > start {
            seq![(OpId { lamport: s.last().lamport, peer }, s.last().op@)]
        } else {
            Seq::empty()
        }
    }
}

/// Everything a log holds that a clock does not cover.
pub open spec fn log_entries_from(logs: Seq<PeerLog>, from: Map<u64, u32>) -> Seq<(OpId, OpModel)>
    decreases logs.len(),
{
    if logs.len() == 0 {
        Seq::empty()
    } else {
        log_entries_from(logs.drop_last(), from) + entries_from_list(
            logs.last().peer,
            logs.last().entries@,
            clock_of(from, logs.last().peer),
        )
    }
}

/// Everything a peer-entry walk yields is in that peer's map, above the
/// threshold.
pub proof fn lemma_entries_from_list_sound(peer: u64, s: Seq<LogEntry>, start: u32)
    requires
        entries_sorted(s),
    ensures
        forall|k: int|
            0 <= k < entries_from_list(peer, s, start).len() ==> {
                let e = #[trigger] entries_from_list(peer, s, start)[k];
                &&& e.0.peer == peer
                &&& e.0.lamport > start
                &&& assoc_map(s, entry_key(), entry_val()).contains_key(e.0.lamport)
                &&& assoc_map(s, entry_key(), entry_val())[e.0.lamport] == e.1
            },
    decreases s.len(),
{
    if s.len() > 0 {
        lemma_entries_from_list_sound(peer, s.drop_last(), start);
        assert forall|i: int, j: int| 0 <= i < j < s.len() implies entry_key()(s[i]) != entry_key()(
            s[j],
        ) by {}
        lemma_assoc_index(s, entry_key(), entry_val(), s.len() - 1);
        let whole = entries_from_list(peer, s, start);
        let prior = entries_from_list(peer, s.drop_last(), start);
        assert forall|k: int| 0 <= k < whole.len() implies {
            let e = #[trigger] whole[k];
            &&& e.0.peer == peer
            &&& e.0.lamport > start
            &&& assoc_map(s, entry_key(), entry_val()).contains_key(e.0.lamport)
            &&& assoc_map(s, entry_key(), entry_val())[e.0.lamport] == e.1
        } by {
            if k < prior.len() {
                assert(whole[k] == prior[k]);
                let e = prior[k];
                lemma_assoc_contains_one(s.drop_last(), entry_key(), entry_val(), e.0.lamport);
                let i = choose|i: int|
                    0 <= i < s.drop_last().len() && entry_key()(#[trigger] s.drop_last()[i])
                        == e.0.lamport;
                lemma_assoc_index(s.drop_last(), entry_key(), entry_val(), i);
                lemma_assoc_index(s, entry_key(), entry_val(), i);
            }
        }
    }
}

/// Every entry above the threshold appears in the walk.
pub proof fn lemma_entries_from_list_complete(peer: u64, s: Seq<LogEntry>, start: u32, l: u32)
    requires
        entries_sorted(s),
        assoc_map(s, entry_key(), entry_val()).contains_key(l),
        l > start,
    ensures
        entries_from_list(peer, s, start).contains(
            (OpId { lamport: l, peer }, assoc_map(s, entry_key(), entry_val())[l]),
        ),
    decreases s.len(),
{
    assert forall|i: int, j: int| 0 <= i < j < s.len() implies entry_key()(s[i]) != entry_key()(
        s[j],
    ) by {}
    lemma_assoc_contains_one(s, entry_key(), entry_val(), l);
    let i = choose|i: int| 0 <= i < s.len() && entry_key()(#[trigger] s[i]) == l;
    lemma_assoc_index(s, entry_key(), entry_val(), i);
    let whole = entries_from_list(peer, s, start);
    let prior = entries_from_list(peer, s.drop_last(), start);
    if i == s.len() - 1 {
        assert(whole[whole.len() - 1] == (OpId { lamport: l, peer }, s.last().op@));
    } else {
        lemma_assoc_index(s.drop_last(), entry_key(), entry_val(), i);
        lemma_entries_from_list_complete(peer, s.drop_last(), start, l);
        let k = choose|k: int|
            0 <= k < prior.len() && #[trigger] prior[k] == (
                OpId { lamport: l, peer },
                assoc_map(s.drop_last(), entry_key(), entry_val())[l],
            );
        assert(whole[k] == prior[k]);
    }
}

/// One peer's walk yields ids of that peer with strictly ascending
/// lamports, none above the list's last.
pub proof fn lemma_entries_from_list_ascending(peer: u64, s: Seq<LogEntry>, start: u32)
    requires
        entries_sorted(s),
    ensures
        forall|k: int|
            0 <= k < entries_from_list(peer, s, start).len() ==> (#[trigger] entries_from_list(
                peer,
                s,
                start,
            )[k]).0.peer == peer,
        forall|i: int, j: int|
            0 <= i < j < entries_from_list(peer, s, start).len() ==> (#[trigger] entries_from_list(
                peer,
                s,
                start,
            )[i]).0.lamport < (#[trigger] entries_from_list(peer, s, start)[j]).0.lamport,
        s.len() > 0 ==> forall|k: int|
            0 <= k < entries_from_list(peer, s, start).len() ==> (#[trigger] entries_from_list(
                peer,
                s,
                start,
            )[k]).0.lamport <= s.last().lamport,
    decreases s.len(),
{
    if s.len() > 0 {
        lemma_entries_from_list_ascending(peer, s.drop_last(), start);
        let whole = entries_from_list(peer, s, start);
        let prior = entries_from_list(peer, s.drop_last(), start);
        assert forall|k: int| 0 <= k < whole.len() implies (#[trigger] whole[k]).0.peer == peer
            && whole[k].0.lamport <= s.last().lamport by {
            if k < prior.len() {
                assert(whole[k] == prior[k]);
                if s.drop_last().len() > 0 {
                    assert(s.drop_last().last() == s[s.len() - 2]);
                }
            }
        }
        assert forall|i: int, j: int| 0 <= i < j < whole.len() implies (
        #[trigger] whole[i]).0.lamport < (#[trigger] whole[j]).0.lamport by {
            if j < prior.len() {
                assert(whole[i] == prior[i] && whole[j] == prior[j]);
            } else {
                assert(whole[i] == prior[i]);
                assert(s.drop_last().last() == s[s.len() - 2]);
            }
        }
    }
}

/// A log walk yields pairwise distinct ids, each of a walked peer.
pub proof fn lemma_log_entries_from_distinct(logs: Seq<PeerLog>, from: Map<u64, u32>)
    requires
        keys_unique(logs, peer_log_key()),
        forall|i: int| 0 <= i < logs.len() ==> (#[trigger] logs[i]).wf(),
    ensures
        forall|i: int, j: int|
            0 <= i < j < log_entries_from(logs, from).len() ==> (#[trigger] log_entries_from(
                logs,
                from,
            )[i]).0 != (#[trigger] log_entries_from(logs, from)[j]).0,
        forall|k: int|
            0 <= k < log_entries_from(logs, from).len() ==> exists|q: int|
                0 <= q < logs.len() && (#[trigger] log_entries_from(logs, from)[k]).0.peer == (
                #[trigger] logs[q]).peer,
    decreases logs.len(),
{
    if logs.len() > 0 {
        assert forall|i: int, j: int|
            0 <= i < j < logs.drop_last().len() implies peer_log_key()(
            #[trigger] logs.drop_last()[i],
        ) != peer_log_key()(#[trigger] logs.drop_last()[j]) by {
            assert(logs.drop_last()[i] == logs[i] && logs.drop_last()[j] == logs[j]);
        }
        lemma_log_entries_from_distinct(logs.drop_last(), from);
        let last = logs.last();
        lemma_entries_from_list_ascending(
            last.peer,
            last.entries@,
            clock_of(from, last.peer),
        );
        let whole = log_entries_from(logs, from);
        let prior = log_entries_from(logs.drop_last(), from);
        let tail = entries_from_list(last.peer, last.entries@, clock_of(from, last.peer));
        assert forall|k: int| 0 <= k < whole.len() implies exists|q: int|
            0 <= q < logs.len() && (#[trigger] whole[k]).0.peer == (#[trigger] logs[q]).peer by {
            if k < prior.len() {
                assert(whole[k] == prior[k]);
                let q = choose|q: int|
                    0 <= q < logs.drop_last().len() && (#[trigger] prior[k]).0.peer == (
                    #[trigger] logs.drop_last()[q]).peer;
                assert(logs.drop_last()[q] == logs[q]);
                assert(whole[k].0.peer == logs[q].peer);
            } else {
                assert(whole[k] == tail[k - prior.len()]);
                assert(whole[k].0.peer == logs[logs.len() - 1].peer);
            }
        }
        assert forall|i: int, j: int| 0 <= i < j < whole.len() implies (#[trigger] whole[i]).0 != (
        #[trigger] whole[j]).0 by {
            if j < prior.len() {
                assert(whole[i] == prior[i] && whole[j] == prior[j]);
            } else if i >= prior.len() {
                assert(whole[i] == tail[i - prior.len()] && whole[j] == tail[j - prior.len()]);
            } else {
                assert(whole[i] == prior[i] && whole[j] == tail[j - prior.len()]);
                let q = choose|q: int|
                    0 <= q < logs.drop_last().len() && (#[trigger] prior[i]).0.peer == (
                    #[trigger] logs.drop_last()[q]).peer;
                assert(peer_log_key()(logs[q]) != peer_log_key()(logs[logs.len() - 1]));
                assert(whole[i].0.peer != whole[j].0.peer);
            }
        }
    }
}

/// Everything a log walk yields is in the log, above the peer's threshold.
pub proof fn lemma_log_entries_from_sound(logs: Seq<PeerLog>, from: Map<u64, u32>)
    requires
        keys_unique(logs, peer_log_key()),
        forall|i: int| 0 <= i < logs.len() ==> (#[trigger] logs[i]).wf(),
    ensures
        forall|k: int|
            0 <= k < log_entries_from(logs, from).len() ==> {
                let e = #[trigger] log_entries_from(logs, from)[k];
                &&& e.0.lamport > clock_of(from, e.0.peer)
                &&& assoc_map(logs, peer_log_key(), peer_log_val()).contains_key(e.0.peer)
                &&& assoc_map(logs, peer_log_key(), peer_log_val())[e.0.peer].contains_key(
                    e.0.lamport,
                )
                &&& assoc_map(logs, peer_log_key(), peer_log_val())[e.0.peer][e.0.lamport] == e.1
            },
    decreases logs.len(),
{
    if logs.len() > 0 {
        lemma_log_entries_from_sound(logs.drop_last(), from);
        let last = logs.last();
        lemma_entries_from_list_sound(last.peer, last.entries@, clock_of(from, last.peer));
        lemma_assoc_index(logs, peer_log_key(), peer_log_val(), logs.len() - 1);
        let whole = log_entries_from(logs, from);
        let prior = log_entries_from(logs.drop_last(), from);
        let tail = entries_from_list(last.peer, last.entries@, clock_of(from, last.peer));
        assert forall|k: int| 0 <= k < whole.len() implies {
            let e = #[trigger] whole[k];
            &&& e.0.lamport > clock_of(from, e.0.peer)
            &&& assoc_map(logs, peer_log_key(), peer_log_val()).contains_key(e.0.peer)
            &&& assoc_map(logs, peer_log_key(), peer_log_val())[e.0.peer].contains_key(e.0.lamport)
            &&& assoc_map(logs, peer_log_key(), peer_log_val())[e.0.peer][e.0.lamport] == e.1
        } by {
            if k < prior.len() {
                assert(whole[k] == prior[k]);
                let e = prior[k];
                lemma_peers_contains(logs.drop_last(), e.0.peer);
                let i = choose|i: int|
                    0 <= i < logs.drop_last().len() && (#[trigger] logs.drop_last()[i]).peer
                        == e.0.peer;
                lemma_assoc_index(logs.drop_last(), peer_log_key(), peer_log_val(), i);
                lemma_assoc_index(logs, peer_log_key(), peer_log_val(), i);
                assert(peer_log_key()(logs[i]) != peer_log_key()(logs[logs.len() - 1]));
            } else {
                assert(whole[k] == tail[k - prior.len()]);
            }
        }
    }
}

/// Every log entry above its peer's threshold appears in the walk.
pub proof fn lemma_log_entries_from_complete(
    logs: Seq<PeerLog>,
    from: Map<u64, u32>,
    p: u64,
    l: u32,
)
    requires
        keys_unique(logs, peer_log_key()),
        forall|i: int| 0 <= i < logs.len() ==> (#[trigger] logs[i]).wf(),
        assoc_map(logs, peer_log_key(), peer_log_val()).contains_key(p),
        assoc_map(logs, peer_log_key(), peer_log_val())[p].contains_key(l),
        l > clock_of(from, p),
    ensures
        log_entries_from(logs, from).contains(
            (
                OpId { lamport: l, peer: p },
                assoc_map(logs, peer_log_key(), peer_log_val())[p][l],
            ),
        ),
    decreases logs.len(),
{
    lemma_peers_contains(logs, p);
    let i = choose|i: int| 0 <= i < logs.len() && (#[trigger] logs[i]).peer == p;
    lemma_assoc_index(logs, peer_log_key(), peer_log_val(), i);
    let whole = log_entries_from(logs, from);
    let prior = log_entries_from(logs.drop_last(), from);
    let last = logs.last();
    let tail = entries_from_list(last.peer, last.entries@, clock_of(from, last.peer));
    if i == logs.len() - 1 {
        lemma_entries_from_list_complete(p, last.entries@, clock_of(from, p), l);
        let k = choose|k: int|
            0 <= k < tail.len() && #[trigger] tail[k] == (
                OpId { lamport: l, peer: p },
                assoc_map(last.entries@, entry_key(), entry_val())[l],
            );
        assert(whole[prior.len() + k] == tail[k]);
    } else {
        lemma_assoc_index(logs.drop_last(), peer_log_key(), peer_log_val(), i);
        assert(peer_log_key()(logs[i]) != peer_log_key()(logs[logs.len() - 1]));
        lemma_log_entries_from_complete(logs.drop_last(), from, p, l);
        let k = choose|k: int|
            0 <= k < prior.len() && #[trigger] prior[k] == (
                OpId { lamport: l, peer: p },
                assoc_map(logs.drop_last(), peer_log_key(), peer_log_val())[p][l],
            );
        assert(whole[k] == prior[k]);
    }
}

/// Every lamport a well-formed log holds lies at or below its maximum,
/// so the next local id is fresh.
/// Every logged operation sits at or below the log's own vector clock:
/// the clock records each peer's maximum.
pub proof fn lemma_log_within_version(log: OpLog)
    requires
        log.wf(),
    ensures
        forall|p: u64, l: u32|
            log@.contains_key(p) && #[trigger] log@[p].contains_key(l)
                ==> crate::clock::clock_includes(log.vv@, OpId { lamport: l, peer: p }),
{
    assert forall|p: u64, l: u32|
        log@.contains_key(p) && #[trigger] log@[p].contains_key(l) implies
        crate::clock::clock_includes(log.vv@, OpId { lamport: l, peer: p }) by {
        lemma_peers_contains(log.logs@, p);
        let i = choose|i: int| 0 <= i < log.logs@.len() && (#[trigger] log.logs@[i]).peer == p;
        lemma_assoc_index(log.logs@, peer_log_key(), peer_log_val(), i);
        let entries = log.logs@[i].entries@;
        lemma_assoc_contains_one(entries, entry_key(), entry_val(), l);
        let j = choose|j: int| 0 <= j < entries.len() && entry_key()(#[trigger] entries[j]) == l;
        assert(entries[j].lamport <= entries.last().lamport);
        assert(log.vv@[p] == log.logs@[i].max_lamport_of());
    }
}

pub proof fn lemma_log_keys_bounded(log: OpLog)
    requires
        log.wf(),
    ensures
        forall|p: u64, l: u32|
            log@.contains_key(p) && #[trigger] log@[p].contains_key(l) ==> l <= log.max_lamport,
{
    assert forall|p: u64, l: u32|
        log@.contains_key(p) && #[trigger] log@[p].contains_key(l) implies l
        <= log.max_lamport by {
        lemma_peers_contains(log.logs@, p);
        let i = choose|i: int| 0 <= i < log.logs@.len() && (#[trigger] log.logs@[i]).peer == p;
        lemma_assoc_index(log.logs@, peer_log_key(), peer_log_val(), i);
        let entries = log.logs@[i].entries@;
        lemma_assoc_contains_one(entries, entry_key(), entry_val(), l);
        let j = choose|j: int| 0 <= j < entries.len() && entry_key()(#[trigger] entries[j]) == l;
        assert(entries[j].lamport <= entries.last().lamport);
        assert(log.vv@[p] == log.logs@[i].max_lamport_of());
    }
}

/// Insert (lamport, op) into a sorted entry list, replacing an entry with
/// the same lamport.
fn insert_entry(entries: &mut Vec<LogEntry>, lamport: u32, op: Op)
    requires
        entries_sorted(old(entries)@),
        lamport >= 1,
        forall|i: int| 0 <= i < old(entries)@.len() ==> (#[trigger] old(entries)@[i]).lamport >= 1,
    ensures
        entries_sorted(final(entries)@),
        assoc_map(final(entries)@, entry_key(), entry_val()) == assoc_map(
            old(entries)@,
            entry_key(),
            entry_val(),
        ).insert(lamport, op@),
        final(entries)@.len() >= 1,
        final(entries)@.len() >= old(entries)@.len(),
        final(entries)@.last().lamport == (if old(entries)@.len() > 0 && old(
            entries,
        )@.last().lamport >= lamport {
            old(entries)@.last().lamport
        } else {
            lamport
        }),
        forall|i: int| 0 <= i < final(entries)@.len() ==> (#[trigger] final(entries)@[i]).lamport
            >= 1,
{
    let ghost e0 = entries@;
    proof {
        assert forall|i: int, j: int| 0 <= i < j < e0.len() implies entry_key()(e0[i])
            != entry_key()(e0[j]) by {}
    }
    let mut idx: usize = 0;
    while idx < entries.len() && entries[idx].lamport < lamport
        invariant
            idx <= entries@.len(),
            entries@ == e0,
            forall|k: int| 0 <= k < idx ==> (#[trigger] entries@[k]).lamport < lamport,
        decreases entries@.len() - idx,
    {
        idx += 1;
    }
    if idx < entries.len() && entries[idx].lamport == lamport {
        let entry = &mut entries[idx];
        entry.op = op;
        proof {
            assert(entries@ =~= e0.update(
                idx as int,
                LogEntry { lamport, op: entries@[idx as int].op },
            ));
            lemma_assoc_update(e0, entry_key(), entry_val(), idx as int, entries@[idx as int]);
            if idx as int == e0.len() - 1 {
            } else {
                assert(entries@.last() == e0.last());
            }
        }
    } else {
        proof {
            assert forall|j: int| 0 <= j < e0.len() implies entry_key()(#[trigger] e0[j])
                != lamport by {
                if j < idx {
                } else {
                    assert(e0[j].lamport > lamport || e0[j].lamport == lamport);
                    if e0[j].lamport == lamport {
                        assert(j == idx || (idx < j && e0[idx as int].lamport < e0[j].lamport));
                    }
                }
            }
        }
        entries.insert(idx, LogEntry { lamport, op });
        proof {
            lemma_assoc_insert(e0, entry_key(), entry_val(), idx as int, entries@[idx as int]);
        }
    }
}

/// Instantiated key-occurrence lemma for peer logs.
pub proof fn lemma_peers_contains(logs: Seq<PeerLog>, peer: u64)
    ensures
        assoc_map(logs, peer_log_key(), peer_log_val()).contains_key(peer) <==> exists|i: int|
            0 <= i < logs.len() && (#[trigger] logs[i]).peer == peer,
{
    lemma_assoc_contains_one(logs, peer_log_key(), peer_log_val(), peer);
    if exists|i: int| 0 <= i < logs.len() && peer_log_key()(#[trigger] logs[i]) == peer {
        let i = choose|i: int| 0 <= i < logs.len() && peer_log_key()(#[trigger] logs[i]) == peer;
        assert(logs[i].peer == peer);
    }
    if exists|i: int| 0 <= i < logs.len() && (#[trigger] logs[i]).peer == peer {
        let i = choose|i: int| 0 <= i < logs.len() && (#[trigger] logs[i]).peer == peer;
        assert(peer_log_key()(logs[i]) == peer);
    }
}

} // verus!
